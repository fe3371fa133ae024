//! Characters and strings: the searches, cuts and renderings that the other modules state
//! their texts with.
//!
//! A string is read as its sequence of characters. Each executable function comes with the
//! spec function that says what it computes.

use vstd::prelude::*;
use vstd::string::*;

verus! {

/// `String::push` of the standard library: the text grows by one character at its end.
pub assume_specification[ std::string::String::push ](s: &mut std::string::String, c: char)
    ensures
        final(s)@ == old(s)@.push(c),
;

/// The characters of a text.
pub fn chars_of(s: &str) -> (v: Vec<char>)
    ensures
        v@ == s@,
{
    let mut v: Vec<char> = Vec::new();
    for c in it: s.chars()
        invariant
            v@ == it.seq().take(it.index() as int),
            it.seq() == s@,
    {
        v.push(c);
    }
    v
}

/// The text made of the characters `a..b` of `v`.
pub fn text_of(v: &Vec<char>, a: usize, b: usize) -> (s: String)
    requires
        a <= b <= v@.len(),
    ensures
        s@ == v@.subrange(a as int, b as int),
{
    let mut s = String::new();
    let mut i: usize = a;
    while i < b
        invariant
            a <= i <= b <= v@.len(),
            s@ == v@.subrange(a as int, i as int),
        decreases b - i,
    {
        s.push(v[i]);
        proof {
            assert(v@.subrange(a as int, i as int).push(v@[i as int]) =~= v@.subrange(
                a as int,
                i + 1,
            ));
        }
        i += 1;
    }
    s
}

/// Whether two texts are equal.
pub fn same(a: &str, b: &str) -> (r: bool)
    ensures
        r == (a@ == b@),
{
    a.to_owned() == b.to_owned()
}

/// The characters of each text of a list.
pub open spec fn texts(v: Seq<String>) -> Seq<Seq<char>> {
    Seq::new(v.len(), |i: int| v[i]@)
}

/// Adds a text at the end of a list.
pub fn texts_push(v: &mut Vec<String>, s: String)
    ensures
        texts(final(v)@) == texts(old(v)@).push(s@),
{
    let ghost before = texts(v@);
    let ghost chars = s@;
    v.push(s);
    proof {
        assert(texts(v@) =~= before.push(chars));
    }
}

/// Whether `list` holds the text `s`.
pub fn holds(list: &Vec<String>, s: &str) -> (r: bool)
    ensures
        r == texts(list@).contains(s@),
{
    let mut i: usize = 0;
    while i < list.len()
        invariant
            i <= list@.len(),
            forall|j: int| 0 <= j < i ==> #[trigger] texts(list@)[j] != s@,
        decreases list@.len() - i,
    {
        if same(list[i].as_str(), s) {
            proof {
                assert(texts(list@)[i as int] == s@);
            }
            return true;
        }
        i += 1;
    }
    false
}

/// Whether a text comes before another, character by character.
pub open spec fn precedes(a: Seq<char>, b: Seq<char>) -> bool
    decreases a.len(),
{
    if b.len() == 0 {
        false
    } else if a.len() == 0 {
        true
    } else if a[0] != b[0] {
        a[0] < b[0]
    } else {
        precedes(a.skip(1), b.skip(1))
    }
}

/// The order of texts is one: no text comes before itself, of two different ones one comes before
/// the other, and what comes before one text comes before all that follow it.
pub proof fn lemma_precedes(a: Seq<char>, b: Seq<char>, c: Seq<char>)
    ensures
        !precedes(a, a),
        precedes(a, b) ==> !precedes(b, a),
        a != b ==> precedes(a, b) || precedes(b, a),
        precedes(a, b) && precedes(b, c) ==> precedes(a, c),
    decreases a.len(),
{
    if a.len() > 0 {
        lemma_precedes(a.skip(1), a.skip(1), a.skip(1));
    }
    if a.len() == 0 && b.len() == 0 {
        assert(a =~= b);
    }
    if a.len() > 0 && b.len() > 0 && a[0] == b[0] {
        if c.len() > 0 && b[0] == c[0] {
            lemma_precedes(a.skip(1), b.skip(1), c.skip(1));
        } else {
            lemma_precedes(a.skip(1), b.skip(1), Seq::empty());
        }
        if a.skip(1) == b.skip(1) {
            assert(a =~= seq![a[0]] + a.skip(1));
            assert(b =~= seq![b[0]] + b.skip(1));
        }
    }
}

/// Whether a text comes before another, character by character.
pub fn comes_before(a: &str, b: &str) -> (r: bool)
    ensures
        r == precedes(a@, b@),
{
    let v = chars_of(a);
    let w = chars_of(b);
    let mut i: usize = 0;
    proof {
        assert(a@.skip(0) =~= a@);
        assert(b@.skip(0) =~= b@);
    }
    while i < v.len() && i < w.len()
        invariant
            v@ == a@,
            w@ == b@,
            i <= v@.len(),
            i <= w@.len(),
            precedes(a@, b@) == precedes(a@.skip(i as int), b@.skip(i as int)),
        decreases v@.len() - i,
    {
        proof {
            assert(a@.skip(i as int).skip(1) =~= a@.skip(i + 1));
            assert(b@.skip(i as int).skip(1) =~= b@.skip(i + 1));
        }
        if v[i] != w[i] {
            return v[i] < w[i];
        }
        i += 1;
    }
    i < w.len()
}

// ---------------------------------------------------------------------------------------------
// Numbers as text

/// The character of a digit below sixteen, in lower case.
pub open spec fn digit_char(d: nat) -> char {
    if d < 10 {
        (48 + d) as char
    } else {
        (87 + d) as char
    }
}

/// `n` in the given base, without leading zeros.
pub open spec fn radix_text(n: nat, base: nat) -> Seq<char>
    decreases n,
{
    if base < 2 || n < base {
        seq![digit_char(n)]
    } else {
        proof {
            assert(n / base < n) by (nonlinear_arith)
                requires
                    base >= 2,
                    n >= base,
            ;
        }
        radix_text(n / base, base).push(digit_char(n % base))
    }
}

/// `n` in decimal.
pub open spec fn dec(n: nat) -> Seq<char> {
    radix_text(n, 10)
}

/// A number in decimal is digits.
pub proof fn lemma_dec_is_digits(n: nat)
    ensures
        forall|i: int| 0 <= i < dec(n).len() ==> '0' <= #[trigger] dec(n)[i] <= '9',
    decreases n,
{
    if n >= 10 {
        let front = dec(n / 10);
        lemma_dec_is_digits(n / 10);
        assert(dec(n) == front.push(digit_char(n % 10)));
        assert forall|i: int| 0 <= i < dec(n).len() implies '0' <= #[trigger] dec(n)[i] <= '9' by {
            if i < front.len() {
                assert(dec(n)[i] == front[i]);
            }
        }
    } else {
        assert(dec(n) =~= seq![digit_char(n)]);
    }
}

/// Different numbers are written differently.
pub proof fn lemma_dec_tells_apart(m: nat, n: nat)
    requires
        dec(m) == dec(n),
    ensures
        m == n,
    decreases m,
{
    let (a, b) = (dec(m), dec(n));
    assert(a.last() == b.last());
    if m >= 10 && n >= 10 {
        assert(a.drop_last() =~= dec(m / 10));
        assert(b.drop_last() =~= dec(n / 10));
        lemma_dec_tells_apart(m / 10, n / 10);
        assert(a.last() == digit_char(m % 10));
        assert(b.last() == digit_char(n % 10));
    } else if m >= 10 {
        lemma_dec_is_not_empty(m / 10);
    } else if n >= 10 {
        lemma_dec_is_not_empty(n / 10);
    }
}

proof fn lemma_dec_is_not_empty(n: nat)
    ensures
        dec(n).len() >= 1,
{
}

/// What comes before a character ends at the first such character: a text that begins with `a` and
/// then `c` has all of `a` before its first `c`.
pub proof fn lemma_same_up_to(a: Seq<char>, x: Seq<char>, c: char, more: Seq<char>, rest: Seq<char>)
    requires
        !a.contains(c),
        !x.contains(c),
        begins(x + seq![c] + rest, a + seq![c] + more),
    ensures
        a == x,
        begins(rest, more),
{
    let s = x + seq![c] + rest;
    let p = a + seq![c] + more;
    assert forall|i: int| 0 <= i < p.len() implies s[i] == p[i] by {
        assert(s.take(p.len() as int)[i] == p[i]);
    }
    if a.len() < x.len() {
        assert(s[a.len() as int] == x[a.len() as int]);
        assert(p[a.len() as int] == c);
        assert(x.contains(c));
    }
    if a.len() > x.len() {
        assert(s[x.len() as int] == c);
        assert(p[x.len() as int] == a[x.len() as int]);
        assert(a.contains(c));
    }
    assert forall|i: int| 0 <= i < a.len() implies a[i] == x[i] by {
        assert(s[i] == x[i] && p[i] == a[i]);
    }
    assert(a =~= x);
    let k = a.len() + 1;
    assert forall|i: int| 0 <= i < more.len() implies more[i] == rest[i] by {
        assert(p[k + i] == more[i]);
        assert(s[k + i] == rest[i]);
    }
    assert(rest.take(more.len() as int) =~= more);
}

/// `s` with zeros in front of it up to `width` characters.
pub open spec fn zero_padded(s: Seq<char>, width: nat) -> Seq<char> {
    if s.len() >= width {
        s
    } else {
        Seq::new((width - s.len()) as nat, |i: int| '0') + s
    }
}

fn digit(d: u64) -> (c: char)
    requires
        d < 16,
    ensures
        c == digit_char(d as nat),
{
    if d < 10 {
        (48 + d as u8) as char
    } else {
        (87 + d as u8) as char
    }
}

/// `n` in the given base, without leading zeros, digits in lower case.
pub fn in_base(n: u64, base: u64) -> (s: String)
    requires
        2 <= base <= 16,
    ensures
        s@ == radix_text(n as nat, base as nat),
    decreases n,
{
    if n < base {
        let mut s = String::new();
        s.push(digit(n));
        proof {
            assert(s@ =~= seq![digit_char(n as nat)]);
        }
        s
    } else {
        proof {
            assert((n as nat) / (base as nat) < (n as nat)) by (nonlinear_arith)
                requires
                    base >= 2,
                    n >= base,
            ;
            assert((n as nat) % (base as nat) < base) by (nonlinear_arith)
                requires
                    base >= 2,
            ;
        }
        let mut s = in_base(n / base, base);
        s.push(digit(n % base));
        s
    }
}

/// `n` in decimal.
pub fn decimal(n: u64) -> (s: String)
    ensures
        s@ == dec(n as nat),
{
    in_base(n, 10)
}

/// `s` with zeros in front of it up to `width` characters.
pub fn pad_zeros(s: &str, width: usize) -> (r: String)
    ensures
        r@ == zero_padded(s@, width as nat),
{
    let n: usize = s.unicode_len();
    let mut r = String::new();
    if n >= width {
        r.append(s);
        proof {
            assert(r@ =~= s@);
        }
        return r;
    }
    let mut i: usize = 0;
    while i < width - n
        invariant
            n < width,
            i <= width - n,
            r@ == Seq::new(i as nat, |j: int| '0'),
        decreases width - n - i,
    {
        r.push('0');
        proof {
            assert(Seq::new(i as nat, |j: int| '0').push('0') =~= Seq::new(
                (i + 1) as nat,
                |j: int| '0',
            ));
        }
        i += 1;
    }
    r.append(s);
    r
}

/// Whether every character is a decimal digit.
pub open spec fn all_digits(s: Seq<char>) -> bool {
    forall|i: int| 0 <= i < s.len() ==> '0' <= #[trigger] s[i] && s[i] <= '9'
}

/// The number that a run of decimal digits stands for.
pub open spec fn digits_value(s: Seq<char>) -> nat
    decreases s.len(),
{
    if s.len() == 0 {
        0
    } else {
        digits_value(s.drop_last()) * 10 + (s.last() as int - 48) as nat
    }
}

/// The number a text reads as: an optional `+`, then at least one decimal digit, and no more
/// than `max`.
pub open spec fn read_nat(s: Seq<char>, max: nat) -> Option<nat> {
    let d = if s.len() > 0 && s[0] == '+' {
        s.skip(1)
    } else {
        s
    };
    if d.len() > 0 && all_digits(d) && digits_value(d) <= max {
        Some(digits_value(d))
    } else {
        None
    }
}

proof fn lemma_digits_grow(s: Seq<char>, n: int)
    requires
        0 <= n <= s.len(),
    ensures
        digits_value(s.take(n)) <= digits_value(s),
    decreases s.len() - n,
{
    if n < s.len() {
        lemma_digits_grow(s, n + 1);
        assert(s.take(n + 1).drop_last() =~= s.take(n));
    } else {
        assert(s.take(n) =~= s);
    }
}

/// Reads a non-negative number of at most `max`.
pub fn parse_nat(s: &str, max: u64) -> (r: Option<u64>)
    ensures
        match r {
            Some(n) => read_nat(s@, max as nat) == Some(n as nat),
            None => read_nat(s@, max as nat) is None,
        },
{
    let v = chars_of(s);
    let start: usize = if v.len() > 0 && v[0] == '+' {
        1
    } else {
        0
    };
    let ghost d = s@.skip(start as int);
    proof {
        assert(s@.skip(0) =~= s@);
    }
    if start >= v.len() {
        return None;
    }
    let mut n: u64 = 0;
    let mut i: usize = start;
    proof {
        assert(d.take(0) =~= Seq::empty());
    }
    while i < v.len()
        invariant
            v@ == s@,
            start <= i <= v@.len(),
            d == s@.skip(start as int),
            d.len() == v@.len() - start,
            n == digits_value(d.take(i - start)),
            n <= max,
            forall|j: int| 0 <= j < i - start ==> '0' <= #[trigger] d[j] && d[j] <= '9',
            start == (if s@.len() > 0 && s@[0] == '+' {
                1int
            } else {
                0int
            }),
            start < v@.len(),
            s@.skip(0) == s@,
        decreases v@.len() - i,
    {
        let c = v[i];
        proof {
            assert(d[i - start] == c);
            assert(d.take(i + 1 - start).drop_last() =~= d.take(i - start));
            lemma_digits_grow(d, i + 1 - start);
        }
        if !('0' <= c && c <= '9') {
            return None;
        }
        let x: u64 = c as u64 - 48;
        let wide: u128 = n as u128 * 10 + x as u128;
        if wide > max as u128 {
            return None;
        }
        n = wide as u64;
        i += 1;
    }
    proof {
        assert(d.take(d.len() as int) =~= d);
    }
    Some(n)
}

// ---------------------------------------------------------------------------------------------
// Searching and cutting

/// Where `c` first stands in `s`, or the length of `s`.
pub open spec fn first_at(s: Seq<char>, c: char) -> int
    decreases s.len(),
{
    if s.len() == 0 || s[0] == c {
        0
    } else {
        1 + first_at(s.skip(1), c)
    }
}

/// What `first_at` finds: nothing before it is `c`, and it is `c` itself unless `c` is absent.
pub proof fn lemma_first_at(s: Seq<char>, c: char)
    ensures
        0 <= first_at(s, c) <= s.len(),
        forall|i: int| 0 <= i < first_at(s, c) ==> #[trigger] s[i] != c,
        first_at(s, c) < s.len() ==> s[first_at(s, c)] == c,
        (first_at(s, c) < s.len()) == s.contains(c),
    decreases s.len(),
{
    if s.len() > 0 && s[0] != c {
        let t = s.skip(1);
        lemma_first_at(t, c);
        assert forall|i: int| 0 <= i < first_at(s, c) implies #[trigger] s[i] != c by {
            if i > 0 {
                assert(t[i - 1] == s[i]);
            }
        }
        if s.contains(c) {
            let k = choose|k: int| 0 <= k < s.len() && s[k] == c;
            assert(t[k - 1] == c);
        }
    }
}

/// The only position with nothing equal to `c` before it that is the end or holds `c`.
pub proof fn lemma_first_at_is(s: Seq<char>, c: char, k: int)
    requires
        0 <= k <= s.len(),
        forall|i: int| 0 <= i < k ==> #[trigger] s[i] != c,
        k < s.len() ==> s[k] == c,
    ensures
        first_at(s, c) == k,
{
    lemma_first_at(s, c);
    if first_at(s, c) < k {
        assert(s[first_at(s, c)] == c);
    }
}

/// The first position of `c` in `v` from `from` on, or the length of `v`.
pub fn find_from(v: &Vec<char>, from: usize, c: char) -> (k: usize)
    requires
        from <= v@.len(),
    ensures
        from <= k <= v@.len(),
        k - from == first_at(v@.skip(from as int), c),
{
    let mut i: usize = from;
    while i < v.len()
        invariant
            from <= i <= v@.len(),
            forall|j: int| from <= j < i ==> #[trigger] v@[j] != c,
        decreases v@.len() - i,
    {
        if v[i] == c {
            proof {
                lemma_first_at_is(v@.skip(from as int), c, i - from);
            }
            return i;
        }
        i += 1;
    }
    proof {
        lemma_first_at_is(v@.skip(from as int), c, i - from);
    }
    i
}

/// Whether `s` holds `c`.
pub fn has_char(s: &str, c: char) -> (r: bool)
    ensures
        r == s@.contains(c),
{
    let v = chars_of(s);
    let k: usize = find_from(&v, 0, c);
    proof {
        assert(v@.skip(0) =~= s@);
        lemma_first_at(s@, c);
    }
    k < v.len()
}

/// `s` in two, before and after its first `c`; `None` when it has none.
pub open spec fn cut_at(s: Seq<char>, c: char) -> Option<(Seq<char>, Seq<char>)> {
    let k = first_at(s, c);
    if k < s.len() {
        Some((s.take(k), s.skip(k + 1)))
    } else {
        None
    }
}

/// Splits `s` at its first `c`.
pub fn split_once(s: &str, c: char) -> (r: Option<(String, String)>)
    ensures
        match r {
            Some(p) => cut_at(s@, c) == Some((p.0@, p.1@)),
            None => cut_at(s@, c) is None,
        },
{
    let v = chars_of(s);
    let k: usize = find_from(&v, 0, c);
    proof {
        assert(v@.skip(0) =~= s@);
    }
    if k < v.len() {
        let n: usize = v.len();
        let a = text_of(&v, 0, k);
        let b = text_of(&v, k + 1, n);
        proof {
            assert(a@ =~= s@.take(k as int));
            assert(b@ =~= s@.skip(k + 1));
        }
        Some((a, b))
    } else {
        None
    }
}

/// The pieces of `s` between its `c` characters.
pub open spec fn pieces(s: Seq<char>, c: char) -> Seq<Seq<char>>
    decreases s.len(),
{
    let k = first_at(s, c);
    if 0 <= k < s.len() {
        seq![s.take(k)] + pieces(s.skip(k + 1), c)
    } else {
        seq![s]
    }
}

/// Splits `s` at every `c`.
pub fn split(s: &str, c: char) -> (r: Vec<String>)
    ensures
        texts(r@) == pieces(s@, c),
        r@.len() >= 1,
{
    let v = chars_of(s);
    let n: usize = v.len();
    let mut r: Vec<String> = Vec::new();
    let mut i: usize = 0;
    proof {
        assert(v@.skip(0) =~= s@);
        assert(texts(r@) + pieces(s@, c) =~= pieces(s@, c));
    }
    loop
        invariant
            v@ == s@,
            n == v@.len(),
            i <= n,
            texts(r@) + pieces(s@.skip(i as int), c) == pieces(s@, c),
        decreases n - i,
    {
        let k: usize = find_from(&v, i, c);
        let ghost rest = s@.skip(i as int);
        let piece = text_of(&v, i, k);
        let ghost before = texts(r@);
        proof {
            assert(piece@ =~= rest.take(k - i));
        }
        texts_push(&mut r, piece);
        if k >= n {
            proof {
                assert(rest.take(k - i) =~= rest);
                assert(texts(r@) =~= before + pieces(rest, c));
            }
            return r;
        }
        i = k + 1;
        proof {
            assert(rest.skip(first_at(rest, c) + 1) =~= s@.skip(i as int));
            assert(texts(r@) + pieces(s@.skip(i as int), c) =~= before + pieces(rest, c));
        }
    }
}

/// A line without the carriage return at its end.
pub open spec fn unreturned(s: Seq<char>) -> Seq<char> {
    if s.len() > 0 && s.last() == '\r' {
        s.drop_last()
    } else {
        s
    }
}

/// The lines of a text. The last one may do without a line feed.
pub open spec fn lines_of(s: Seq<char>) -> Seq<Seq<char>>
    decreases s.len(),
{
    let k = first_at(s, '\n');
    if s.len() == 0 {
        Seq::empty()
    } else if 0 <= k < s.len() {
        seq![unreturned(s.take(k))] + lines_of(s.skip(k + 1))
    } else {
        seq![s]
    }
}

/// Splits a text into its lines.
pub fn lines(s: &str) -> (r: Vec<String>)
    ensures
        texts(r@) == lines_of(s@),
{
    let v = chars_of(s);
    let n: usize = v.len();
    let mut r: Vec<String> = Vec::new();
    let mut i: usize = 0;
    proof {
        assert(v@.skip(0) =~= s@);
        assert(texts(r@) + lines_of(s@) =~= lines_of(s@));
    }
    while i < n
        invariant
            v@ == s@,
            n == v@.len(),
            i <= n,
            texts(r@) + lines_of(s@.skip(i as int)) == lines_of(s@),
        decreases n - i,
    {
        let k: usize = find_from(&v, i, '\n');
        let ghost rest = s@.skip(i as int);
        let ghost before = texts(r@);
        if k < n {
            let end: usize = if k > i && v[k - 1] == '\r' {
                k - 1
            } else {
                k
            };
            let line = text_of(&v, i, end);
            proof {
                assert(line@ =~= unreturned(rest.take(k - i)));
            }
            texts_push(&mut r, line);
            i = k + 1;
            proof {
                assert(rest.skip(first_at(rest, '\n') + 1) =~= s@.skip(i as int));
                assert(texts(r@) + lines_of(s@.skip(i as int)) =~= before + lines_of(rest));
            }
        } else {
            let line = text_of(&v, i, n);
            proof {
                assert(line@ =~= rest);
            }
            texts_push(&mut r, line);
            i = n;
            proof {
                assert(s@.skip(i as int) =~= Seq::empty());
                assert(texts(r@) + lines_of(s@.skip(i as int)) =~= before + lines_of(rest));
            }
        }
    }
    proof {
        assert(s@.skip(i as int) =~= Seq::empty());
        assert(texts(r@) + lines_of(s@.skip(i as int)) =~= texts(r@));
    }
    r
}

/// `parts` one after another with `sep` between them.
pub open spec fn joined(parts: Seq<Seq<char>>, sep: Seq<char>) -> Seq<char>
    decreases parts.len(),
{
    if parts.len() == 0 {
        Seq::empty()
    } else if parts.len() == 1 {
        parts[0]
    } else {
        joined(parts.drop_last(), sep) + sep + parts.last()
    }
}

/// What is joined begins with the first of `parts`.
pub proof fn lemma_joined_first(parts: Seq<Seq<char>>, sep: Seq<char>)
    requires
        parts.len() >= 2,
    ensures
        joined(parts, sep) == parts[0] + sep + joined(parts.skip(1), sep),
    decreases parts.len(),
{
    let rest = parts.skip(1);
    if parts.len() == 2 {
        assert(joined(parts.drop_last(), sep) == parts[0]);
        assert(joined(rest, sep) == parts[1]);
        assert(joined(parts, sep) =~= parts[0] + sep + rest[0]);
    } else {
        lemma_joined_first(parts.drop_last(), sep);
        assert(parts.drop_last().skip(1) =~= rest.drop_last());
        assert(joined(parts, sep) =~= parts[0] + sep + (joined(rest.drop_last(), sep) + sep
            + rest.last()));
    }
}

/// Splitting what was joined gives back the parts, as long as none of them holds what they are
/// joined with.
pub proof fn lemma_pieces_of_joined(parts: Seq<Seq<char>>, c: char)
    requires
        parts.len() >= 1,
        forall|i: int| 0 <= i < parts.len() ==> !(#[trigger] parts[i]).contains(c),
    ensures
        pieces(joined(parts, seq![c]), c) == parts,
    decreases parts.len(),
{
    let s = joined(parts, seq![c]);
    if parts.len() == 1 {
        lemma_first_at(s, c);
        assert(!parts[0].contains(c));
        assert(pieces(s, c) =~= parts);
    } else {
        let rest = parts.skip(1);
        let first = parts[0];
        lemma_joined_first(parts, seq![c]);
        assert forall|i: int| 0 <= i < rest.len() implies !(#[trigger] rest[i]).contains(c) by {
            assert(rest[i] == parts[i + 1]);
        }
        lemma_pieces_of_joined(rest, c);
        let k = first.len() as int;
        assert forall|i: int| 0 <= i < k implies #[trigger] s[i] != c by {
            assert(first[i] == s[i]);
        }
        assert(s[k] == c);
        lemma_first_at_is(s, c, k);
        assert(s.take(k) =~= first);
        assert(s.skip(k + 1) =~= joined(rest, seq![c]));
        assert(seq![first] + rest =~= parts);
    }
}

/// What is joined holds only characters that its parts or the text between them hold.
pub proof fn lemma_joined_lacks(parts: Seq<Seq<char>>, sep: Seq<char>, c: char)
    requires
        forall|i: int| 0 <= i < parts.len() ==> !(#[trigger] parts[i]).contains(c),
        !sep.contains(c),
    ensures
        !joined(parts, sep).contains(c),
    decreases parts.len(),
{
    if parts.len() == 1 {
        assert(!parts[0].contains(c));
    } else if parts.len() >= 2 {
        let front = parts.drop_last();
        assert forall|i: int| 0 <= i < front.len() implies !(#[trigger] front[i]).contains(c) by {
            assert(front[i] == parts[i]);
        }
        lemma_joined_lacks(front, sep, c);
        let a = joined(front, sep);
        let z = parts.last();
        assert(!z.contains(c)) by {
            assert(!parts[parts.len() - 1].contains(c));
        }
        let s = a + sep + z;
        assert forall|i: int| 0 <= i < s.len() implies #[trigger] s[i] != c by {
            if i < a.len() {
                assert(a.contains(a[i]));
            } else if i < a.len() + sep.len() {
                assert(sep.contains(sep[i - a.len()]));
            } else {
                assert(z.contains(z[i - a.len() - sep.len()]));
            }
        }
    }
}

/// Joins the texts `from..` of `parts` with `sep` between them.
pub fn join_from(parts: &Vec<String>, from: usize, sep: &str) -> (r: String)
    requires
        from <= parts@.len(),
    ensures
        r@ == joined(texts(parts@).skip(from as int), sep@),
{
    let mut r = String::new();
    let mut i: usize = from;
    let ghost all = texts(parts@).skip(from as int);
    proof {
        assert(all.take(0) =~= Seq::empty());
    }
    while i < parts.len()
        invariant
            from <= i <= parts@.len(),
            all == texts(parts@).skip(from as int),
            r@ == joined(all.take(i - from), sep@),
        decreases parts@.len() - i,
    {
        proof {
            let t = all.take(i + 1 - from);
            assert(t.drop_last() =~= all.take(i - from));
            assert(t.last() == parts@[i as int]@);
        }
        if i > from {
            r.append(sep);
        }
        r.append(parts[i].as_str());
        proof {
            if i == from {
                assert(r@ =~= all.take(1)[0]);
            }
        }
        i += 1;
    }
    proof {
        assert(all.take(all.len() as int) =~= all);
    }
    r
}

/// Joins `parts` with `sep` between them.
pub fn join(parts: &Vec<String>, sep: &str) -> (r: String)
    ensures
        r@ == joined(texts(parts@), sep@),
{
    let r = join_from(parts, 0, sep);
    proof {
        assert(texts(parts@).skip(0) =~= texts(parts@));
    }
    r
}

/// Whether `s` begins with `p`.
pub open spec fn begins(s: Seq<char>, p: Seq<char>) -> bool {
    s.len() >= p.len() && s.take(p.len() as int) == p
}

/// Whether the characters of `v` from `at` on begin with `p`.
pub fn begins_at(v: &Vec<char>, at: usize, p: &Vec<char>) -> (r: bool)
    requires
        at <= v@.len(),
    ensures
        r == begins(v@.skip(at as int), p@),
{
    if v.len() - at < p.len() {
        return false;
    }
    let mut i: usize = 0;
    let n: usize = v.len();
    while i < p.len()
        invariant
            i <= p@.len(),
            n == v@.len(),
            at + p@.len() <= v@.len(),
            forall|j: int| 0 <= j < i ==> v@[at + j] == #[trigger] p@[j],
        decreases p@.len() - i,
    {
        if v[at + i] != p[i] {
            proof {
                assert(v@.skip(at as int).take(p@.len() as int)[i as int] != p@[i as int]);
            }
            return false;
        }
        i += 1;
    }
    proof {
        assert(v@.skip(at as int).take(p@.len() as int) =~= p@);
    }
    true
}

/// What follows `p` at the start of `s`; `None` when `s` does not begin with it.
pub fn strip_prefix(s: &str, p: &str) -> (r: Option<String>)
    ensures
        match r {
            Some(t) => begins(s@, p@) && t@ == s@.skip(p@.len() as int),
            None => !begins(s@, p@),
        },
{
    let v = chars_of(s);
    let q = chars_of(p);
    proof {
        assert(v@.skip(0) =~= s@);
    }
    if begins_at(&v, 0, &q) {
        let t = text_of(&v, q.len(), v.len());
        proof {
            assert(t@ =~= s@.skip(p@.len() as int));
        }
        Some(t)
    } else {
        None
    }
}

/// `s` with every character put between two `w`s: what replacing the empty text gives.
pub open spec fn spread(s: Seq<char>, w: Seq<char>) -> Seq<char>
    decreases s.len(),
{
    if s.len() == 0 {
        w
    } else {
        w + seq![s[0]] + spread(s.skip(1), w)
    }
}

/// `s` with each `p`, from the left and without overlap, replaced by `w`.
pub open spec fn replaced(s: Seq<char>, p: Seq<char>, w: Seq<char>) -> Seq<char>
    decreases s.len(),
{
    if p.len() == 0 {
        spread(s, w)
    } else if s.len() == 0 {
        Seq::empty()
    } else if begins(s, p) {
        w + replaced(s.skip(p.len() as int), p, w)
    } else {
        seq![s[0]] + replaced(s.skip(1), p, w)
    }
}

/// Replaces every `p` in `s` by `w`.
pub fn replace(s: &str, p: &str, w: &str) -> (r: String)
    ensures
        r@ == replaced(s@, p@, w@),
{
    let v = chars_of(s);
    let q = chars_of(p);
    let mut r = String::new();
    let mut i: usize = 0;
    proof {
        assert(v@.skip(0) =~= s@);
        assert(r@ + replaced(s@, p@, w@) =~= replaced(s@, p@, w@));
        assert(r@ + spread(s@, w@) =~= spread(s@, w@));
    }
    if q.len() == 0 {
        while i < v.len()
            invariant
                v@ == s@,
                i <= v@.len(),
                r@ + spread(s@.skip(i as int), w@) == spread(s@, w@),
            decreases v@.len() - i,
        {
            let ghost rest = s@.skip(i as int);
            let ghost before = r@;
            r.append(w);
            r.push(v[i]);
            i += 1;
            proof {
                assert(rest.skip(1) =~= s@.skip(i as int));
                assert(r@ + spread(s@.skip(i as int), w@) =~= before + spread(rest, w@));
            }
        }
        r.append(w);
        return r;
    }
    while i < v.len()
        invariant
            v@ == s@,
            q@ == p@,
            q@.len() > 0,
            i <= v@.len(),
            r@ + replaced(s@.skip(i as int), p@, w@) == replaced(s@, p@, w@),
        decreases v@.len() - i,
    {
        let ghost rest = s@.skip(i as int);
        let ghost before = r@;
        if begins_at(&v, i, &q) {
            r.append(w);
            i += q.len();
            proof {
                assert(rest.skip(p@.len() as int) =~= s@.skip(i as int));
            }
        } else {
            r.push(v[i]);
            i += 1;
            proof {
                assert(rest.skip(1) =~= s@.skip(i as int));
            }
        }
        proof {
            assert(r@ + replaced(s@.skip(i as int), p@, w@) =~= before + replaced(rest, p@, w@));
        }
    }
    proof {
        assert(r@ + Seq::<char>::empty() =~= r@);
    }
    r
}

// ---------------------------------------------------------------------------------------------
// White space

/// Unicode's `White_Space` characters.
pub open spec fn is_space(c: char) -> bool {
    ||| '\u{9}' <= c <= '\u{d}'
    ||| c == ' '
    ||| c == '\u{85}'
    ||| c == '\u{a0}'
    ||| c == '\u{1680}'
    ||| '\u{2000}' <= c <= '\u{200a}'
    ||| c == '\u{2028}'
    ||| c == '\u{2029}'
    ||| c == '\u{202f}'
    ||| c == '\u{205f}'
    ||| c == '\u{3000}'
}

/// Whether a character is white space.
pub fn space(c: char) -> (r: bool)
    ensures
        r == is_space(c),
{
    ('\u{9}' <= c && c <= '\u{d}') || c == ' ' || c == '\u{85}' || c == '\u{a0}' || c == '\u{1680}'
        || ('\u{2000}' <= c && c <= '\u{200a}') || c == '\u{2028}' || c == '\u{2029}' || c
        == '\u{202f}' || c == '\u{205f}' || c == '\u{3000}'
}

/// `s` without the white space at its start.
pub open spec fn trimmed_start(s: Seq<char>) -> Seq<char>
    decreases s.len(),
{
    if s.len() > 0 && is_space(s[0]) {
        trimmed_start(s.skip(1))
    } else {
        s
    }
}

/// `s` without the white space at its end.
pub open spec fn trimmed_end(s: Seq<char>) -> Seq<char>
    decreases s.len(),
{
    if s.len() > 0 && is_space(s.last()) {
        trimmed_end(s.drop_last())
    } else {
        s
    }
}

/// `s` without the white space at both ends.
pub open spec fn trimmed(s: Seq<char>) -> Seq<char> {
    trimmed_end(trimmed_start(s))
}

/// Where the text of `v` starts and ends once white space at both ends is left out.
pub fn trim_bounds(v: &Vec<char>) -> (r: (usize, usize))
    ensures
        r.0 <= r.1 <= v@.len(),
        v@.subrange(r.0 as int, r.1 as int) == trimmed(v@),
{
    let n: usize = v.len();
    let mut a: usize = 0;
    proof {
        assert(v@.skip(0) =~= v@);
    }
    while a < n && space(v[a])
        invariant
            a <= n == v@.len(),
            trimmed_start(v@.skip(a as int)) == trimmed_start(v@),
        decreases n - a,
    {
        proof {
            assert(v@.skip(a as int).skip(1) =~= v@.skip(a + 1));
        }
        a += 1;
    }
    proof {
        if a < n {
            assert(v@.skip(a as int)[0] == v@[a as int]);
        }
        assert(trimmed_start(v@) == v@.skip(a as int));
        assert(v@.subrange(a as int, n as int) =~= v@.skip(a as int));
    }
    let mut b: usize = n;
    while a < b && space(v[b - 1])
        invariant
            a <= b <= n == v@.len(),
            trimmed_end(v@.subrange(a as int, b as int)) == trimmed(v@),
        decreases b,
    {
        proof {
            let t = v@.subrange(a as int, b as int);
            assert(t.last() == v@[b - 1]);
            assert(t.drop_last() =~= v@.subrange(a as int, b - 1));
        }
        b -= 1;
    }
    proof {
        if a < b {
            assert(v@.subrange(a as int, b as int).last() == v@[b - 1]);
        }
    }
    (a, b)
}

/// `s` without the white space at both ends.
pub fn trim(s: &str) -> (r: String)
    ensures
        r@ == trimmed(s@),
{
    let v = chars_of(s);
    let (a, b) = trim_bounds(&v);
    text_of(&v, a, b)
}

/// The length of the run at the start of `s` that holds no white space.
pub open spec fn word_len(s: Seq<char>) -> int
    decreases s.len(),
{
    if s.len() == 0 || is_space(s[0]) {
        0
    } else {
        1 + word_len(s.skip(1))
    }
}

/// The words of `s`: its longest runs without white space, in order.
pub open spec fn words(s: Seq<char>) -> Seq<Seq<char>>
    decreases s.len(),
{
    if s.len() == 0 {
        Seq::empty()
    } else if is_space(s[0]) {
        words(s.skip(1))
    } else {
        let k = word_len(s);
        if 0 < k <= s.len() {
            seq![s.take(k)] + words(s.skip(k))
        } else {
            Seq::empty()
        }
    }
}

proof fn lemma_word_len(s: Seq<char>, k: int)
    requires
        0 <= k <= s.len(),
        forall|i: int| 0 <= i < k ==> !is_space(#[trigger] s[i]),
        k < s.len() ==> is_space(s[k]),
    ensures
        word_len(s) == k,
    decreases s.len(),
{
    if k > 0 {
        let t = s.skip(1);
        assert forall|i: int| 0 <= i < k - 1 implies !is_space(#[trigger] t[i]) by {
            assert(t[i] == s[i + 1]);
        }
        if k < s.len() {
            assert(t[k - 1] == s[k]);
        }
        lemma_word_len(t, k - 1);
    }
}

/// Splits `s` at white space.
pub fn split_words(s: &str) -> (r: Vec<String>)
    ensures
        texts(r@) == words(s@),
{
    let v = chars_of(s);
    let n: usize = v.len();
    let mut r: Vec<String> = Vec::new();
    let mut i: usize = 0;
    proof {
        assert(v@.skip(0) =~= s@);
        assert(texts(r@) + words(s@) =~= words(s@));
    }
    while i < n
        invariant
            v@ == s@,
            n == v@.len(),
            i <= n,
            texts(r@) + words(s@.skip(i as int)) == words(s@),
        decreases n - i,
    {
        let ghost rest = s@.skip(i as int);
        if space(v[i]) {
            i += 1;
            proof {
                assert(rest.skip(1) =~= s@.skip(i as int));
            }
        } else {
            let start: usize = i;
            while i < n && !space(v[i])
                invariant
                    n == v@.len(),
                    start <= i <= n,
                    forall|j: int| start <= j < i ==> !is_space(#[trigger] v@[j]),
                decreases n - i,
            {
                i += 1;
            }
            let ghost before = texts(r@);
            let w = text_of(&v, start, i);
            proof {
                lemma_word_len(rest, i - start);
                assert(rest[0] == v@[start as int]);
                assert(w@ =~= rest.take(i - start));
                assert(rest.skip(i - start) =~= s@.skip(i as int));
            }
            texts_push(&mut r, w);
            proof {
                assert(texts(r@) + words(s@.skip(i as int)) =~= before + words(rest));
            }
        }
    }
    proof {
        assert(texts(r@) + Seq::<Seq<char>>::empty() =~= texts(r@));
    }
    r
}

// ---------------------------------------------------------------------------------------------
// What texts give back

/// A number that was written is read back.
pub proof fn lemma_numbers_read_back(n: nat, max: nat)
    requires
        n <= max,
    ensures
        read_nat(dec(n), max) == Some(n),
        n < max ==> read_nat(dec(max), n) is None,
{
    lemma_dec_is_digits(n);
    lemma_value_of_dec(n);
    lemma_dec_is_digits(max);
    lemma_value_of_dec(max);
    assert('0' <= dec(n)[0] && '0' <= dec(max)[0]);
    assert('+' < '0');
}

proof fn lemma_value_of_dec(n: nat)
    ensures
        dec(n).len() > 0,
        digits_value(dec(n)) == n,
    decreases n,
{
    if n < 10 {
        let s = dec(n);
        assert(s.len() == 1 && s.last() == (48 + n) as char);
        assert(s.drop_last() =~= Seq::empty());
        assert(digits_value(s.drop_last()) == 0);
    } else {
        lemma_value_of_dec(n / 10);
        let s = dec(n);
        assert(s.drop_last() =~= dec(n / 10));
        assert(s.last() == (48 + n % 10) as char);
    }
}

/// Padding with zeros keeps the text at the end, fills the width and adds nothing but zeros.
pub proof fn lemma_padding_keeps_the_text(s: Seq<char>, width: nat, i: int)
    requires
        0 <= i < zero_padded(s, width).len(),
    ensures
        zero_padded(s, width).len() == if s.len() < width {
            width
        } else {
            s.len()
        },
        zero_padded(s, width)[i] == if i < zero_padded(s, width).len() - s.len() {
            '0'
        } else {
            s[i - (zero_padded(s, width).len() - s.len())]
        },
{
}

/// Trimming takes the white space at both ends and nothing else: what is left neither starts nor
/// ends with white space, and only white space was taken.
pub proof fn lemma_trimming_takes_the_ends(s: Seq<char>) -> (r: (Seq<char>, Seq<char>))
    ensures
        s == r.0 + trimmed(s) + r.1,
        forall|i: int| 0 <= i < r.0.len() ==> is_space(#[trigger] r.0[i]),
        forall|i: int| 0 <= i < r.1.len() ==> is_space(#[trigger] r.1[i]),
        trimmed(s).len() > 0 ==> !is_space(trimmed(s)[0]) && !is_space(trimmed(s).last()),
{
    let a = lemma_trimming_the_start(s);
    let t = trimmed_start(s);
    let b = lemma_trimming_the_end(t);
    let u = trimmed_end(t);
    if u.len() > 0 {
        assert(t[0] == u[0]);
    }
    assert(s =~= a + u + b);
    (a, b)
}

proof fn lemma_trimming_the_start(s: Seq<char>) -> (a: Seq<char>)
    ensures
        s == a + trimmed_start(s),
        forall|i: int| 0 <= i < a.len() ==> is_space(#[trigger] a[i]),
        trimmed_start(s).len() > 0 ==> !is_space(trimmed_start(s)[0]),
    decreases s.len(),
{
    if s.len() > 0 && is_space(s[0]) {
        let b = lemma_trimming_the_start(s.skip(1));
        let a = seq![s[0]] + b;
        let t = trimmed_start(s.skip(1));
        assert(s =~= seq![s[0]] + s.skip(1));
        assert(s =~= a + t);
        a
    } else {
        assert(s =~= Seq::<char>::empty() + s);
        Seq::empty()
    }
}

proof fn lemma_trimming_the_end(s: Seq<char>) -> (a: Seq<char>)
    ensures
        s == trimmed_end(s) + a,
        forall|i: int| 0 <= i < a.len() ==> is_space(#[trigger] a[i]),
        trimmed_end(s).len() > 0 ==> !is_space(trimmed_end(s).last()),
    decreases s.len(),
{
    if s.len() > 0 && is_space(s.last()) {
        let b = lemma_trimming_the_end(s.drop_last());
        let a = b.push(s.last());
        let t = trimmed_end(s.drop_last());
        assert(s =~= s.drop_last().push(s.last()));
        assert(s =~= t + a);
        a
    } else {
        assert(s =~= s + Seq::<char>::empty());
        Seq::empty()
    }
}

/// Blanks, tabs and line breaks are white space, and letters and digits are not.
pub proof fn lemma_what_white_space_is(c: char)
    ensures
        c == ' ' || c == '\t' || c == '\n' || c == '\r' ==> is_space(c),
        '!' <= c <= '~' ==> !is_space(c),
{
}

/// Replacing a character replaces it wherever it stands: the parts between stay as they are, and
/// nothing of it is left unless it stands in what it is replaced by.
pub proof fn lemma_replacing_one_character(s: Seq<char>, c: char, w: Seq<char>)
    ensures
        !s.contains(c) ==> replaced(s, seq![c], w) == s,
        s.contains(c) ==> replaced(s, seq![c], w) == s.take(first_at(s, c)) + w + replaced(
            s.skip(first_at(s, c) + 1),
            seq![c],
            w,
        ),
        !w.contains(c) ==> !replaced(s, seq![c], w).contains(c),
    decreases s.len(),
{
    let p = seq![c];
    let r = replaced(s, p, w);
    lemma_first_at(s, c);
    if s.len() > 0 {
        assert(s.take(1) =~= seq![s[0]]);
        let rest = s.skip(1);
        lemma_replacing_one_character(rest, c, w);
        lemma_first_at(rest, c);
        if s[0] == c {
            assert(begins(s, p));
            assert(s.contains(c));
            assert(s.take(0) + w =~= w);
            if !w.contains(c) && r.contains(c) {
                let k = choose|k: int| 0 <= k < r.len() && r[k] == c;
                if k < w.len() {
                    assert(w[k] == c);
                } else {
                    assert(replaced(rest, p, w)[k - w.len()] == c);
                }
            }
        } else {
            if begins(s, p) {
                assert(s.take(1)[0] == p[0]);
            }
            assert(r == seq![s[0]] + replaced(rest, p, w));
            if s.contains(c) {
                let k = choose|k: int| 0 <= k < s.len() && s[k] == c;
                assert(rest[k - 1] == c);
                assert(first_at(s, c) == 1 + first_at(rest, c));
                assert(s.take(first_at(s, c)) =~= seq![s[0]] + rest.take(first_at(rest, c)));
                assert(s.skip(first_at(s, c) + 1) =~= rest.skip(first_at(rest, c) + 1));
                assert(r =~= s.take(first_at(s, c)) + w + replaced(
                    s.skip(first_at(s, c) + 1),
                    p,
                    w,
                ));
            } else {
                if rest.contains(c) {
                    let k = choose|k: int| 0 <= k < rest.len() && rest[k] == c;
                    assert(s[k + 1] == c);
                }
                assert(r =~= s);
            }
            if !w.contains(c) && r.contains(c) {
                let k = choose|k: int| 0 <= k < r.len() && r[k] == c;
                assert(replaced(rest, p, w)[k - 1] == c);
            }
        }
    }
}

/// A text is cut where the character stands first, and not at all without it.
pub proof fn lemma_cutting_parts_at_the_first(a: Seq<char>, c: char, b: Seq<char>)
    requires
        !a.contains(c),
    ensures
        cut_at(a + seq![c] + b, c) == Some((a, b)),
        cut_at(a, c) is None,
{
    let s = a + seq![c] + b;
    let n = a.len() as int;
    assert forall|i: int| 0 <= i < n implies #[trigger] s[i] != c by {
        assert(a[i] == s[i]);
    }
    lemma_first_at_is(s, c, n);
    assert(s.take(n) =~= a);
    assert(s.skip(n + 1) =~= b);
    lemma_first_at(a, c);
}

/// A text has a line for each line break, without it and without the return before it, and one for
/// what follows the last.
pub proof fn lemma_lines_end_at_line_breaks(a: Seq<char>, b: Seq<char>)
    requires
        !a.contains('\n'),
    ensures
        lines_of(a + seq!['\n'] + b) == seq![
            if a.len() > 0 && a.last() == '\r' {
                a.drop_last()
            } else {
                a
            },
        ] + lines_of(b),
        a.len() > 0 ==> lines_of(a) == seq![a],
        lines_of(Seq::empty()).len() == 0,
{
    let s = a + seq!['\n'] + b;
    lemma_cutting_parts_at_the_first(a, '\n', b);
    lemma_first_at(s, '\n');
    lemma_first_at(a, '\n');
}

/// The words of a text are what stands between white space, in order.
pub proof fn lemma_words_stand_between_white_space(a: Seq<char>, c: char, b: Seq<char>)
    requires
        a.len() > 0,
        forall|i: int| 0 <= i < a.len() ==> !is_space(#[trigger] a[i]),
        is_space(c),
    ensures
        words(a + seq![c] + b) == seq![a] + words(b),
        words(seq![c] + b) == words(b),
        words(a) == seq![a],
{
    let s = a + seq![c] + b;
    lemma_first_word(a, seq![c] + b);
    assert(s =~= a + (seq![c] + b));
    let t = seq![c] + b;
    reveal_with_fuel(words, 3);
    assert(s.take(a.len() as int) =~= a);
    assert(s.skip(a.len() as int) =~= t);
    assert(t.skip(1) =~= b);
    assert(s[0] == a[0]);
    lemma_first_word(a, Seq::empty());
    assert(a + Seq::<char>::empty() =~= a);
    assert(a.take(a.len() as int) =~= a);
    assert(a.skip(a.len() as int) =~= Seq::empty());
    assert(seq![a] + Seq::<Seq<char>>::empty() =~= seq![a]);
}

proof fn lemma_first_word(a: Seq<char>, b: Seq<char>)
    requires
        forall|i: int| 0 <= i < a.len() ==> !is_space(#[trigger] a[i]),
        b.len() > 0 ==> is_space(b[0]),
    ensures
        word_len(a + b) == a.len(),
    decreases a.len(),
{
    if a.len() > 0 {
        let rest = a.skip(1);
        assert forall|i: int| 0 <= i < rest.len() implies !is_space(#[trigger] rest[i]) by {
            assert(rest[i] == a[i + 1]);
        }
        lemma_first_word(rest, b);
        assert((a + b).skip(1) =~= rest + b);
        assert((a + b)[0] == a[0]);
    } else {
        assert(a + b =~= b);
    }
}

/// Whether a text stands somewhere in another.
pub open spec fn stands_in(s: Seq<char>, p: Seq<char>) -> bool {
    exists|i: int| 0 <= i <= s.len() && begins(#[trigger] s.skip(i), p)
}

proof fn lemma_starts_were_there(s: Seq<char>, p: Seq<char>, q: Seq<char>)
    requires
        p.len() > 0,
        !q.contains(' '),
        begins(replaced(s, p, seq![' ']), q),
    ensures
        begins(s, q),
    decreases s.len(),
{
    let w = seq![' '];
    let r = replaced(s, p, w);
    if q.len() > 0 {
        assert(r.take(q.len() as int)[0] == q[0]);
        if begins(s, p) {
            assert(r[0] == ' ');
            assert(q[0] == ' ');
        } else {
            let rest = s.skip(1);
            let t = replaced(rest, p, w);
            let u = q.skip(1);
            assert(r =~= seq![s[0]] + t);
            assert(t.take(u.len() as int) =~= u) by {
                assert forall|i: int| 0 <= i < u.len() implies t[i] == u[i] by {
                    assert(r.take(q.len() as int)[i + 1] == q[i + 1]);
                }
            }
            if u.contains(' ') {
                let k = choose|k: int| 0 <= k < u.len() && u[k] == ' ';
                assert(q[k + 1] == ' ');
            }
            lemma_starts_were_there(rest, p, u);
            assert(s.take(q.len() as int) =~= q) by {
                assert forall|i: int| 0 <= i < q.len() implies s[i] == q[i] by {
                    if i > 0 {
                        assert(rest.take(u.len() as int)[i - 1] == u[i - 1]);
                    }
                }
            }
        }
    } else {
        assert(s.take(0) =~= q);
    }
}

/// Nothing is left of what is replaced by a blank, unless it has a blank itself; and a text in which
/// it does not stand stays as it is.
pub proof fn lemma_nothing_is_left_of_what_is_replaced(s: Seq<char>, p: Seq<char>)
    requires
        p.len() > 0,
    ensures
        !p.contains(' ') ==> !stands_in(replaced(s, p, seq![' ']), p),
        !stands_in(s, p) ==> replaced(s, p, seq![' ']) == s,
    decreases s.len(),
{
    let w = seq![' '];
    let r = replaced(s, p, w);
    assert(s.skip(0) =~= s);
    if begins(s, p) {
        lemma_nothing_is_left_of_what_is_replaced(s.skip(p.len() as int), p);
        let t = replaced(s.skip(p.len() as int), p, w);
        assert(begins(s.skip(0), p));
        if !p.contains(' ') && stands_in(r, p) {
            let i = choose|i: int| 0 <= i <= r.len() && begins(#[trigger] r.skip(i), p);
            if i == 0 {
                assert(r.skip(0) =~= r);
                assert(r.take(p.len() as int)[0] == p[0]);
                assert(r[0] == ' ');
            } else {
                assert(r.skip(i) =~= t.skip(i - 1));
            }
        }
    } else if s.len() > 0 {
        let rest = s.skip(1);
        lemma_nothing_is_left_of_what_is_replaced(rest, p);
        let t = replaced(rest, p, w);
        assert(r =~= seq![s[0]] + t);
        if !p.contains(' ') && stands_in(r, p) {
            let i = choose|i: int| 0 <= i <= r.len() && begins(#[trigger] r.skip(i), p);
            if i == 0 {
                assert(r.skip(0) =~= r);
                lemma_starts_were_there(s, p, p);
            } else {
                assert(r.skip(i) =~= t.skip(i - 1));
            }
        }
        if !stands_in(s, p) {
            if stands_in(rest, p) {
                let i = choose|i: int| 0 <= i <= rest.len() && begins(#[trigger] rest.skip(i), p);
                assert(s.skip(i + 1) =~= rest.skip(i));
            }
            assert(r =~= s);
        }
    } else {
        assert(r =~= s);
        if stands_in(r, p) {
            let i = choose|i: int| 0 <= i <= r.len() && begins(#[trigger] r.skip(i), p);
            assert(r.skip(i).len() == 0);
        }
    }
}

} // verus!
