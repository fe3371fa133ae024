//! A small deterministic random number generator, so that data order and augmentation are
//! reproducible and can be resumed from a saved seed.

use vstd::prelude::*;

verus! {

/// A number of 64 bits.
pub open spec fn word(n: int) -> u64 {
    (n % 0x1_0000_0000_0000_0000) as u64
}

/// The state after one draw.
pub open spec fn stepped(s: u64) -> u64 {
    word(s + 0x9E37_79B9_7F4A_7C15)
}

/// The number that a state gives.
#[verifier::opaque]
pub open spec fn mixed(s: u64) -> u64 {
    let a = word((s ^ (s >> 30u64)) * 0xBF58_476D_1CE4_E5B9);
    let b = word((a ^ (a >> 27u64)) * 0x94D0_49BB_1331_11EB);
    b ^ (b >> 31u64)
}

/// The number drawn from a state.
pub open spec fn drawn(s: u64) -> u64 {
    mixed(stepped(s))
}

/// The number below `n` (below one for none) drawn from a state.
pub open spec fn drawn_below(s: u64, n: nat) -> nat {
    (drawn(s) as int % (if n >= 1 {
        n as int
    } else {
        1
    })) as nat
}

/// The numerator, over two to the 53rd, of the number from zero to one drawn from a state.
pub open spec fn drawn_unit(s: u64) -> u64 {
    drawn(s) >> 11u64
}

/// Two places exchanged.
pub open spec fn exchanged<T>(v: Seq<T>, i: int, j: int) -> Seq<T> {
    v.update(i, v[j]).update(j, v[i])
}

/// What shuffling the places up to `i` makes of a list, and the state after it.
pub open spec fn shuffled<T>(s: u64, v: Seq<T>, i: int) -> (u64, Seq<T>)
    decreases i,
{
    if i < 1 {
        (s, v)
    } else {
        shuffled(stepped(s), exchanged(v, i, drawn_below(s, (i + 1) as nat) as int), i - 1)
    }
}

/// The generator: SplitMix64.
#[derive(Clone, Copy, PartialEq, Eq, Structural, Debug)]
pub struct Rng(pub u64);

/// Exchanges two places.
fn exchange<T>(v: &mut Vec<T>, i: usize, j: usize)
    requires
        i < old(v)@.len(),
        j < old(v)@.len(),
    ensures
        final(v)@ == exchanged(old(v)@, i as int, j as int),
{
    let ghost was = v@;
    if i == j {
        proof {
            assert(exchanged(was, i as int, j as int) =~= was);
        }
        return;
    }
    // The last place stands in for the one that is taken out.
    let mut held = v.swap_remove(i);
    if j < v.len() {
        std::mem::swap(&mut v[j], &mut held);
        if i < v.len() {
            std::mem::swap(&mut v[i], &mut held);
        }
    }
    v.push(held);
    proof {
        assert(v@ =~= exchanged(was, i as int, j as int));
    }
}

impl Rng {
    /// A number.
    pub fn next_u64(&mut self) -> (r: u64)
        ensures
            r == drawn(old(self).0),
            final(self).0 == stepped(old(self).0),
    {
        self.0 = self.0.wrapping_add(0x9E37_79B9_7F4A_7C15);
        let s: u64 = self.0;
        let a: u64 = (s ^ (s >> 30)).wrapping_mul(0xBF58_476D_1CE4_E5B9);
        let b: u64 = (a ^ (a >> 27)).wrapping_mul(0x94D0_49BB_1331_11EB);
        proof {
            reveal(mixed);
        }
        b ^ (b >> 31)
    }

    /// A number below `n` (zero when there is none).
    pub fn below(&mut self, n: usize) -> (r: usize)
        ensures
            r == drawn_below(old(self).0, n as nat),
            n >= 1 ==> r < n,
            final(self).0 == stepped(old(self).0),
    {
        let m: u64 = if n >= 1 {
            n as u64
        } else {
            1
        };
        let x: u64 = self.next_u64();
        proof {
            assert((x as int) % (m as int) < m as int) by (nonlinear_arith)
                requires
                    m >= 1,
            ;
        }
        (x % m) as usize
    }

    /// A number from zero to one, as its numerator over two to the 53rd.
    pub fn unit(&mut self) -> (r: u64)
        ensures
            r == drawn_unit(old(self).0),
            r < 0x20_0000_0000_0000,
            final(self).0 == stepped(old(self).0),
    {
        let x: u64 = self.next_u64();
        assert(x >> 11u64 < 0x20_0000_0000_0000) by (bit_vector);
        x >> 11
    }

    /// Puts a list into a random order.
    pub fn shuffle<T>(&mut self, v: &mut Vec<T>)
        ensures
            (final(self).0, final(v)@) == shuffled(old(self).0, old(v)@, old(v)@.len() - 1),
            final(v)@.to_multiset() == old(v)@.to_multiset(),
    {
        let ghost start = v@;
        let ghost seed = self.0;
        let n: usize = v.len();
        let mut i: usize = if n > 0 {
            n - 1
        } else {
            0
        };
        while i >= 1
            invariant
                v@.len() == start.len(),
                n == start.len(),
                i < start.len() || (i == 0 && start.len() == 0),
                shuffled(self.0, v@, i as int) == shuffled(seed, start, start.len() - 1),
                v@.to_multiset() == start.to_multiset(),
            decreases i,
        {
            let ghost at = self.0;
            let ghost now = v@;
            let j: usize = self.below(i + 1);
            exchange(v, i, j);
            proof {
                lemma_exchange(now, i as int, j as int);
                assert(v@ =~= exchanged(now, i as int, j as int));
                assert(shuffled(at, now, i as int) == shuffled(self.0, v@, i - 1));
            }
            i -= 1;
        }
    }
}

/// Exchanging two places keeps what a list holds.
proof fn lemma_exchange<T>(v: Seq<T>, i: int, j: int)
    requires
        0 <= i < v.len(),
        0 <= j < v.len(),
    ensures
        exchanged(v, i, j).to_multiset() == v.to_multiset(),
{
    broadcast use vstd::seq_lib::to_multiset_update;

    let u = v.update(i, v[j]);
    let m = v.to_multiset();
    v.to_multiset_ensures();
    assert(v.to_multiset().count(v[i]) > 0);
    assert(v.to_multiset().count(v[j]) > 0);
    if i == j {
        assert(exchanged(v, i, j) =~= v);
    } else {
        assert(u.to_multiset() =~= m.insert(v[j]).remove(v[i]));
        assert(u[j] == v[j]);
        assert(exchanged(v, i, j).to_multiset() =~= u.to_multiset().insert(v[i]).remove(v[j]));
        u.to_multiset_ensures();
        assert(exchanged(v, i, j).to_multiset() =~= m);
    }
}

/// Shuffling keeps what a list holds: nothing is lost and nothing is added.
pub proof fn lemma_shuffling_keeps_all<T>(s: u64, v: Seq<T>, i: int)
    requires
        i < v.len(),
    ensures
        shuffled(s, v, i).1.to_multiset() == v.to_multiset(),
        shuffled(s, v, i).1.len() == v.len(),
    decreases i,
{
    if i >= 1 {
        let j = drawn_below(s, (i + 1) as nat) as int;
        assert(0 <= (drawn(s) as int) % (i + 1) && (drawn(s) as int) % (i + 1) < i + 1) by (nonlinear_arith)
            requires
                i >= 1,
        ;
        lemma_exchange(v, i, j);
        lemma_shuffling_keeps_all(stepped(s), exchanged(v, i, j), i - 1);
    }
}

/// What is drawn below a number is below it, and a drawn fraction is below one.
pub proof fn lemma_draws_stay_below(s: u64, n: nat)
    ensures
        n >= 1 ==> drawn_below(s, n) < n,
        n <= 1 ==> drawn_below(s, n) == 0,
        drawn_unit(s) < 0x20_0000_0000_0000,
{
    let x = drawn(s);
    assert(x >> 11u64 < 0x20_0000_0000_0000) by (bit_vector);
}

/// Exchanging two places twice changes nothing, and once puts each where the other was.
pub proof fn lemma_exchanging<T>(v: Seq<T>, i: int, j: int)
    requires
        0 <= i < v.len(),
        0 <= j < v.len(),
    ensures
        exchanged(v, i, j)[i] == v[j],
        exchanged(v, i, j)[j] == v[i],
        exchanged(exchanged(v, i, j), i, j) == v,
{
    assert(exchanged(exchanged(v, i, j), i, j) =~= v);
}

/// Shuffling up to a place leaves what is behind it.
pub proof fn lemma_shuffling_leaves_the_rest<T>(s: u64, v: Seq<T>, i: int, k: int)
    requires
        i < k < v.len(),
        0 <= k,
    ensures
        shuffled(s, v, i).1.len() == v.len(),
        shuffled(s, v, i).1[k] == v[k],
    decreases i,
{
    if i >= 1 {
        let j = drawn_below(s, (i + 1) as nat) as int;
        lemma_draws_stay_below(s, (i + 1) as nat);
        lemma_shuffling_leaves_the_rest(stepped(s), exchanged(v, i, j), i - 1, k);
    }
}

} // verus!
