use candle_rlcd::random::Rng;
use candle_rlcd::text::{
    comes_before, in_base, join, lines, pad_zeros, parse_nat, replace, space, split, split_once, split_words,
    strip_prefix, trim,
};

#[test]
fn white_space_is_what_unicode_says() {
    for n in 0..0x3100u32 {
        if let Some(c) = char::from_u32(n) {
            assert_eq!(space(c), c.is_whitespace(), "{n:x}");
        }
    }
    assert_eq!(trim("\u{3000} a b\t\n"), "a b");
    assert_eq!(split_words(" a \n b\u{2003}c "), vec!["a", "b", "c"]);
}

#[test]
fn texts_are_taken_apart_and_put_together() {
    assert_eq!(split("a/b//c", '/'), vec!["a", "b", "", "c"]);
    assert_eq!(
        split_once("a=b=c", '='),
        Some(("a".to_string(), "b=c".to_string()))
    );
    assert_eq!(split_once("abc", '='), None);
    assert_eq!(join(&vec!["a".to_string(), "b".to_string()], ", "), "a, b");
    assert_eq!(strip_prefix("model.x", "model."), Some("x".to_string()));
    assert_eq!(strip_prefix("model", "model."), None);
    assert_eq!(replace("aXXbX", "X", "--"), "a----b--");
    assert!(comes_before("a", "ab"));
    assert!(!comes_before("b", "ab"));
}

#[test]
fn numbers_are_written_and_read() {
    assert_eq!(in_base(255, 16), "ff");
    assert_eq!(in_base(0, 10), "0");
    assert_eq!(in_base(u64::MAX, 10), u64::MAX.to_string());
    assert_eq!(pad_zeros("7", 3), "007");
    assert_eq!(pad_zeros("1234", 3), "1234");
    for t in ["0", "+7", "18446744073709551615", "18446744073709551616", "", "+", "-1", "1 ", "0x1", "007"] {
        assert_eq!(parse_nat(t, u64::MAX), t.parse::<u64>().ok(), "{t:?}");
        assert_eq!(parse_nat(t, 255).map(|n| n as u8), t.parse::<u8>().ok(), "{t:?}");
    }
}

#[test]
fn the_generator_is_split_mix() {
    let mut r = Rng(0);
    assert_eq!(r.next_u64(), 0xE220_A839_7B1D_CDAF);
    assert_eq!(r.next_u64(), 0x6E78_9E6A_A1B9_65F4);
    let mut r = Rng(42);
    let mut v: Vec<usize> = (0..50).collect();
    r.shuffle(&mut v);
    assert_ne!(v, (0..50).collect::<Vec<usize>>());
    v.sort();
    assert_eq!(v, (0..50).collect::<Vec<usize>>());
    for _ in 0..1000 {
        assert!(r.below(7) < 7);
        assert!(r.unit() < 1 << 53);
    }
    assert_eq!(r.below(0), 0);
}

#[test]
fn anything_can_be_shuffled() {
    let mut numbers: Vec<usize> = (0..20).collect();
    let mut words: Vec<String> = numbers.iter().map(|n| n.to_string()).collect();
    Rng(5).shuffle(&mut numbers);
    Rng(5).shuffle(&mut words);
    assert_eq!(words, numbers.iter().map(|n| n.to_string()).collect::<Vec<String>>());
    let mut none: Vec<String> = vec![];
    Rng(5).shuffle(&mut none);
    assert!(none.is_empty());
}

#[test]
fn lines_end_where_they_should() {
    for t in ["", "a", "a\n", "a\r\nb", "\n\n", "a\r", "a\r\r\n\rb\n\r\n", "\r\n"] {
        assert_eq!(lines(t), t.lines().collect::<Vec<&str>>(), "{t:?}");
    }
}
