use candle_rlcd::json::{compact, parse};
use candle_rlcd::sequence::Specials;
use candle_rlcd::tokenizer::{tokenizer_config, train_tokenizer};

#[test]
fn trained_tokenizers_read_any_text_and_know_their_specials() {
    let texts = vec!["low lower lowest".to_string(), "low lower lowest".to_string()];
    let tok = train_tokenizer(texts, 300).unwrap();
    let cfg = tokenizer_config();
    let sp = Specials::resolve(&tok, Some(&cfg)).unwrap();
    let mut ids = vec![sp.cls, sp.sep, sp.mask, sp.pad];
    ids.sort();
    ids.dedup();
    assert_eq!(ids.len(), 4);
    let e = tok.encode("low\u{1F600}\n é", false).unwrap();
    assert_eq!(tok.decode(e.get_ids(), false).unwrap(), "low\u{1F600}\n é");
    // No space is put in front, and every byte and every special token has an id.
    assert_eq!(Some(e.get_ids()[0]), tok.token_to_id("low"));
    for c in ["!", "~", "\u{a1}", "\u{ac}", "\u{ae}", "\u{ff}", "\u{100}", "\u{143}", "[UNK]"] {
        assert!(tok.token_to_id(c).is_some(), "{c}");
    }
    for c in ["\u{7f}", "\u{ad}", "\u{144}"] {
        assert!(tok.token_to_id(c).is_none(), "{c}");
    }
    // A text that was seen twice takes fewer tokens than it has bytes.
    assert!(tok.encode("lower", false).unwrap().get_ids().len() < 5);
}

#[test]
fn the_tokenizer_file_names_the_special_tokens() {
    let want = parse(
        br#"{"cls_token": "[CLS]", "sep_token": "[SEP]", "pad_token": "[PAD]",
             "mask_token": "[MASK]", "unk_token": "[UNK]"}"#,
    )
    .unwrap();
    assert_eq!(compact(&tokenizer_config()), compact(&want));
}
