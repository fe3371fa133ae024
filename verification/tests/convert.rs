use candle_rlcd::convert::{
    ag_news_record, boolq_record, clean_ag, convert_ag_news, convert_boolq, parse_csv, row_message,
    synthetic, synthetic_record, BoolqError, BoolqLineError, RowError,
};
use candle_rlcd::data::{record_examples, Target};
use candle_rlcd::json::{compact, parse, Json};
use candle_rlcd::random::Rng;

fn read(text: &str) -> Json {
    parse(text.as_bytes()).unwrap()
}

fn row(cells: &[&str]) -> Vec<String> {
    cells.iter().map(|c| c.to_string()).collect()
}

#[test]
fn ag_news_text_is_cleaned() {
    assert_eq!(
        clean_ag("a second\\team won  #36;10 million, it#39;s #x"),
        "a second team won $10 million, it's #x"
    );
}

#[test]
fn csv_handles_quotes() {
    let rows =
        parse_csv("\"3\",\"A \"\"quoted\"\" title\",\"line, with comma\"\n\"1\",\"b\",\"c\"\n");
    assert_eq!(rows[0], vec!["3", "A \"quoted\" title", "line, with comma"]);
    assert_eq!(rows.len(), 2);
}

#[test]
fn csv_keeps_line_ends_inside_quotes_and_a_last_line_without_one() {
    let rows = parse_csv("a,\"b\nc\"\r\nd,e");
    assert_eq!(rows, vec![vec!["a", "b\nc"], vec!["d", "e"]]);
    assert!(parse_csv("").is_empty());
}

#[test]
fn numbers_that_name_no_character_stay_as_text() {
    assert_eq!(clean_ag("#55296; #1114112; #65;"), "#55296; #1114112; A");
    assert_eq!(clean_ag("  a\tb\n"), "a b");
}

#[test]
fn ag_news_rows_become_records() {
    let rec = ag_news_record(&row(&["3", "Oil#39;s up", "a\\b"])).unwrap();
    let ex = record_examples(&rec).unwrap();
    assert_eq!(ex.len(), 1);
    assert_eq!(ex[0].state, Json::String("Oil's up\na b".to_string()));
    assert_eq!(ex[0].target, Target::OneHot(2));
    assert_eq!(ex[0].question.option_keys().len(), 4);
    assert_eq!(ag_news_record(&row(&["3", "b"])), Err(RowError::Columns));
    assert_eq!(ag_news_record(&row(&["x", "b", "c"])), Err(RowError::Class));
    assert_eq!(ag_news_record(&row(&["5", "b", "c"])), Err(RowError::NoSuchClass(5)));
    assert_eq!(ag_news_record(&row(&["0", "b", "c"])), Err(RowError::NoSuchClass(0)));
}

#[test]
fn boolq_lines_become_records() {
    let rec = boolq_record(&read(
        r#"{"question": " is the sky blue ", "passage": "It is.", "answer": true, "title": "Sky"}"#,
    ))
    .unwrap();
    assert_eq!(
        compact(&rec),
        r#"{"state":"Sky\nIt is.","questions":{"answer":{"t":"noul","ins":"Is the sky blue?"}},"targets":{"answer":true}}"#
    );
    assert_eq!(
        boolq_record(&read(r#"{"passage": "p", "answer": true}"#)),
        Err(BoolqError::Question)
    );
    assert_eq!(
        boolq_record(&read(r#"{"question": "q", "answer": true}"#)),
        Err(BoolqError::Passage)
    );
    assert_eq!(
        boolq_record(&read(r#"{"question": "q", "passage": "p", "answer": 1}"#)),
        Err(BoolqError::Answer)
    );
}

#[test]
fn made_up_records_can_be_learned_from() {
    let mut rng = Rng(11);
    for _ in 0..50 {
        let rec = synthetic_record(&mut rng);
        let ex = record_examples(&rec).unwrap();
        assert_eq!(ex.len(), 3);
        let k = ex[0].question.option_keys().len();
        assert!((3..=6).contains(&k));
        match ex[0].target {
            Target::OneHot(i) => assert!(i < k),
            _ => panic!("a team"),
        }
    }
    let mut rng = Rng(3);
    let want = vec![synthetic_record(&mut rng), synthetic_record(&mut rng)];
    assert_eq!(synthetic(2, 3), want);
}

#[test]
fn files_are_converted_up_to_the_first_fault() {
    let (records, fault) = convert_ag_news("\"1\",\"a\",\"b\"\n\"2\",\"c\",\"d\"\n");
    assert_eq!((records.len(), fault), (2, None));
    let (records, fault) = convert_ag_news("1,a,b\n9,c,d\n1,e,f\n");
    assert_eq!(records.len(), 1);
    let (line, e) = fault.unwrap();
    assert_eq!(row_message(line, e), "line 2: class 9");
    assert_eq!(row_message(1, RowError::Columns), "line 1: expected 3 columns");
    assert_eq!(row_message(1, RowError::Class), "line 1: class");

    let good = r#"{"question": "is it", "passage": "p", "answer": false}"#;
    let (records, fault) = convert_boolq(&format!("{good}\n\n{good}\n"));
    assert_eq!((records.len(), fault), (2, None));
    let (records, fault) = convert_boolq(&format!("{good}\n{{}}\n{good}\n"));
    assert_eq!(records.len(), 1);
    assert_eq!(fault, Some(BoolqLineError::Record(BoolqError::Question)));
    assert_eq!(fault.unwrap().message(), "question");
    let (_, fault) = convert_boolq("{");
    assert!(matches!(fault, Some(BoolqLineError::BadJson(_))));
}

#[test]
fn more_records_begin_with_the_same_ones() {
    let few = synthetic(4, 17);
    let many = synthetic(9, 17);
    assert_eq!((few.len(), many.len()), (4, 9));
    assert_eq!(few[..], many[..4]);
    // Another seed makes others.
    assert!(synthetic(4, 18) != few);
}
