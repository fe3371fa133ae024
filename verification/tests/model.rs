use candle_rlcd::model::{
    is_near, prefix_tables, sees, sees_padded, tables, Layout, PrefixError,
};
use candle_rlcd::sequence::{Encoded, QType};

fn row(ids: &[u32], markers: &[usize], qtype: QType, prefix_len: usize) -> Encoded {
    Encoded {
        ids: ids.to_vec(),
        markers: markers.to_vec(),
        qtype,
        prefix_len,
    }
}

#[test]
fn batches_are_padded_to_the_longest_row() {
    let rows = [
        row(&[1, 5, 6, 2], &[1, 2], QType::Score, 0),
        row(&[1, 7], &[1], QType::Noul, 1),
    ];
    let t = tables(&rows, 9, Layout::Prefix);
    assert_eq!((t.width, t.options), (4, 2));
    assert_eq!(t.ids, vec![1, 5, 6, 2, 1, 7, 9, 9]);
    assert_eq!(t.attention, vec![1, 1, 1, 1, 1, 1, 0, 0]);
    assert_eq!(t.markers, vec![1, 2, 1, 0]);
    assert_eq!(t.marked, vec![1, 1, 1, 0]);
    assert_eq!(t.qtypes, vec![1, 2]);
    assert_eq!(t.pooled, vec![0, 1]);
    assert_eq!(t.question, vec![1, 1, 1, 1, 0, 1, 1, 1]);
    assert_eq!(tables(&rows, 9, Layout::Laya).pooled, vec![0, 0]);
}

#[test]
fn states_are_encoded_once() {
    let a = [
        row(&[1, 2, 5, 6], &[3], QType::Noul, 2),
        row(&[1, 2, 7], &[2], QType::Choice, 2),
    ];
    let b = [row(&[3, 4, 4, 8], &[3], QType::Noul, 3)];
    let t = prefix_tables(Layout::Prefix, &[&a[..], &b[..]], 9).unwrap();
    assert_eq!(t.state_width, 3);
    assert_eq!(t.state_ids, vec![9, 1, 2, 3, 4, 4]);
    assert_eq!(t.pads, vec![1, 0]);
    assert_eq!((t.width, t.options), (2, 1));
    assert_eq!(t.ids, vec![5, 6, 7, 9, 8, 9]);
    assert_eq!(t.lengths, vec![2, 1, 1]);
    assert_eq!(t.owners, vec![0, 0, 1]);
    assert_eq!(t.markers, vec![1, 0, 0]);
    assert_eq!(t.qtypes, vec![2, 0, 2]);
    let e = prefix_tables(Layout::Laya, &[&a[..]], 9);
    assert_eq!(e, Err(PrefixError::NotPrefixLayout));
    assert_eq!(prefix_tables(Layout::Prefix, &[&a[..0]], 9), Err(PrefixError::NoRows));
    let mixed = [a[0].ids.clone(), b[0].ids.clone()];
    let mixed = [
        row(&mixed[0], &[3], QType::Noul, 2),
        row(&mixed[1], &[3], QType::Noul, 3),
    ];
    assert_eq!(
        prefix_tables(Layout::Prefix, &[&mixed[..]], 9),
        Err(PrefixError::NotShared)
    );
}

#[test]
fn the_state_is_blind_to_the_question() {
    // A row of six tokens whose first four are the state, in eight places.
    for i in 0..8 {
        for j in 0..8 {
            assert_eq!(sees(6, 4, i, j), j < 6 && (i >= 4 || j < 4));
        }
    }
    // Padded on the left to five places, a token sees what it sees in a row of its own.
    let pad = 1;
    for i in 0..6 {
        for j in 0..6 {
            assert_eq!(sees_padded(pad, 5, 2, pad + i, pad + j), sees(6, 4, i, j));
        }
    }
    assert!(is_near(2, 5, 3) && is_near(2, 3, 5) && !is_near(2, 6, 3));
}

#[test]
fn a_row_does_not_depend_on_its_batch() {
    let short = row(&[1, 7, 2], &[1], QType::Noul, 0);
    let alone = tables(&[row(&[1, 7, 2], &[1], QType::Noul, 0)], 9, Layout::Laya);
    let long = row(&[1, 5, 6, 8, 2], &[1, 2], QType::Choice, 0);
    let both = tables(&[long, short], 9, Layout::Laya);
    assert_eq!(alone.ids, both.ids[5..8]);
    assert_eq!(both.ids[8..], [9, 9]);
    assert_eq!(both.attention[5..], [1, 1, 1, 0, 0]);
    assert!((0..5).all(|i| !sees(3, 0, i, 3) && !sees(3, 0, i, 4)));
}
