use cj_trainer::order::slot_for;
use cj_trainer::{CJDatabase, Chinese};

fn loaded(text: &str) -> CJDatabase {
    let mut db = CJDatabase { v: Vec::new() };
    assert!(db.load(text).is_ok());
    db
}

fn rec(code: &str, character: &str, rating: i16) -> Chinese {
    Chinese { char: character.to_string(), code: code.to_string(), rating }
}

#[test]
fn test_db_sort() {
    let db1 = loaded("a,日,0\naombc,題,-9\ncvmi,鏘,0\nmk,天,1\nmk,夫,2\nybog,離,-2\n");

    let mut db2 = loaded("ybog,離,-2\nmk,夫,2\ncvmi,鏘,0\na,日,0\nmk,天,1\naombc,題,-9\n");
    db2.sort();

    println!("db1 len={}, db2 len={}", db1.v.len(), db2.v.len());
    assert!(db1.v.len() == db2.v.len());

    let matched = db1
        .v
        .iter()
        .zip(&db2.v)
        .filter(|(a, b)| a.code == b.code && a.char == b.char && a.rating == b.rating)
        .count();

    assert!(db1.v.len() == matched);
}

#[test]
fn test_db_dedup() {
    let data = [
        (
            "a,日,0\naombc,題,-9\ncvmi,鏘,0\n",
            "a,日,0\na,日,0\naombc,題,-9\ncvmi,鏘,0\ncvmi,鏘,0\ncvmi,鏘,0\n",
        ),
        (
            "mk,天,1\nmk,夫,2\nybog,離,-2\n",
            "mk,天,1\nmk,天,4\nmk,夫,2\nybog,離,-2\nybog,離,-2\n",
        ),
    ];

    for (a, b) in data {
        let db1 = loaded(a);

        let mut db2 = loaded(b);
        db2.dedup();
        println!("{}", db2.v.len());

        let matched = db1
            .v
            .iter()
            .zip(&db2.v)
            .filter(|(a, b)| a.code == b.code && a.char == b.char && a.rating == b.rating)
            .count();

        assert!(db1.v.len() == matched);
        assert!(db1.v.len() == db2.v.len());
    }
}

#[test]
// test dedup keep lowest score
fn test_db_dedup_2() {
    let mut db = loaded("aombc,題,0\naombc,題,-9\naombc,題,-3\ncvmi,鏘,0\ncvmi,鏘,-5\nybog,離,-2\n");
    db.dedup();

    let x = db.v.iter().find(|x| x.code == "aombc");
    match x {
        Some(ch) => assert_eq!(ch.rating, -9),
        None => panic!("unable to find target character"),
    }

    let x = db.v.iter().find(|x| x.code == "cvmi");
    match x {
        Some(ch) => assert_eq!(ch.rating, -5),
        None => panic!("unable to find target character"),
    }

    let x = db.v.iter().find(|x| x.code == "ybog");
    match x {
        Some(ch) => assert_eq!(ch.rating, -2),
        None => panic!("unable to find target character"),
    }

    println!("{}", db.v.len());
    assert_eq!(db.v.len(), 3);
}

#[test]
fn dedup_keeps_the_lowest_of_three() {
    let mut db = CJDatabase { v: vec![rec("aombc", "題", 0), rec("aombc", "題", -9), rec("aombc", "題", -3)] };
    db.dedup();
    assert_eq!(db.v, vec![rec("aombc", "題", -9)]);
}

#[test]
fn dedup_tells_characters_with_one_code_apart() {
    let mut db = CJDatabase { v: vec![rec("mk", "天", 1), rec("mk", "夫", 0), rec("mk", "夫", 3)] };
    db.dedup();
    assert_eq!(db.v, vec![rec("mk", "天", 1), rec("mk", "夫", 0)]);
}

#[test]
fn dedup_without_duplicates_changes_nothing() {
    let records = vec![rec("a", "日", 0), rec("b", "月", 1), rec("c", "金", -1)];
    let mut db = CJDatabase { v: records.clone() };
    db.dedup();
    assert_eq!(db.v, records);
}

#[test]
fn dedup_of_an_empty_store() {
    let mut db = CJDatabase { v: Vec::new() };
    db.dedup();
    assert!(db.v.is_empty());
}

#[test]
fn dedup_keeps_a_first_record_of_any_key() {
    let mut db = CJDatabase { v: vec![rec("-1", "", 5), rec("-1", "", 7)] };
    db.dedup();
    assert_eq!(db.v, vec![rec("-1", "", 5)]);
}

#[test]
fn dedup_looks_at_neighbours_only() {
    let mut db = CJDatabase { v: vec![rec("a", "日", 0), rec("b", "月", 1), rec("a", "日", -4)] };
    db.dedup();
    assert_eq!(db.v, vec![rec("a", "日", 0), rec("b", "月", 1), rec("a", "日", -4)]);
}

#[test]
fn sort_is_stable() {
    let mut db = CJDatabase {
        v: vec![rec("b", "月", 1), rec("a", "日", 3), rec("b", "月", 2), rec("a", "日", 1), rec("a", "日", 2)],
    };
    db.sort();
    assert_eq!(
        db.v,
        vec![rec("a", "日", 3), rec("a", "日", 1), rec("a", "日", 2), rec("b", "月", 1), rec("b", "月", 2)]
    );
}

#[test]
fn sort_twice_is_sort_once() {
    let mut db = loaded("ybog,離,-2\nmk,夫,2\ncvmi,鏘,0\na,日,0\nmk,天,1\naombc,題,-9\nmk,夫,-2\n");
    db.sort();
    let once = db.v.clone();
    db.sort();
    assert_eq!(db.v, once);
}

#[test]
fn sort_compares_code_points() {
    let mut db = CJDatabase { v: vec![rec("b", "x", 0), rec("a", "x", 0), rec("B", "x", 0), rec("ab", "x", 0), rec("", "x", 0)] };
    db.sort();
    let codes: Vec<&str> = db.v.iter().map(|r| r.code.as_str()).collect();
    assert_eq!(codes, vec!["", "B", "a", "ab", "b"]);
}

#[test]
fn sort_agrees_with_the_order_of_pairs() {
    let mut db = loaded("ybog,離,-2\nmk,夫,2\ncvmi,鏘,0\na,日,0\nmk,天,1\naombc,題,-9\nmk,夫,-2\na b,日,0\n");
    let mut expected = db.v.clone();
    expected.sort_by(|x, y| (x.code.as_str(), x.char.as_str()).cmp(&(y.code.as_str(), y.char.as_str())));
    db.sort();
    assert_eq!(db.v, expected);
}

#[test]
fn sort_then_dedup_leaves_one_record_for_each_key() {
    let mut db = loaded("mk,天,1\na,日,0\nmk,天,-3\na,日,2\nmk,夫,2\nmk,天,0\n");
    db.sort();
    db.dedup();
    assert_eq!(db.v, vec![rec("a", "日", 0), rec("mk", "天", -3), rec("mk", "夫", 2)]);
}

#[test]
fn slot_for_goes_behind_records_of_the_same_key() {
    let sorted = vec![rec("a", "日", 0), rec("b", "月", 1), rec("b", "月", 2), rec("d", "木", 0)];
    assert_eq!(slot_for(&sorted, &rec("", "", 0)), 0);
    assert_eq!(slot_for(&sorted, &rec("a", "日", 9)), 1);
    assert_eq!(slot_for(&sorted, &rec("b", "月", -5)), 3);
    assert_eq!(slot_for(&sorted, &rec("c", "金", 0)), 3);
    assert_eq!(slot_for(&sorted, &rec("d", "木", 0)), 4);
    assert_eq!(slot_for(&sorted, &rec("e", "水", 0)), 4);
    assert_eq!(slot_for(&Vec::new(), &rec("e", "水", 0)), 0);
}

#[test]
fn sort_of_many_records() {
    let mut v = Vec::new();
    let mut seed: u32 = 12345;
    for i in 0..500 {
        seed = seed.wrapping_mul(1103515245).wrapping_add(12345);
        let code = format!("c{}", (seed >> 16) % 50);
        v.push(rec(&code, "字", i));
    }
    let mut expected = v.clone();
    expected.sort_by(|x, y| (x.code.as_str(), x.char.as_str()).cmp(&(y.code.as_str(), y.char.as_str())));
    let mut db = CJDatabase { v };
    db.sort();
    assert_eq!(db.v, expected);
}
