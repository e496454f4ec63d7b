use cj_trainer::select::{eight_tenths, take_up_to};
use cj_trainer::{CJDatabase, Chinese};

fn rec(code: &str, character: &str, rating: i16) -> Chinese {
    Chinese { char: character.to_string(), code: code.to_string(), rating }
}

fn loaded(text: &str) -> CJDatabase {
    let mut db = CJDatabase { v: Vec::new() };
    assert!(db.load(text).is_ok());
    db
}

/// Forty records: ten of each band, with codes that differ.
fn mixed() -> CJDatabase {
    let mut v = Vec::new();
    for i in 0..10 {
        v.push(rec(&format!("d{}", i), "難", -1 - i));
        v.push(rec(&format!("n{}", i), "新", 0));
        v.push(rec(&format!("e{}", i), "易", 1 + i % 3));
        v.push(rec(&format!("v{}", i), "熟", 4 + i));
    }
    CJDatabase { v }
}

fn count(batch: &[Chinese], lo: i16, hi: i16) -> usize {
    batch.iter().filter(|r| lo <= r.rating && r.rating <= hi).count()
}

fn all_from(db: &CJDatabase, batch: &[Chinese]) -> bool {
    batch.iter().all(|r| db.v.contains(r))
}

fn distinct(batch: &[Chinese]) -> bool {
    (0..batch.len()).all(|i| (0..i).all(|j| batch[i] != batch[j]))
}

#[test]
fn test_db_get_items_score() {
    let db = loaded(&mixed().save());
    let items = db.get_items_score(10);
    for (i, ch) in items.iter().enumerate() {
        println!("#{} {} {} {}", i, ch.char, ch.code, ch.rating);
    }
    assert_eq!(items.len(), 10);
}

#[test]
fn test_db_get_items_smart() {
    let mut db = CJDatabase { v: Vec::new() };

    for f in [mixed().save(), "a,日,0\nb,月,0\nc,金,0\n".to_string()] {
        println!("#> loading... {}", f.len());
        assert!(db.load(&f).is_ok());
        let items = db.get_items_smart(10);
        for (i, ch) in items.iter().enumerate() {
            println!("#{} {} {} {}", i, ch.char, ch.code, ch.rating);
        }
        assert_eq!(items.len(), 10);
    }
}

#[test]
fn score_on_three_records() {
    let db = CJDatabase { v: vec![rec("aombc", "題", -9), rec("cvmi", "鏘", 0), rec("ybog", "離", -2)] };
    for _ in 0..50 {
        let batch = db.get_items_score(3);
        assert_eq!(batch.len(), 3);
        assert!(all_from(&db, &batch));
        // one difficult record and the new one come from their bands
        assert!(count(&batch, i16::MIN, -1) >= 1);
        assert!(count(&batch, 0, 0) >= 1);
    }
}

#[test]
fn score_takes_a_third_from_each_band() {
    let db = mixed();
    for _ in 0..20 {
        let batch = db.get_items_score(9);
        assert_eq!(batch.len(), 9);
        assert!(all_from(&db, &batch));
        assert_eq!(count(&batch, i16::MIN, -1), 3);
        assert_eq!(count(&batch, 0, 0), 3);
        assert_eq!(count(&batch, 1, 3), 3);
        assert!(distinct(&batch));
    }
}

#[test]
fn score_fills_the_remainder_from_the_very_easy() {
    let db = mixed();
    for _ in 0..20 {
        let batch = db.get_items_score(11);
        assert_eq!(batch.len(), 11);
        assert_eq!(count(&batch, i16::MIN, -1), 3);
        assert_eq!(count(&batch, 0, 0), 3);
        assert_eq!(count(&batch, 1, 3), 3);
        assert_eq!(count(&batch, 4, i16::MAX), 2);
    }
}

#[test]
fn score_does_not_pass_a_shortfall_on_to_the_next_band() {
    // no difficult record: the new and the easy band still give a third each
    let mut v = Vec::new();
    for i in 0..10 {
        v.push(rec(&format!("n{}", i), "新", 0));
        v.push(rec(&format!("e{}", i), "易", 1));
        v.push(rec(&format!("v{}", i), "熟", 9));
    }
    let db = CJDatabase { v };
    for _ in 0..20 {
        let batch = db.get_items_score(9);
        assert_eq!(batch.len(), 9);
        assert_eq!(count(&batch, 0, 0), 3);
        assert_eq!(count(&batch, 1, 3), 3);
        assert_eq!(count(&batch, 4, i16::MAX), 3);
    }
}

#[test]
fn score_falls_back_on_all_records() {
    // only difficult records: one third from the band, the rest from all records
    let db = CJDatabase { v: (0..6).map(|i| rec(&format!("d{}", i), "難", -1)).collect() };
    let batch = db.get_items_score(6);
    assert_eq!(batch.len(), 6);
    assert!(all_from(&db, &batch));
}

#[test]
fn score_of_more_than_the_store_holds() {
    let db = CJDatabase { v: vec![rec("a", "日", 0), rec("b", "月", 0)] };
    // a third of seven from the new band, then up to five from all records
    let batch = db.get_items_score(7);
    assert_eq!(batch.len(), 4);
    assert!(all_from(&db, &batch));
}

#[test]
fn selection_of_nothing_and_from_nothing() {
    let db = mixed();
    assert!(db.get_items_score(0).is_empty());
    assert!(db.get_items_smart(0).is_empty());
    assert!(db.get_items_random(0).is_empty());
    assert!(db.get_items_random(-3).is_empty());
    let empty = CJDatabase { v: Vec::new() };
    assert!(empty.get_items_score(5).is_empty());
    assert!(empty.get_items_smart(5).is_empty());
    assert!(empty.get_items_random(0).is_empty());
}

#[test]
fn smart_takes_one_difficult_and_eight_new_of_ten() {
    let db = mixed();
    for _ in 0..20 {
        let batch = db.get_items_smart(10);
        assert_eq!(batch.len(), 10);
        assert!(all_from(&db, &batch));
        assert!(distinct(&batch));
        assert_eq!(count(&batch, i16::MIN, -1), 1);
        assert_eq!(count(&batch, 0, 0), 8);
        // the last place goes to a record rated one
        assert_eq!(count(&batch, 1, 1), 1);
    }
}

#[test]
fn smart_walks_the_ratings_upwards() {
    // no new record: ratings one, two and three are taken in turn
    let mut v = vec![rec("d", "難", -1)];
    for i in 0..2 {
        v.push(rec(&format!("a{}", i), "一", 1));
        v.push(rec(&format!("b{}", i), "二", 2));
        v.push(rec(&format!("c{}", i), "三", 3));
        v.push(rec(&format!("v{}", i), "熟", 8));
    }
    let db = CJDatabase { v };
    for _ in 0..20 {
        let batch = db.get_items_smart(5);
        assert_eq!(batch.len(), 5);
        assert_eq!(count(&batch, i16::MIN, -1), 0);
        assert_eq!(count(&batch, 1, 1), 2);
        assert_eq!(count(&batch, 2, 2), 2);
        assert_eq!(count(&batch, 3, 3), 1);
    }
}

#[test]
fn smart_fills_up_with_records_not_yet_drawn() {
    let db = CJDatabase { v: (0..8).map(|i| rec(&format!("v{}", i), "熟", 10 + i)).collect() };
    for _ in 0..20 {
        let batch = db.get_items_smart(8);
        assert_eq!(batch.len(), 8);
        assert!(distinct(&batch));
        assert!(all_from(&db, &batch));
    }
    assert_eq!(db.get_items_smart(20).len(), 8);
}

#[test]
fn smart_leaves_out_records_equal_to_a_drawn_one() {
    // two equal new records: one is drawn, the other counts as drawn
    let db = CJDatabase { v: vec![rec("a", "日", 0), rec("a", "日", 0)] };
    let batch = db.get_items_smart(2);
    assert_eq!(batch, vec![rec("a", "日", 0)]);
}

#[test]
fn random_draws_with_replacement() {
    let db = CJDatabase { v: vec![rec("a", "日", 0), rec("b", "月", 5)] };
    let batch = db.get_items_random(9);
    assert_eq!(batch.len(), 9);
    assert!(all_from(&db, &batch));
}

#[test]
fn batches_are_shuffled() {
    // ninety records in three bands: a batch that kept the order of the draws
    // would start with its thirty difficult records every time
    let mut v = Vec::new();
    for i in 0..30 {
        v.push(rec(&format!("d{}", i), "難", -1));
        v.push(rec(&format!("n{}", i), "新", 0));
        v.push(rec(&format!("e{}", i), "易", 1));
    }
    let db = CJDatabase { v };
    let mut mixed_up = false;
    for _ in 0..5 {
        let batch = db.get_items_score(90);
        assert_eq!(batch.len(), 90);
        assert!(distinct(&batch));
        if count(&batch[..30], i16::MIN, -1) < 30 {
            mixed_up = true;
        }
    }
    assert!(mixed_up);
}

#[test]
fn band_indices_lists_positions_in_order() {
    let db = CJDatabase { v: vec![rec("a", "日", -2), rec("b", "月", 0), rec("c", "金", 3), rec("d", "木", 4), rec("e", "水", -1)] };
    assert_eq!(db.band_indices(i16::MIN, -1), vec![0, 4]);
    assert_eq!(db.band_indices(0, 0), vec![1]);
    assert_eq!(db.band_indices(1, 3), vec![2]);
    assert_eq!(db.band_indices(4, i16::MAX), vec![3]);
    assert_eq!(db.band_indices(i16::MIN, i16::MAX), vec![0, 1, 2, 3, 4]);
    assert_eq!(db.band_indices(5, 4), Vec::<usize>::new());
}

#[test]
fn fresh_indices_leaves_out_what_equals_a_chosen_record() {
    let db = CJDatabase { v: vec![rec("a", "日", 0), rec("b", "月", 1), rec("a", "日", 0), rec("a", "日", 1)] };
    assert_eq!(db.fresh_indices(&vec![]), vec![0, 1, 2, 3]);
    assert_eq!(db.fresh_indices(&vec![0]), vec![1, 3]);
    assert_eq!(db.fresh_indices(&vec![1, 3]), vec![0, 2]);
    assert_eq!(db.fresh_indices(&vec![2, 1, 3]), Vec::<usize>::new());
}

#[test]
fn take_up_to_stops_at_the_limit() {
    let mut items = vec![7];
    take_up_to(&mut items, &vec![1, 2, 3], 3);
    assert_eq!(items, vec![7, 1, 2]);
    take_up_to(&mut items, &vec![4], 3);
    assert_eq!(items, vec![7, 1, 2]);
    take_up_to(&mut items, &vec![4, 5], 9);
    assert_eq!(items, vec![7, 1, 2, 4, 5]);
    take_up_to(&mut items, &vec![6], 2);
    assert_eq!(items, vec![7, 1, 2, 4, 5]);
}

#[test]
fn collect_copies_the_records_at_the_positions() {
    let db = CJDatabase { v: vec![rec("a", "日", 0), rec("b", "月", 1), rec("c", "金", 2)] };
    assert_eq!(db.collect(&vec![2, 0, 2]), vec![rec("c", "金", 2), rec("a", "日", 0), rec("c", "金", 2)]);
    assert_eq!(db.collect(&vec![]), Vec::<Chinese>::new());
}

#[test]
fn eight_tenths_rounds_down() {
    assert_eq!(eight_tenths(10), 8);
    assert_eq!(eight_tenths(7), 5);
    assert_eq!(eight_tenths(1), 0);
    assert_eq!(eight_tenths(0), 0);
    assert_eq!(eight_tenths(usize::MAX), (usize::MAX as u128 * 8 / 10) as usize);
}
