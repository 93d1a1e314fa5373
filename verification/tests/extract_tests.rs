use unit_stats::extract::{file_records, merge_batches};
use unit_stats::model::{GameDoc, PlayerDoc, UnitEntry, UnitRecord};

fn sample_doc() -> GameDoc {
    GameDoc {
        players: vec![
            PlayerDoc {
                new_rating: Some(String::from("1500")),
                units: vec![
                    UnitEntry { id: 42, option_ids: Some(vec![1, 2, 3]), killed_count: Some(5) },
                    UnitEntry { id: 99, option_ids: None, killed_count: None },
                ],
            },
            PlayerDoc {
                new_rating: None,
                units: vec![UnitEntry { id: 77, option_ids: None, killed_count: Some(10) }],
            },
        ],
    }
}

#[test]
fn test_sample_processing() {
    let doc = sample_doc();
    let records = doc.extract_records(';');

    assert_eq!(records.len(), 2); // only the first player carries a rating
    assert_eq!(records[0].unit_id, 42);
    assert_eq!(records[0].option_ids, "1;2;3");
    assert_eq!(records[0].killed_count, 5);
    assert_eq!(records[0].player_rating, "1500");

    assert_eq!(records[1].unit_id, 99);
    assert_eq!(records[1].option_ids, "");
    assert_eq!(records[1].killed_count, 0); // absent count defaults to 0
    assert_eq!(records[1].player_rating, "1500");
}

#[test]
fn test_record_iff_rated() {
    // one record per unit of a rated player, none for unrated players
    let doc = GameDoc {
        players: vec![
            PlayerDoc {
                new_rating: Some(String::from("900.5")),
                units: vec![
                    UnitEntry { id: 1, option_ids: None, killed_count: None },
                    UnitEntry { id: 2, option_ids: None, killed_count: None },
                    UnitEntry { id: 3, option_ids: None, killed_count: None },
                ],
            },
            PlayerDoc {
                new_rating: None,
                units: vec![
                    UnitEntry { id: 4, option_ids: None, killed_count: None },
                    UnitEntry { id: 5, option_ids: None, killed_count: None },
                ],
            },
            PlayerDoc {
                new_rating: Some(String::from("1200")),
                units: vec![UnitEntry { id: 6, option_ids: None, killed_count: None }],
            },
        ],
    };
    let records = doc.extract_records(';');
    assert_eq!(records.len(), 3 + 1);
    let ids: Vec<i32> = records.iter().map(|r| r.unit_id).collect();
    assert_eq!(ids, vec![1, 2, 3, 6]);
}

#[test]
fn test_rated_player_without_units() {
    let doc = GameDoc {
        players: vec![PlayerDoc { new_rating: Some(String::from("1000")), units: vec![] }],
    };
    assert_eq!(doc.extract_records(';').len(), 0);
}

#[test]
fn test_killed_count_defaults_and_pass_through() {
    let doc = GameDoc {
        players: vec![PlayerDoc {
            new_rating: Some(String::from("1000")),
            units: vec![
                UnitEntry { id: 1, option_ids: None, killed_count: None },
                UnitEntry { id: 2, option_ids: None, killed_count: Some(0) },
                UnitEntry { id: 3, option_ids: None, killed_count: Some(-4) },
                UnitEntry { id: 4, option_ids: None, killed_count: Some(17) },
            ],
        }],
    };
    let records = doc.extract_records(';');
    let killed: Vec<i32> = records.iter().map(|r| r.killed_count).collect();
    // absent defaults to 0; present values pass through, negatives unclamped
    assert_eq!(killed, vec![0, 0, -4, 17]);
}

#[test]
fn test_empty_document_yields_nothing() {
    let doc = GameDoc { players: vec![] };
    assert_eq!(doc.extract_records(';').len(), 0);
}

#[test]
fn test_skipped_file_yields_nothing() {
    let records = file_records(None, ';');
    assert_eq!(records.len(), 0);
}

#[test]
fn test_merge_keeps_every_record() {
    let one = |id: i32| UnitRecord {
        unit_id: id,
        option_ids: String::new(),
        killed_count: 0,
        player_rating: String::from("1"),
    };
    let batches = vec![vec![one(1), one(2)], vec![], vec![one(3)], vec![one(4), one(5)]];
    let all = merge_batches(batches);
    assert_eq!(all.len(), 5);
    let ids: Vec<i32> = all.iter().map(|r| r.unit_id).collect();
    assert_eq!(ids, vec![1, 2, 3, 4, 5]);
}

#[test]
fn test_merge_of_no_batches() {
    let all = merge_batches(Vec::new());
    assert_eq!(all.len(), 0);
}

#[test]
fn test_valid_beside_skipped_file() {
    // one decoded file beside one skipped file: exactly the decoded
    // file's records survive
    let doc = sample_doc();
    let good = file_records(Some(&doc), ';');
    let bad = file_records(None, ';');
    let all = merge_batches(vec![good, bad]);
    assert_eq!(all.len(), 2);
    assert_eq!(all[0].unit_id, 42);
    assert_eq!(all[1].unit_id, 99);
}
