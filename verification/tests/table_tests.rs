use unit_stats::model::{GameDoc, PlayerDoc, UnitEntry, UnitRecord};
use unit_stats::table::render_table;

#[test]
fn test_header_only() {
    let out = render_table(&vec![], ',');
    assert_eq!(out, "unit_id,option_ids,killed_count,player_rating\n");
}

#[test]
fn test_two_player_scenario_rows() {
    // a rated player with two units and an unrated player with one:
    // exactly the rated player's two rows appear
    let doc = GameDoc {
        players: vec![
            PlayerDoc {
                new_rating: Some(String::from("1500")),
                units: vec![
                    UnitEntry { id: 42, option_ids: Some(vec![1, 2, 3]), killed_count: Some(5) },
                    UnitEntry { id: 99, option_ids: None, killed_count: None },
                ],
            },
            PlayerDoc {
                new_rating: None,
                units: vec![UnitEntry { id: 77, option_ids: None, killed_count: Some(10) }],
            },
        ],
    };
    let records = doc.extract_records(';');
    let out = render_table(&records, ',');
    let lines: Vec<&str> = out.lines().collect();
    assert_eq!(lines[0], "unit_id,option_ids,killed_count,player_rating");
    let mut rows: Vec<&str> = lines[1..].to_vec();
    rows.sort();
    assert_eq!(rows, vec!["42,1;2;3,5,1500", "99,,0,1500"]);
    assert!(!out.contains("77"));
}

#[test]
fn test_line_count_matches_record_count() {
    let one = |id: i32| UnitRecord {
        unit_id: id,
        option_ids: String::from("4;5"),
        killed_count: 1,
        player_rating: String::from("803.25"),
    };
    let records = vec![one(1), one(2), one(3)];
    let out = render_table(&records, ',');
    assert_eq!(out.chars().filter(|c| *c == '\n').count(), records.len() + 1);
    assert_eq!(out.lines().count() - 1, records.len());
}

#[test]
fn test_row_rendering() {
    let records = vec![UnitRecord {
        unit_id: -3,
        option_ids: String::from("7"),
        killed_count: -2,
        player_rating: String::from("0.5"),
    }];
    let out = render_table(&records, ',');
    assert_eq!(out, "unit_id,option_ids,killed_count,player_rating\n-3,7,-2,0.5\n");
}
