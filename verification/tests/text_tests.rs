use unit_stats::text::{i32_to_string, parse_i32, render_option_ids, split_ids, u64_to_string};

#[test]
fn test_i32_rendering() {
    assert_eq!(i32_to_string(0), "0");
    assert_eq!(i32_to_string(7), "7");
    assert_eq!(i32_to_string(42), "42");
    assert_eq!(i32_to_string(-1), "-1");
    assert_eq!(i32_to_string(1500), "1500");
    assert_eq!(i32_to_string(i32::MAX), "2147483647");
    assert_eq!(i32_to_string(i32::MIN), "-2147483648");
}

#[test]
fn test_u64_rendering() {
    assert_eq!(u64_to_string(0), "0");
    assert_eq!(u64_to_string(10), "10");
    assert_eq!(u64_to_string(u64::MAX), "18446744073709551615");
}

#[test]
fn test_render_option_ids() {
    assert_eq!(render_option_ids(&vec![], ';'), "");
    assert_eq!(render_option_ids(&vec![9], ';'), "9");
    assert_eq!(render_option_ids(&vec![1, 2, 3], ';'), "1;2;3");
    assert_eq!(render_option_ids(&vec![-5, 10, 0], ';'), "-5;10;0");
}

#[test]
fn test_split_ids() {
    let pieces = split_ids("1;2;3", ';');
    assert_eq!(pieces, vec!["1", "2", "3"]);
    assert_eq!(split_ids("", ';').len(), 0);
    assert_eq!(split_ids("12", ';'), vec!["12"]);
    assert_eq!(split_ids(";", ';'), vec!["", ""]);
    assert_eq!(split_ids("a;;b", ';'), vec!["a", "", "b"]);
}

#[test]
fn test_parse_i32() {
    assert_eq!(parse_i32("0"), Some(0));
    assert_eq!(parse_i32("42"), Some(42));
    assert_eq!(parse_i32("-17"), Some(-17));
    assert_eq!(parse_i32("2147483647"), Some(i32::MAX));
    assert_eq!(parse_i32("-2147483648"), Some(i32::MIN));
    assert_eq!(parse_i32(""), None);
    assert_eq!(parse_i32("-"), None);
    assert_eq!(parse_i32("12a"), None);
    assert_eq!(parse_i32("2147483648"), None);
    assert_eq!(parse_i32("99999999999999999999"), None);
}

#[test]
fn test_option_ids_round_trip() {
    // joining then re-splitting yields the original integers back
    let cases: Vec<Vec<i32>> = vec![
        vec![],
        vec![0],
        vec![1, 2, 3],
        vec![-5, 0, 2147483647, -2147483648],
        vec![10, 10, 10],
    ];
    for ids in cases {
        let joined = render_option_ids(&ids, ';');
        let pieces = split_ids(&joined, ';');
        let back: Vec<i32> = pieces.iter().map(|p| parse_i32(p).unwrap()).collect();
        assert_eq!(back, ids);
    }
}
