use furrow::date::date_of_secs;
use furrow::github::{build_date, date_of_reading, json_str, json_u64, repo_data};

#[test]
fn numbers_after_keys() {
    assert_eq!(json_u64("{\"stargazers_count\": 42,\"x\":1}", "stargazers_count"), Some(42));
    assert_eq!(json_u64("{\"stargazers_count\":42", "stargazers_count"), Some(42));
    assert_eq!(json_u64("\"n\":7", "n"), Some(7));
    assert_eq!(json_u64("{\"a\":x}", "a"), None);
    assert_eq!(json_u64("{\"b\":1}", "a"), None);
    assert_eq!(json_u64("\"n\":18446744073709551615,", "n"), Some(u64::MAX));
    assert_eq!(json_u64("\"n\":18446744073709551616,", "n"), None);
}

#[test]
fn strings_after_keys() {
    assert_eq!(
        json_str("{\"description\":\"a\\nb \\\"q\\\" \\u00e9\\ud800x\"}", "description"),
        Some("a b \"q\" éx".to_string())
    );
    assert_eq!(json_str("{\"description\":\"open", "description"), None);
    assert_eq!(json_str("{\"description\":null}", "description"), None);
    assert_eq!(json_str("\"d\":\"\\u+041\"", "d"), Some("A".to_string()));
    assert_eq!(json_str("\"d\":\"\\uzz\"", "d"), None);
}

#[test]
fn strings_after_a_space() {
    assert_eq!(
        json_str("{ \"description\": \"A tiling compositor\", \"stargazers_count\": 12 }", "description"),
        Some("A tiling compositor".to_string())
    );
    let live = repo_data(
        Some("{ \"description\": \"A tiling compositor\", \"stargazers_count\": 12 }"),
        0,
        "fb",
    );
    assert!(live.live);
    assert_eq!(live.stars, 12);
    assert_eq!(live.description, "A tiling compositor");
    assert_eq!(json_str("{\"description\": 5}", "description"), None);
}

#[test]
fn string_key_after_a_null_one() {
    assert_eq!(
        json_str("{\"description\":null,\"x\":{\"description\":\"y\"}}", "description"),
        Some("y".to_string())
    );
    assert_eq!(json_str("{\"d\":1,\"d\": \"two\"}", "d"), Some("two".to_string()));
}

#[test]
fn json_round_trip_example() {
    assert_eq!(json_str("{\"k\":\"plain text\"}", "k"), Some("plain text".to_string()));
}

#[test]
fn reading_before_the_epoch() {
    assert_eq!(date_of_reading(None), "1970-01-01");
    assert_eq!(date_of_reading(Some(86_399)), "1970-01-01");
    assert_eq!(date_of_reading(Some(86_400)), "1970-01-02");
}

#[test]
fn dates_in_order_and_ten_long() {
    let mut prev = date_of_secs(0);
    for s in [86_400u64, 5_000_000, 951_782_400, 1_700_000_000, 253_402_300_799] {
        let d = date_of_secs(s);
        assert_eq!(d.len(), 10);
        assert!(prev <= d);
        prev = d;
    }
}

#[test]
fn repo_data_live_and_fallback() {
    let live = repo_data(Some("{\"stargazers_count\":7,\"description\":\"hi\"}"), 1, "fb");
    assert!(live.live);
    assert_eq!(live.stars, 7);
    assert_eq!(live.description, "hi");
    let no_desc = repo_data(Some("{\"stargazers_count\":7}"), 1, "fb");
    assert!(no_desc.live);
    assert_eq!(no_desc.description, "fb");
    let broken = repo_data(Some("{}"), 1, "fb");
    assert!(!broken.live);
    assert_eq!(broken.stars, 1);
    assert_eq!(broken.description, "fb");
    let offline = repo_data(None, 3, "x");
    assert!(!offline.live);
    assert_eq!(offline.stars, 3);
}

#[test]
fn dates() {
    assert_eq!(date_of_secs(0), "1970-01-01");
    assert_eq!(date_of_secs(31_536_000), "1971-01-01");
    assert_eq!(date_of_secs(951_782_400), "2000-02-29");
    assert_eq!(date_of_secs(1_700_000_000), "2023-11-14");
    assert_eq!(date_of_secs(253_402_300_799), "9999-12-31");
    assert_eq!(date_of_secs(253_402_300_800), "10000-01-01");
}

#[test]
fn today_has_the_shape_of_a_date() {
    let d = build_date();
    assert_eq!(d.len(), 10);
    assert_eq!(&d[4..5], "-");
    assert_eq!(&d[7..8], "-");
}
