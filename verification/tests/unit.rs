use cache_lens::{analyze, etag_matches, if_none_match_satisfied, is_not_modified, parse_http_date};

#[test]
fn epoch_date_parses_to_zero() {
    assert_eq!(parse_http_date("Thu, 01 Jan 1970 00:00:00 GMT"), Some(0));
}

#[test]
fn no_store_wins_over_everything_else() {
    let headers = vec![(
        "Cache-Control".to_string(),
        "no-store, max-age=3600".to_string(),
    )];
    let a = analyze(&headers);
    assert!(!a.cacheable);
    assert_eq!(a.freshness_seconds, None);
}

#[test]
fn max_age_minus_age_gives_remaining_freshness() {
    let headers = vec![
        ("Cache-Control".to_string(), "max-age=100".to_string()),
        ("Age".to_string(), "40".to_string()),
    ];
    let a = analyze(&headers);
    assert!(a.cacheable);
    assert_eq!(a.freshness_seconds, Some(60));
}

#[test]
fn analyze_picks_up_etag_and_last_modified() {
    let headers = vec![
        ("ETag".to_string(), "\"abc123\"".to_string()),
        (
            "Last-Modified".to_string(),
            "Sun, 06 Nov 1994 08:49:37 GMT".to_string(),
        ),
    ];
    let a = analyze(&headers);
    assert_eq!(a.etag.as_deref(), Some("\"abc123\""));
    assert!(a.last_modified.is_some());
}

#[test]
fn etag_matches_ignores_weak_indicator() {
    assert!(etag_matches("W/\"abc\"", "\"abc\""));
    assert!(etag_matches("\"abc\"", "\"abc\""));
    assert!(!etag_matches("\"abc\"", "\"xyz\""));
}

#[test]
fn if_none_match_star_matches_any_existing_etag() {
    assert!(if_none_match_satisfied("*", "\"abc\""));
    assert!(!if_none_match_satisfied("*", ""));
}

#[test]
fn if_none_match_checks_list_of_candidates() {
    let list = "\"one\", \"two\", W/\"abc\"";
    assert!(if_none_match_satisfied(list, "\"abc\""));
    assert!(!if_none_match_satisfied(list, "\"three\""));
}

#[test]
fn is_not_modified_prefers_etag_over_date() {
    // If-None-Match fails but If-Modified-Since would pass; the ETag
    // check wins and the answer is "modified".
    assert!(!is_not_modified(
        Some("\"abc\""),
        Some(1000),
        Some("\"different\""),
        Some(2000)
    ));
}

#[test]
fn is_not_modified_falls_back_to_last_modified() {
    assert!(is_not_modified(None, Some(1000), None, Some(2000)));
    assert!(!is_not_modified(None, Some(3000), None, Some(2000)));
}
