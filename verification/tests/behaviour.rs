use cache_lens::analysis::Analysis;
use cache_lens::{
    analysis_in_range, analyze, etag_matches, http_date_in_range, human_report,
    if_none_match_satisfied, is_not_modified, json_escape, parse_cache_control, parse_headers,
    parse_http_date, parse_response_blocks, to_json,
};

fn hs(pairs: &[(&str, &str)]) -> Vec<(String, String)> {
    pairs.iter().map(|(n, v)| (n.to_string(), v.to_string())).collect()
}

// ---- dates ----

#[test]
fn http_date_of_a_known_moment() {
    assert_eq!(parse_http_date("Sun, 06 Nov 1994 08:49:37 GMT"), Some(784111777));
    assert_eq!(parse_http_date("Sat, 01 Jan 2000 00:00:00 GMT"), Some(946684800));
    assert_eq!(parse_http_date("Mon, 01 Jan 1900 00:00:00 GMT"), Some(-2208988800));
}

#[test]
fn leap_day_is_followed_by_first_of_march() {
    let feb29 = parse_http_date("Thu, 29 Feb 2024 00:00:00 GMT").unwrap();
    let mar1 = parse_http_date("Fri, 01 Mar 2024 00:00:00 GMT").unwrap();
    assert_eq!(mar1 - feb29, 86400);
    let feb28 = parse_http_date("Sun, 28 Feb 2100 00:00:00 GMT").unwrap();
    let mar1 = parse_http_date("Mon, 01 Mar 2100 00:00:00 GMT").unwrap();
    assert_eq!(mar1 - feb28, 86400);
    let dec31 = parse_http_date("Sun, 31 Dec 2000 00:00:00 GMT").unwrap();
    let jan1 = parse_http_date("Mon, 01 Jan 2001 00:00:00 GMT").unwrap();
    assert_eq!(jan1 - dec31, 86400);
}

#[test]
fn http_date_rejects_other_shapes() {
    assert_eq!(parse_http_date("Sun, 06 Nov 1994 08:49:37 UTC"), None);
    assert_eq!(parse_http_date("Sun, 06 Nov 1994 08:49:37"), None);
    assert_eq!(parse_http_date("Sun, 06 Foo 1994 08:49:37 GMT"), None);
    assert_eq!(parse_http_date("Sun, 06 Nov 1994 08:49 GMT"), None);
    assert_eq!(parse_http_date("Sun, -6 Nov 1994 08:49:37 GMT"), None);
    assert_eq!(parse_http_date("Sunday, 06-Nov-94 08:49:37 GMT"), None);
    assert_eq!(parse_http_date(""), None);
}

#[test]
fn http_date_ignores_weekday_and_extra_whitespace() {
    assert_eq!(parse_http_date("  Xyz,   06 Nov 1994\t08:49:37 GMT "), Some(784111777));
    assert_eq!(parse_http_date("Sun, +06 Nov 1994 08:49:37 GMT"), Some(784111777));
}

#[test]
fn http_date_range_check() {
    assert!(http_date_in_range("Sun, 06 Nov 1994 08:49:37 GMT"));
    assert!(http_date_in_range("not a date"));
    assert!(!http_date_in_range("Sun, 06 Nov 99999999999999999 08:49:37 GMT"));
    assert!(!http_date_in_range("Sun, 06 Nov 1994 9223372036854775807:00:00 GMT"));
}

// ---- Cache-Control ----

#[test]
fn cache_control_reads_all_directives() {
    let cc = parse_cache_control(
        "No-Store, no-cache, PRIVATE, public, must-revalidate, proxy-revalidate, immutable, \
         max-age=\"3600\", s-maxage = 60 , stale-while-revalidate=30, stale-if-error=86400",
    );
    assert!(cc.no_store && cc.no_cache && cc.private && cc.public);
    assert!(cc.must_revalidate && cc.proxy_revalidate && cc.immutable);
    assert_eq!(cc.max_age, Some(3600));
    assert_eq!(cc.s_maxage, Some(60));
    assert_eq!(cc.stale_while_revalidate, Some(30));
    assert_eq!(cc.stale_if_error, Some(86400));
    assert!(cc.unrecognized.is_empty());
}

#[test]
fn cache_control_keeps_unknown_names_lowercased() {
    let cc = parse_cache_control("X-Custom=5, ,Community=\"UCI\", ");
    assert_eq!(cc.unrecognized, vec!["x-custom".to_string(), "community".to_string()]);
    assert_eq!(cc, cache_lens::CacheControl { unrecognized: cc.unrecognized.clone(), ..Default::default() });
}

#[test]
fn cache_control_later_value_wins_and_bad_numbers_are_none() {
    assert_eq!(parse_cache_control("max-age=10, max-age=20").max_age, Some(20));
    assert_eq!(parse_cache_control("max-age=10, max-age=abc").max_age, None);
    assert_eq!(parse_cache_control("max-age").max_age, None);
    assert_eq!(parse_cache_control("max-age=-5").max_age, Some(-5));
    assert_eq!(parse_cache_control("max-age=99999999999999999999").max_age, None);
    assert_eq!(parse_cache_control("max-age=9223372036854775807").max_age, Some(i64::MAX));
    assert_eq!(parse_cache_control("max-age=-9223372036854775808").max_age, Some(i64::MIN));
}

// ---- header text ----

#[test]
fn headers_are_trimmed_and_keep_their_case() {
    let h = parse_headers("HTTP/1.1 200 OK\r\n  Content-Type :  text/html \r\n\r\nno colon here\nLocation: https://a.example/x:1\n");
    assert_eq!(
        h,
        vec![
            ("Content-Type".to_string(), "text/html".to_string()),
            ("Location".to_string(), "https://a.example/x:1".to_string()),
        ]
    );
    assert!(parse_headers("").is_empty());
}

#[test]
fn response_blocks_hold_exactly_the_headers() {
    let text = "a: 1\nHTTP/1.1 100 Continue\n\nHTTP/1.1 200 OK\nb: 2\nc: 3\n";
    let blocks = parse_response_blocks(text);
    assert_eq!(blocks.len(), 3);
    assert_eq!(blocks[0], hs(&[("a", "1")]));
    assert!(blocks[1].is_empty());
    assert_eq!(blocks[2], hs(&[("b", "2"), ("c", "3")]));
    let flat: Vec<(String, String)> = blocks.into_iter().flatten().collect();
    assert_eq!(flat, parse_headers(text));
}

// ---- analysis ----

#[test]
fn header_names_match_in_any_case() {
    let a = analyze(&hs(&[("CACHE-control", "max-age=100"), ("aGe", "10")]));
    let b = analyze(&hs(&[("cache-control", "max-age=100"), ("age", "10")]));
    assert_eq!(a, b);
    assert_eq!(a.freshness_seconds, Some(90));
}

#[test]
fn first_header_of_a_name_counts() {
    let a = analyze(&hs(&[("Age", "10"), ("Age", "20"), ("Cache-Control", "max-age=100")]));
    assert_eq!(a.freshness_seconds, Some(90));
}

#[test]
fn max_age_overrides_expires() {
    let a = analyze(&hs(&[
        ("Cache-Control", "max-age=50"),
        ("Date", "Wed, 21 Oct 2015 07:28:00 GMT"),
        ("Expires", "Wed, 21 Oct 2015 08:28:00 GMT"),
    ]));
    assert_eq!(a.freshness_seconds, Some(50));
    assert_eq!(a.notes, vec!["freshness computed from max-age=50".to_string()]);
}

#[test]
fn expires_notes() {
    let a = analyze(&hs(&[("Expires", "Wed, 21 Oct 2015 08:28:00 GMT")]));
    assert_eq!(a.freshness_seconds, None);
    assert_eq!(
        a.notes,
        vec!["Expires is present but there's no Date header to measure it against".to_string()]
    );
    let a = analyze(&hs(&[("Expires", "0")]));
    assert_eq!(a.notes, vec!["couldn't parse Expires header: 0".to_string()]);
    let a = analyze(&hs(&[]));
    assert!(a.cacheable);
    assert_eq!(
        a.notes,
        vec!["no max-age or Expires; response has no explicit freshness lifetime".to_string()]
    );
    let a = analyze(&hs(&[
        ("Date", "Wed, 21 Oct 2015 07:28:00 GMT"),
        ("Expires", "Wed, 21 Oct 2015 07:00:00 GMT"),
        ("Age", "5"),
    ]));
    assert_eq!(a.freshness_seconds, Some(-1685));
}

#[test]
fn cookie_and_no_cache_notes_come_first() {
    let a = analyze(&hs(&[("Set-Cookie", "a=b"), ("Cache-Control", "no-cache, max-age=5")]));
    assert_eq!(
        a.notes,
        vec![
            "Set-Cookie is present without a public directive; shared caches typically won't store this".to_string(),
            "no-cache: a cache may store this but must revalidate with the origin before reusing it".to_string(),
            "freshness computed from max-age=5".to_string(),
        ]
    );
    let a = analyze(&hs(&[("Set-Cookie", "a=b"), ("Cache-Control", "public")]));
    assert!(!a.notes.iter().any(|n| n.contains("Set-Cookie")));
}

#[test]
fn stale_windows_and_vary_notes() {
    let a = analyze(&hs(&[
        ("Cache-Control", "max-age=60, stale-while-revalidate=30, stale-if-error=5"),
        ("Vary", "*, user-AGENT,,  "),
    ]));
    assert_eq!(a.stale_while_revalidate, Some(30));
    assert_eq!(a.stale_if_error, Some(5));
    assert_eq!(a.vary, vec!["*".to_string(), "user-AGENT".to_string()]);
    assert_eq!(
        a.notes,
        vec![
            "freshness computed from max-age=60".to_string(),
            "stale-while-revalidate=30: once stale, a cache may keep serving this for up to 30s while it revalidates in the background".to_string(),
            "stale-if-error=5: once stale, a cache may keep serving this for up to 5s if revalidating with the origin fails".to_string(),
            "Vary: * means the response depends on something outside the request headers; a shared cache can basically never reuse it".to_string(),
            "Vary includes User-Agent, whose value differs per client; this fragments the cache into roughly one entry per visitor".to_string(),
        ]
    );
}

#[test]
fn validator_notes() {
    let a = analyze(&hs(&[("ETag", "W/\"x\""), ("Last-Modified", "Sun, 06 Nov 1994 08:49:37 GMT")]));
    assert_eq!(a.last_modified, Some(784111777));
    assert_eq!(
        a.notes.last().unwrap(),
        "has an ETag (W/\"x\"); once stale it can be revalidated with If-None-Match instead of a full refetch"
    );
    let a = analyze(&hs(&[("Last-Modified", "Sun, 06 Nov 1994 08:49:37 GMT")]));
    assert_eq!(
        a.notes.last().unwrap(),
        "has a Last-Modified date; once stale it can be revalidated with If-Modified-Since instead of a full refetch"
    );
}

#[test]
fn no_store_analysis_is_bare() {
    let a = analyze(&hs(&[("Cache-Control", "no-store"), ("ETag", "\"x\""), ("Vary", "Accept")]));
    assert_eq!(
        a,
        Analysis {
            cacheable: false,
            freshness_seconds: None,
            etag: None,
            last_modified: None,
            vary: vec![],
            stale_while_revalidate: None,
            stale_if_error: None,
            notes: vec!["no-store: response must not be stored by any cache".to_string()],
        }
    );
}

#[test]
fn analysis_range_check() {
    assert!(analysis_in_range(&hs(&[("Cache-Control", "max-age=100"), ("Age", "40")])));
    assert!(!analysis_in_range(&hs(&[
        ("Cache-Control", "max-age=-9223372036854775808"),
        ("Age", "1"),
    ])));
    assert!(analysis_in_range(&hs(&[
        ("Cache-Control", "no-store, max-age=-9223372036854775808"),
        ("Age", "1"),
    ])));
    assert!(!analysis_in_range(&hs(&[("Last-Modified", "Sun, 06 Nov 99999999999999999 08:49:37 GMT")])));
    assert!(!analysis_in_range(&hs(&[
        ("Expires", "Sun, 06 Nov 292277026596 08:49:37 GMT"),
        ("Date", "Sun, 06 Nov -292277026596 08:49:37 GMT"),
    ])));
}

// ---- conditional requests ----

#[test]
fn weak_comparison_laws_on_values() {
    assert!(etag_matches("  W/\"q\" ", "\"q\""));
    assert!(etag_matches("W/\"q\"", "W/\"q\""));
    assert!(!etag_matches("w/\"q\"", "\"q\""));
    assert!(if_none_match_satisfied(" \"q\" ", "W/\"q\""));
    assert!(!if_none_match_satisfied("\"q\"", ""));
    assert!(!is_not_modified(None, Some(1), Some("*"), Some(2)));
    assert!(is_not_modified(Some("\"a\""), None, Some("*"), None));
    assert!(!is_not_modified(None, None, None, Some(2)));
}

// ---- output ----

#[test]
fn json_escape_of_special_characters() {
    assert_eq!(json_escape("a\"b\\c\nd\re\tf\u{1}g\u{1f}é"), "\"a\\\"b\\\\c\\nd\\re\\tf\\u0001g\\u001fé\"");
    assert_eq!(json_escape(""), "\"\"");
}

#[test]
fn json_and_text_report_of_a_simple_response() {
    let a = analyze(&hs(&[("Cache-Control", "max-age=3600"), ("Age", "179")]));
    assert_eq!(
        to_json(&a, None),
        "{\"cacheable\":true,\"freshness_seconds\":3421,\"etag\":null,\"last_modified\":null,\"vary\":[],\"stale_while_revalidate\":null,\"stale_if_error\":null,\"not_modified\":null,\"notes\":[\"freshness computed from max-age=3600\"]}"
    );
    assert_eq!(
        human_report(&a, None),
        vec![
            "cacheable: true".to_string(),
            "fresh for: 3421s".to_string(),
            "notes:".to_string(),
            "  - freshness computed from max-age=3600".to_string(),
        ]
    );
}

#[test]
fn json_and_text_report_of_a_stale_response() {
    let a = analyze(&hs(&[
        ("Cache-Control", "max-age=10, stale-if-error=7"),
        ("Age", "22"),
        ("ETag", "\"abc123\""),
        ("Vary", "Accept-Encoding, User-Agent"),
    ]));
    let json = to_json(&a, Some(true));
    assert!(json.starts_with("{\"cacheable\":true,\"freshness_seconds\":-12,\"etag\":\"\\\"abc123\\\"\",\"last_modified\":null,\"vary\":[\"Accept-Encoding\",\"User-Agent\"],\"stale_while_revalidate\":null,\"stale_if_error\":7,\"not_modified\":true,\"notes\":[\"freshness computed from max-age=10\","));
    let lines = human_report(&a, Some(false));
    assert_eq!(
        &lines[..6],
        &[
            "cacheable: true".to_string(),
            "stale by: 12s".to_string(),
            "etag: \"abc123\"".to_string(),
            "vary: Accept-Encoding, User-Agent".to_string(),
            "stale-if-error: 7s".to_string(),
            "revalidation: 200 (send full response)".to_string(),
        ]
    );
    assert_eq!(lines[6], "notes:");
}

// ---- laws on concrete values ----

#[test]
fn directive_case_does_not_matter() {
    let v = "Max-Age=60, NO-CACHE, X-Thing=\"A\", Stale-If-Error=9";
    assert_eq!(parse_cache_control(v), parse_cache_control(&v.to_ascii_lowercase()));
}

#[test]
fn stale_directive_changes_only_its_window() {
    let base = parse_cache_control("public, max-age=60, foo");
    let more = parse_cache_control("public, max-age=60, foo, Stale-While-Revalidate=30");
    assert_eq!(more.stale_while_revalidate, Some(30));
    assert_eq!(
        cache_lens::CacheControl { stale_while_revalidate: None, ..more.clone() },
        base
    );
    let a = analyze(&hs(&[("Cache-Control", "max-age=60"), ("Age", "5")]));
    let b = analyze(&hs(&[("Cache-Control", "max-age=60, stale-if-error=100"), ("Age", "5")]));
    assert_eq!(a.freshness_seconds, b.freshness_seconds);
}

#[test]
fn single_candidate_is_plain_weak_comparison() {
    for (inm, tag) in [("\"q\"", "W/\"q\""), (" W/\"q\"", "\"r\""), ("\"q\" ", "\"q\"")] {
        assert_eq!(if_none_match_satisfied(inm, tag), etag_matches(inm, tag));
    }
}

#[test]
fn if_none_match_decides_whatever_the_dates() {
    for (lm, since) in [(Some(1), Some(2)), (Some(3), Some(2)), (None, None)] {
        assert!(is_not_modified(Some("\"a\""), lm, Some("W/\"a\""), since));
        assert!(!is_not_modified(Some("\"a\""), lm, Some("\"b\""), since));
    }
}

#[test]
fn cache_control_of_joined_values() {
    let (a, b) = ("no-cache, max-age=10, x-a", "PUBLIC, s-maxage=5, x-b, Max-Age=oops");
    let x = parse_cache_control(a);
    let y = parse_cache_control(b);
    let r = parse_cache_control(&format!("{},{}", a, b));
    assert_eq!(r.no_cache, x.no_cache || y.no_cache);
    assert_eq!(r.public, x.public || y.public);
    assert_eq!(r.unrecognized, [x.unrecognized.clone(), y.unrecognized.clone()].concat());
    assert_eq!(r.max_age, y.max_age);
    assert_eq!(r.s_maxage, Some(5));
    assert_eq!(r.stale_if_error, x.stale_if_error);
}

#[test]
fn headers_of_joined_texts() {
    let (a, b) = ("HTTP/1.1 200 OK\nA: 1\nB", "C: 3\r\n\nD :4");
    assert_eq!(
        parse_headers(&format!("{}\n{}", a, b)),
        [parse_headers(a), parse_headers(b)].concat()
    );
}

#[test]
fn http_dates_order_as_their_fields() {
    let earlier = parse_http_date("Tue, 31 Dec 1999 23:59:59 GMT").unwrap();
    let later = parse_http_date("Sat, 01 Jan 2000 00:00:00 GMT").unwrap();
    assert_eq!(later - earlier, 1);
    assert!(parse_http_date("Sun, 01 Mar 1900 00:00:00 GMT").unwrap() > parse_http_date("Wed, 28 Feb 1900 12:00:00 GMT").unwrap());
    assert_eq!(cache_lens::days_from_civil(1970, 1, 1), 0);
    assert_eq!(cache_lens::days_from_civil(2000, 3, 1), cache_lens::days_from_civil(2000, 2, 29) + 1);
}

#[test]
fn more_candidates_keep_a_match() {
    let inm = "\"a\", W/\"b\" ";
    assert!(if_none_match_satisfied(inm, "\"b\""));
    assert!(if_none_match_satisfied(&format!("{}, {}", inm, "\"zzz\", junk"), "\"b\""));
}

fn decode_json_string(t: &str) -> String {
    let inner = &t[1..t.len() - 1];
    let mut out = String::new();
    let mut it = inner.chars();
    while let Some(c) = it.next() {
        if c != '\\' {
            out.push(c);
            continue;
        }
        match it.next().unwrap() {
            '"' => out.push('"'),
            '\\' => out.push('\\'),
            'n' => out.push('\n'),
            'r' => out.push('\r'),
            't' => out.push('\t'),
            'u' => {
                let hex: String = (0..4).map(|_| it.next().unwrap()).collect();
                out.push(char::from_u32(u32::from_str_radix(&hex, 16).unwrap()).unwrap());
            }
            other => panic!("unexpected escape {}", other),
        }
    }
    out
}

#[test]
fn json_escape_decodes_back() {
    for s in ["", "plain", "q\"b\\s\n\r\t", "\u{0}\u{1f}\u{7f}é✓"] {
        assert_eq!(decode_json_string(&json_escape(s)), s);
    }
}

#[test]
fn to_json_keys_come_in_order() {
    let a = analyze(&hs(&[("Cache-Control", "max-age=1"), ("ETag", "\"e\"")]));
    let json = to_json(&a, Some(false));
    let keys = [
        "cacheable", "freshness_seconds", "etag", "last_modified", "vary",
        "stale_while_revalidate", "stale_if_error", "not_modified", "notes",
    ];
    let mut pos = 0;
    for k in keys {
        let needle = format!("\"{}\":", k);
        let at = json[pos..].find(&needle).unwrap();
        pos += at + needle.len();
    }
    assert!(json.starts_with('{') && json.ends_with('}'));
    assert!(json.contains("\"not_modified\":false"));
}
