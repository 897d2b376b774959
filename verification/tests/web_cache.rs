use gacha_url::web_cache::{
    find_urls, is_version_dir, is_web_caches_name, pick_cache_version, response_accepts, strip_params, CacheProbe, ProbeStep,
    ResponseError,
};

#[test]
fn strip_params_retains_only_specified() {
    let result = strip_params(
        "https://example.com/api?authkey=abc&junk=1&lang=en&sign_type=2",
        &["authkey", "lang", "sign_type"],
    );
    let parsed = url::Url::parse(&result).unwrap();
    let pairs: Vec<_> = parsed.query_pairs().collect();

    assert_eq!(pairs.len(), 3);
    assert!(pairs.iter().any(|(k, v)| k == "authkey" && v == "abc"));
    assert!(pairs.iter().any(|(k, v)| k == "lang" && v == "en"));
    assert!(pairs.iter().any(|(k, v)| k == "sign_type" && v == "2"));
}

#[test]
fn strip_params_drops_query_when_nothing_is_kept() {
    let result = strip_params("https://example.com/api?junk=1#frag", &["authkey"]);
    assert_eq!(result, "https://example.com/api#frag");
}

#[test]
fn strip_params_keeps_order_and_duplicates() {
    let result = strip_params("https://example.com/?b=1&a=2&b=3&c=4", &["a", "b"]);
    assert_eq!(result, "https://example.com/?b=1&a=2&b=3");
}

#[test]
fn find_urls_extracts_from_binary_blob() {
    let mut data = Vec::new();
    data.extend(b"junk data here");
    data.extend(b"1/0/");
    data.extend(b"https://example.com/api/getGachaLog?authkey=test");
    data.push(0);
    data.extend(b"more junk");
    data.extend(b"1/0/");
    data.extend(b"not a url");
    data.push(0);

    let urls = find_urls(&data, &["getGachaLog"]);
    assert_eq!(urls.len(), 1);
    assert!(urls[0].contains("getGachaLog"));
}

#[test]
fn find_urls_reads_to_end_without_nul_and_skips_bad_utf8() {
    let mut data = Vec::new();
    data.extend(b"1/0/http://x/getLdGachaLog");
    data.push(0xff);
    data.push(0);
    data.extend(b"1/0/http://y/getGachaLog?a=1");
    let urls = find_urls(&data, &["getGachaLog", "getLdGachaLog"]);
    assert_eq!(urls, vec!["http://y/getGachaLog?a=1".to_string()]);
}

#[test]
fn find_urls_keeps_cache_order() {
    let mut data = Vec::new();
    data.extend(b"1/0/https://a/getGachaLog");
    data.push(0);
    data.extend(b"1/0/https://b/other");
    data.push(0);
    data.extend(b"1/0/https://c/getGachaLog");
    let urls = find_urls(&data, &["getGachaLog"]);
    assert_eq!(urls, vec!["https://a/getGachaLog".to_string(), "https://c/getGachaLog".to_string()]);
}

#[test]
fn pick_cache_version_takes_highest_then_last() {
    let names: Vec<String> = ["Cache", "2.23.0.0", "2.30.0.1", "x.1.2.3", "2.30.0.1", "1.0.0"]
        .iter()
        .map(|s| s.to_string())
        .collect();
    assert_eq!(pick_cache_version(&names), Some(4));
}

#[test]
fn pick_cache_version_compares_parts_as_numbers() {
    let names: Vec<String> = ["2.9.0.0", "2.10.0.0"].iter().map(|s| s.to_string()).collect();
    assert_eq!(pick_cache_version(&names), Some(1));
    let names: Vec<String> = ["3.0.0.0", "2.10.0.0"].iter().map(|s| s.to_string()).collect();
    assert_eq!(pick_cache_version(&names), Some(0));
    let names: Vec<String> = ["1.02.0.0", "1.2.0.0", "1.1.99.99"].iter().map(|s| s.to_string()).collect();
    assert_eq!(pick_cache_version(&names), Some(1));
}

#[test]
fn pick_cache_version_none_without_versioned_dirs() {
    let names: Vec<String> = ["Cache", "1.2.3", "1.2.3.4.5"].iter().map(|s| s.to_string()).collect();
    assert_eq!(pick_cache_version(&names), None);
    assert_eq!(pick_cache_version(&Vec::new()), None);
}

#[test]
fn pick_cache_version_handles_empty_and_long_parts() {
    let names: Vec<String> = ["...", "0.0.0.0"].iter().map(|s| s.to_string()).collect();
    assert_eq!(pick_cache_version(&names), Some(1));
    let names: Vec<String> = ["99999999999999999999.0.0.0", "99999999999999999998.9.9.9"]
        .iter()
        .map(|s| s.to_string())
        .collect();
    assert_eq!(pick_cache_version(&names), Some(0));
}

#[test]
fn response_accepts_only_retcode_zero() {
    assert_eq!(response_accepts(br#"{"retcode":0,"data":{}}"#), Ok(true));
    assert_eq!(response_accepts(br#"{"retcode":-101}"#), Ok(false));
    assert_eq!(response_accepts(br#"{"message":"x"}"#), Ok(false));
    assert_eq!(response_accepts(br#"{"retcode":"0"}"#), Ok(false));
    assert_eq!(response_accepts(b"<html>"), Err(ResponseError::NotJson));
}

#[test]
fn cache_probe_tries_newest_first_and_strips() {
    let mut data = Vec::new();
    data.extend(b"1/0/https://a.example/getGachaLog?authkey=1&x=2");
    data.push(0);
    data.extend(b"1/0/http://[bad/getGachaLog");
    data.push(0);
    data.extend(b"1/0/https://b.example/getGachaLog?authkey=3&lang=en&y=4");
    data.push(0);
    let retain = ["authkey", "lang"];
    let mut probe = CacheProbe::from_cache(&data, &["getGachaLog"]).unwrap();
    match probe.advance(None, &retain) {
        ProbeStep::Validate(u) => {
            assert_eq!(u, "https://b.example/getGachaLog?authkey=3&lang=en&y=4")
        }
        other => panic!("unexpected {other:?}"),
    }
    match probe.advance(None, &retain) {
        ProbeStep::Validate(u) => assert_eq!(u, "https://a.example/getGachaLog?authkey=1&x=2"),
        other => panic!("unexpected {other:?}"),
    }
    match probe.advance(Some(br#"{"retcode":0}"#), &retain) {
        ProbeStep::Accept(u) => assert_eq!(u, "https://a.example/getGachaLog?authkey=1"),
        other => panic!("unexpected {other:?}"),
    }
}

#[test]
fn cache_probe_reports_exhaustion() {
    let mut data = Vec::new();
    data.extend(b"1/0/https://a.example/getGachaLog");
    data.push(0);
    let mut probe = CacheProbe::from_cache(&data, &["getGachaLog"]).unwrap();
    assert!(matches!(probe.advance(None, &[]), ProbeStep::Validate(_)));
    assert!(matches!(probe.advance(None, &[]), ProbeStep::Exhausted(1)));
}

#[test]
fn cache_probe_needs_candidates() {
    assert!(CacheProbe::from_cache(b"nothing here", &["getGachaLog"]).is_none());
}

#[test]
fn cache_probe_hands_out_parsed_serialization() {
    let mut data = Vec::new();
    data.extend(b"1/0/http://B.Example:80/a/../getGachaLog?authkey=1");
    data.push(0);
    let mut probe = CacheProbe::from_cache(&data, &["getGachaLog"]).unwrap();
    match probe.advance(None, &["authkey"]) {
        ProbeStep::Validate(u) => assert_eq!(u, "http://b.example/getGachaLog?authkey=1"),
        other => panic!("unexpected {other:?}"),
    }
}

#[test]
fn web_caches_name_ignores_ascii_case() {
    assert!(is_web_caches_name("webCaches"));
    assert!(is_web_caches_name("WEBCACHES"));
    assert!(!is_web_caches_name("webCache"));
    assert!(!is_web_caches_name("web_caches"));
}

#[test]
fn cache_probe_moves_on_after_failed_or_refused_replies() {
    let mut data = Vec::new();
    data.extend(b"1/0/https://a.example/getGachaLog?authkey=1");
    data.push(0);
    data.extend(b"1/0/https://b.example/getGachaLog?authkey=2");
    data.push(0);
    data.extend(b"1/0/https://c.example/getGachaLog?authkey=3");
    data.push(0);
    let retain = ["authkey"];
    let mut probe = CacheProbe::from_cache(&data, &["getGachaLog"]).unwrap();
    assert!(matches!(probe.advance(None, &retain), ProbeStep::Validate(ref u) if u.contains("c.example")));
    // The request failed: the next candidate is tried.
    assert!(matches!(probe.advance(None, &retain), ProbeStep::Validate(ref u) if u.contains("b.example")));
    // Not JSON: the next candidate is tried.
    assert!(matches!(probe.advance(Some(b"<html>"), &retain), ProbeStep::Validate(ref u) if u.contains("a.example")));
    match probe.advance(Some(br#"{"retcode":0}"#), &retain) {
        ProbeStep::Accept(u) => assert_eq!(u, "https://a.example/getGachaLog?authkey=1"),
        other => panic!("unexpected {other:?}"),
    }
}

#[test]
fn cache_probe_refused_reply_moves_on() {
    let mut data = Vec::new();
    data.extend(b"1/0/https://a.example/getGachaLog");
    data.push(0);
    let mut probe = CacheProbe::from_cache(&data, &["getGachaLog"]).unwrap();
    assert!(matches!(probe.advance(None, &[]), ProbeStep::Validate(_)));
    assert!(matches!(probe.advance(Some(br#"{"retcode":-101}"#), &[]), ProbeStep::Exhausted(1)));
}

#[test]
fn find_urls_of_joined_blobs() {
    let mut a = Vec::new();
    a.extend(b"x1/0/https://a/getGachaLog");
    a.push(0);
    a.extend(b"1/0");
    a.push(0);
    let mut b = Vec::new();
    b.extend(b"/https://no/getGachaLog");
    b.push(0);
    b.extend(b"1/0/https://b/getGachaLog");
    let joined = [a.clone(), b.clone()].concat();
    let mut expected = find_urls(&a, &["getGachaLog"]);
    expected.extend(find_urls(&b, &["getGachaLog"]));
    assert_eq!(find_urls(&joined, &["getGachaLog"]), expected);
    assert_eq!(expected, vec!["https://a/getGachaLog".to_string(), "https://b/getGachaLog".to_string()]);
}

#[test]
fn version_dirs_have_four_numeric_parts() {
    assert!(is_version_dir("2.23.0.0"));
    assert!(is_version_dir("..."));
    assert!(!is_version_dir("2.23.0"));
    assert!(!is_version_dir("2.23.0.0.1"));
    assert!(!is_version_dir("2.x.0.0"));
    assert!(!is_version_dir("Cache"));
}

#[test]
fn strip_params_ignores_order_and_repetition_of_keys() {
    let url = "https://api.example.com/log?lang=en&authkey=k&x=1&game_biz=g";
    let a = gacha_url::web_cache::strip_params(url, &["authkey", "lang", "game_biz"]);
    let b = gacha_url::web_cache::strip_params(url, &["game_biz", "lang", "authkey", "lang"]);
    assert_eq!(a, b);
    assert_eq!(a, "https://api.example.com/log?lang=en&authkey=k&game_biz=g");
}
