use gacha_url::log_url::LogGrammar;

const SAMPLE_URL: &str =
    "https://gachalog.gryphline.com/api/getGachaLog?token=abc123&server=prod-official";

const NON_OVERSEA_URL: &str = "https://aki-gm-resources.aki-game.net/aki/gacha/index.html#/record?svr_id=76402e5b20be2c39f095a152090afddc&player_id=123&lang=en&gacha_id=1&gacha_type=1&svr_api=https://gmserver-api.aki-game2.net&authkey=AAAA&version=2";
const OVERSEA_URL: &str = "https://aki-gm-resources-oversea.aki-game.com/aki/gacha/index.html#/record?svr_id=76402e5b20be2c39f095a152090afddc&player_id=456&lang=en";

// -- Endfield --

#[test]
fn url_pattern_matches_sample() {
    assert!(LogGrammar::Endfield.is_match(SAMPLE_URL));
}

#[test]
fn endfield_url_pattern_does_not_match_unrelated_url() {
    assert!(!LogGrammar::Endfield.is_match("https://example.com/gacha?token=a&server=b"));
    assert!(!LogGrammar::Endfield.is_match("https://gryphline.com/no-token-here"));
}

#[test]
fn extract_from_logs_finds_url() {
    let contents = format!("some log line\n{SAMPLE_URL}\nmore log");
    let result = LogGrammar::Endfield.last_match(&contents).unwrap();
    assert_eq!(result, SAMPLE_URL);
}

#[test]
fn endfield_extract_from_logs_returns_last_url() {
    let second_url =
        "https://gachalog.gryphline.com/api/getGachaLog?token=newer456&server=prod-official";
    let contents = format!("{SAMPLE_URL}\nsome middle line\n{second_url}\nend");
    let result = LogGrammar::Endfield.last_match(&contents).unwrap();
    assert_eq!(result, second_url);
}

#[test]
fn endfield_extract_from_logs_errors_when_no_url_found() {
    assert!(LogGrammar::Endfield.last_match("nothing useful here").is_none());
}

#[test]
fn endfield_url_needs_text_after_server() {
    assert!(!LogGrammar::Endfield.is_match("https://a.gryphline.com/xtokenyserver"));
    assert!(LogGrammar::Endfield.is_match("https://a.gryphline.com/xtokenyserverz"));
}

#[test]
fn endfield_url_needs_text_between_pieces() {
    assert!(!LogGrammar::Endfield.is_match("https://.gryphline.com/xtokenyserverz"));
    assert!(!LogGrammar::Endfield.is_match("https://a.gryphline.com/tokenyserverz"));
    assert!(!LogGrammar::Endfield.is_match("https://a.gryphline.com/xtokenserverz"));
}

#[test]
fn endfield_url_ends_at_quote_or_whitespace() {
    let contents = format!("url=\"{SAMPLE_URL}\" next");
    assert_eq!(LogGrammar::Endfield.last_match(&contents).unwrap(), SAMPLE_URL);
    let contents = format!("{SAMPLE_URL}\u{3000}tail");
    assert_eq!(LogGrammar::Endfield.last_match(&contents).unwrap(), SAMPLE_URL);
}

#[test]
fn endfield_url_pieces_must_share_a_run() {
    assert!(!LogGrammar::Endfield.is_match("https://a.gryphline.com/x token=1 server=2"));
}

#[test]
fn endfield_match_starts_at_leftmost_start_in_its_run() {
    let contents = format!("https://{SAMPLE_URL}");
    assert_eq!(LogGrammar::Endfield.last_match(&contents).unwrap(), contents);
}

#[test]
fn extracted_url_extracts_to_itself() {
    let contents = format!("x {SAMPLE_URL}\n{NON_OVERSEA_URL} y");
    let once = LogGrammar::Endfield.last_match(&contents).unwrap();
    let twice = LogGrammar::Endfield.last_match(&once).unwrap();
    assert_eq!(once, twice);
    let once = LogGrammar::WutheringWaves.last_match(&contents).unwrap();
    let twice = LogGrammar::WutheringWaves.last_match(&once).unwrap();
    assert_eq!(once, twice);
}

// -- Wuthering Waves --

#[test]
fn url_pattern_matches_non_oversea() {
    assert!(LogGrammar::WutheringWaves.is_match(NON_OVERSEA_URL));
}

#[test]
fn url_pattern_matches_oversea() {
    assert!(LogGrammar::WutheringWaves.is_match(OVERSEA_URL));
}

#[test]
fn wuwa_url_pattern_does_not_match_unrelated_url() {
    assert!(!LogGrammar::WutheringWaves.is_match("https://example.com/aki/gacha/index.html#/record"));
    assert!(!LogGrammar::WutheringWaves.is_match("https://aki-gm-resources.aki-game.net/other/path"));
}

#[test]
fn extract_from_logs_finds_url_in_client_log() {
    let contents = format!("some log line\n{NON_OVERSEA_URL}\nmore log");
    let result = LogGrammar::WutheringWaves.last_match(&contents).unwrap();
    assert_eq!(result, NON_OVERSEA_URL);
}

#[test]
fn wuwa_extract_from_logs_returns_last_url() {
    let contents = format!("{NON_OVERSEA_URL}\nsome middle line\n{OVERSEA_URL}\nend");
    let result = LogGrammar::WutheringWaves.last_match(&contents).unwrap();
    assert_eq!(result, OVERSEA_URL);
}

#[test]
fn wuwa_extract_from_logs_errors_when_no_url_found() {
    assert!(LogGrammar::WutheringWaves.last_match("nothing useful here").is_none());
}

#[test]
fn wuwa_url_may_end_right_after_record() {
    let bare = "https://aki-gm-resources.aki-game.com/aki/gacha/index.html#/record";
    let contents = format!("log entry: {bare}");
    assert_eq!(LogGrammar::WutheringWaves.last_match(&contents).unwrap(), bare);
}

#[test]
fn wuwa_rejects_other_top_level_domains() {
    assert!(!LogGrammar::WutheringWaves
        .is_match("https://aki-gm-resources.aki-game.org/aki/gacha/index.html#/record"));
}

// -- Searching a game directory's logs --

use gacha_url::game::{GachaGame, GameArg, LogSearch, LogStep, UrlSource};

/// Runs a log search over a directory that holds exactly `files` (path and
/// contents); every other file is unreadable.
fn search_logs(arg: GameArg, dir: &str, nested_exists: bool, files: &[(String, String)]) -> Option<String> {
    let UrlSource::GameLogs { grammar, log_paths, nested_dir } = arg.into_game().url_source() else {
        panic!("expected a log game");
    };
    let mut search = LogSearch::new(grammar, dir, &log_paths, nested_dir, nested_exists);
    let mut contents: Option<String> = None;
    loop {
        match search.step(contents.as_deref()) {
            LogStep::Read(path) => {
                contents = files.iter().find(|(p, _)| *p == path).map(|(_, c)| c.clone());
            }
            LogStep::Found(url) => return Some(url),
            LogStep::NotFound => return None,
        }
    }
}

#[test]
fn endfield_extract_from_logs_errors_when_no_log_files() {
    assert_eq!(search_logs(GameArg::Endfield, "/tmp/empty-game", false, &[]), None);
}

#[test]
fn wuwa_extract_from_logs_errors_when_no_log_files() {
    assert_eq!(search_logs(GameArg::Wuwa, "/tmp/empty-game", false, &[]), None);
    assert_eq!(search_logs(GameArg::Wuwa, "/tmp/empty-game", true, &[]), None);
}

#[test]
fn extract_from_logs_searches_nested_subdirectory() {
    let files = vec![(
        "/tmp/game/Wuthering Waves Game/Client/Saved/Logs/Client.log".to_string(),
        format!("log entry: {NON_OVERSEA_URL}"),
    )];
    assert_eq!(search_logs(GameArg::Wuwa, "/tmp/game", true, &files).as_deref(), Some(NON_OVERSEA_URL));
}
