use gacha_url::game::{GachaGame, Game, GameArg, LogSearch, LogStep, UrlSource};
use gacha_url::log_url::LogGrammar;

#[test]
fn game_args_map_to_games() {
    assert_eq!(GameArg::Hsr.into_game().id(), "hsr");
    assert_eq!(GameArg::Gi.into_game().id(), "gi");
    assert_eq!(GameArg::Wuwa.into_game().id(), "wuwa");
    assert_eq!(GameArg::Endfield.into_game().id(), "endfield");
    assert_eq!(Game::Endfield(gacha_url::game::Endfield).id(), "endfield");
}

#[test]
fn sources_of_games() {
    match GameArg::Hsr.into_game().url_source() {
        UrlSource::WebCache { url_patterns, retained_params } => {
            assert_eq!(url_patterns, vec!["getGachaLog", "getLdGachaLog"]);
            assert_eq!(retained_params, vec!["authkey", "authkey_ver", "sign_type", "game_biz", "lang"]);
        }
        UrlSource::GameLogs { .. } => panic!("expected a web cache"),
    }
    match GameArg::Wuwa.into_game().url_source() {
        UrlSource::GameLogs { grammar, log_paths, nested_dir } => {
            assert_eq!(grammar, LogGrammar::WutheringWaves);
            assert_eq!(log_paths[0], "Client/Saved/Logs/Client.log");
            assert_eq!(nested_dir, Some("Wuthering Waves Game"));
        }
        UrlSource::WebCache { .. } => panic!("expected logs"),
    }
}

const SAMPLE_URL: &str =
    "https://gachalog.gryphline.com/api/getGachaLog?token=abc123&server=prod-official";

#[test]
fn log_search_reads_files_in_order_and_stops_at_first_match() {
    let mut search = LogSearch::new(
        LogGrammar::WutheringWaves,
        "/g",
        &["a.log", "b.log"],
        Some("Nested"),
        true,
    );
    assert!(matches!(search.step(None), LogStep::Read(ref f) if f == "/g/a.log"));
    assert!(matches!(search.step(None), LogStep::Read(ref f) if f == "/g/b.log"));
    assert!(matches!(search.step(Some("nothing")), LogStep::Read(ref f) if f == "/g/Nested/a.log"));
    let url = "https://aki-gm-resources.aki-game.net/aki/gacha/index.html#/record?x=1";
    let text = format!("line {url}\n");
    assert!(matches!(search.step(Some(&text)), LogStep::Found(ref u) if u == url));
}

#[test]
fn log_search_without_nested_dir_reports_not_found() {
    let mut search =
        LogSearch::new(LogGrammar::Endfield, "/g", &["sdklogs/HGWebview.log"], Some("N"), false);
    assert!(matches!(search.step(None), LogStep::Read(ref f) if f == "/g/sdklogs/HGWebview.log"));
    assert!(matches!(search.step(Some("no url here")), LogStep::NotFound));
    let mut search = LogSearch::new(LogGrammar::Endfield, "/g", &["x.log"], None, true);
    assert!(matches!(search.step(None), LogStep::Read(_)));
    let text = format!("{SAMPLE_URL}");
    assert!(matches!(search.step(Some(&text)), LogStep::Found(ref u) if u == SAMPLE_URL));
}

use gacha_url::game::{Platform, SearchEnv};

#[test]
fn zzz_is_a_hoyoverse_web_cache_game() {
    let game = GameArg::Zzz.into_game();
    assert_eq!(game.id(), "zzz");
    match game.url_source() {
        UrlSource::WebCache { url_patterns, retained_params } => {
            assert_eq!(url_patterns, vec!["getGachaLog"]);
            assert_eq!(retained_params, vec!["authkey", "authkey_ver", "sign_type", "game_biz", "lang"]);
        }
        UrlSource::GameLogs { .. } => panic!("expected a web cache"),
    }
}

fn env(platform: Platform, user_profile: Option<&str>, libs: &[&str]) -> SearchEnv {
    SearchEnv {
        platform,
        user_profile: user_profile.map(str::to_string),
        steam_libraries: libs.iter().map(|l| l.to_string()).collect(),
    }
}

#[test]
fn hsr_extra_dirs_on_linux_add_flatpak_and_steam_libraries() {
    let dirs = GameArg::Hsr.into_game().extra_search_dirs(&env(Platform::Linux, None, &["/lib"]));
    assert_eq!(
        dirs,
        vec![
            ".var/app/com.valvesoftware.Steam/.local/share/Steam/steamapps/compatdata".to_string(),
            "/lib/steamapps/compatdata".to_string(),
        ]
    );
}

#[test]
fn hsr_extra_dirs_on_windows_list_fixed_paths_first() {
    let dirs = GameArg::Hsr.into_game().extra_search_dirs(&env(Platform::Windows, None, &[]));
    assert_eq!(
        dirs,
        vec![
            r"C:\Program Files (x86)\Steam\steamapps\compatdata".to_string(),
            r"C:\Program Files\HoYoPlay\games".to_string(),
            r"D:\Program Files\HoYoPlay\games".to_string(),
        ]
    );
}

#[test]
fn endfield_extra_dirs_need_windows_and_a_profile() {
    let game = GameArg::Endfield.into_game();
    assert!(game.extra_search_dirs(&env(Platform::Other, Some("/u"), &["/lib"])).is_empty());
    assert!(game.extra_search_dirs(&env(Platform::Windows, None, &[])).is_empty());
    assert_eq!(game.extra_search_dirs(&env(Platform::Windows, Some("/u"), &[])).len(), 2);
}

#[test]
fn other_games_have_no_extra_dirs() {
    let e = env(Platform::Linux, Some("/u"), &["/lib"]);
    assert!(GameArg::Gi.into_game().extra_search_dirs(&e).is_empty());
    assert!(GameArg::Wuwa.into_game().extra_search_dirs(&e).is_empty());
    assert!(GameArg::Zzz.into_game().extra_search_dirs(&e).is_empty());
}
