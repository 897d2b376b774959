use gacha_url::config::{merged_search_dirs, Config, ConfigError, GameConfig};
use gacha_url::detect::{walk_descends_into, DetectStep, Detection};
use gacha_url::game::{GameArg, Platform, SearchEnv};

fn wuwa_config() -> GameConfig {
    GameConfig {
        name: "Wuthering Waves".to_string(),
        search_dirs: vec![".local/share/Steam/steamapps/common/Wuthering Waves".to_string()],
        path_hints: vec!["Wuthering Waves".to_string(), "WutheringWaves".to_string(), "wuwa".to_string()],
    }
}

#[test]
fn matches_path_ignores_ascii_case() {
    let gc = wuwa_config();
    assert!(gc.matches_path("/games/WUTHERING WAVES/Client"));
    assert!(gc.matches_path("/games/wutheringwaves"));
    assert!(gc.matches_path("/x/WuWa"));
    assert!(!gc.matches_path("/games/Genshin Impact"));
}

#[test]
fn matches_path_without_hints_is_false() {
    let gc = GameConfig { name: "x".to_string(), search_dirs: vec![], path_hints: vec![] };
    assert!(!gc.matches_path("/anything"));
}

#[test]
fn game_config_finds_inserted_game() {
    let mut config = Config::new();
    config.insert("wuwa".to_string(), wuwa_config());
    let gc = config.game_config("wuwa").unwrap();
    assert_eq!(gc.name, "Wuthering Waves");
    match config.game_config("hsr") {
        Err(ConfigError::NoGameConfig(id)) => assert_eq!(id, "hsr"),
        Ok(_) => panic!("unexpected configuration"),
    }
}

#[test]
fn insert_replaces_previous_config() {
    let mut config = Config::new();
    config.insert("wuwa".to_string(), wuwa_config());
    let mut other = wuwa_config();
    other.name = "Renamed".to_string();
    config.insert("wuwa".to_string(), other);
    assert_eq!(config.game_config("wuwa").unwrap().name, "Renamed");
}

#[test]
fn detection_tries_matching_paths_in_order() {
    let gc = wuwa_config();
    let paths: Vec<String> =
        ["/games", "/games/Wuthering Waves", "/games/other", "/games/Wuthering Waves/Client"]
            .iter()
            .map(|s| s.to_string())
            .collect();
    let mut detection = Detection::new(&gc, &paths);
    assert!(matches!(detection.step::<&str>(None), DetectStep::Try(ref d) if d == "/games/Wuthering Waves"));
    assert!(matches!(
        detection.step(Some("first")),
        DetectStep::Try(ref d) if d == "/games/Wuthering Waves/Client"
    ));
    assert!(matches!(detection.step(Some("second")), DetectStep::AllFailed(2, Some("second"))));
}

#[test]
fn detection_without_candidates() {
    let gc = wuwa_config();
    let mut detection = Detection::new(&gc, &vec!["/games".to_string()]);
    assert!(matches!(detection.step::<&str>(None), DetectStep::NoCandidates));
}

#[test]
fn walk_skips_dosdevices_only() {
    assert!(!walk_descends_into("dosdevices"));
    assert!(walk_descends_into("drive_c"));
    assert!(walk_descends_into("DosDevices"));
}

#[test]
fn search_dirs_take_relative_dirs_from_home() {
    let gc = GameConfig {
        name: "x".to_string(),
        search_dirs: vec!["/opt/games".to_string(), ".local/share/Steam".to_string()],
        path_hints: vec![],
    };
    let dirs = merged_search_dirs(&gc, &vec![], "/home/user");
    assert_eq!(dirs, vec!["/opt/games".to_string(), "/home/user/.local/share/Steam".to_string()]);
}

#[test]
fn merged_search_dirs_put_config_dirs_before_extra_ones() {
    let gc = GameConfig {
        name: "x".to_string(),
        search_dirs: vec!["/opt/games".to_string(), ".local/share/Steam".to_string()],
        path_hints: vec![],
    };
    let extra = vec!["/x/y".to_string(), "rel".to_string()];
    assert_eq!(
        merged_search_dirs(&gc, &extra, "/home/user"),
        vec![
            "/opt/games".to_string(),
            "/home/user/.local/share/Steam".to_string(),
            "/x/y".to_string(),
            "/home/user/rel".to_string(),
        ]
    );
}

#[test]
fn more_hints_never_lose_a_match() {
    let fewer = GameConfig { name: "x".to_string(), search_dirs: vec![], path_hints: vec!["wuwa".to_string()] };
    let more = GameConfig {
        name: "x".to_string(),
        search_dirs: vec![],
        path_hints: vec!["other".to_string(), "wuwa".to_string()],
    };
    for p in ["/games/WuWa", "/games/Other", "/nothing"] {
        if fewer.matches_path(p) {
            assert!(more.matches_path(p));
        }
    }
    assert!(more.matches_path("/games/Other") && !fewer.matches_path("/games/Other"));
}

#[test]
fn match_carries_to_paths_below() {
    let gc = wuwa_config();
    assert!(gc.matches_path("/games/Wuthering Waves"));
    assert!(gc.matches_path("/games/Wuthering Waves/Client/Binaries"));
    assert!(!gc.matches_path("/games/Wuthering"));
}

#[test]
fn search_dirs_for_merges_config_and_extra_dirs() {
    let mut config = Config::new();
    config.insert(
        "hsr".to_string(),
        GameConfig {
            name: "Honkai: Star Rail".to_string(),
            search_dirs: vec!["Games/HSR".to_string()],
            path_hints: vec!["star rail".to_string()],
        },
    );
    let env = SearchEnv { platform: Platform::Other, user_profile: None, steam_libraries: vec!["/lib".to_string()] };
    let dirs = config.search_dirs_for(&GameArg::Hsr.into_game(), &env, "/home/user").unwrap();
    assert_eq!(dirs, vec!["/home/user/Games/HSR".to_string(), "/lib/steamapps/compatdata".to_string()]);
    match config.search_dirs_for(&GameArg::Gi.into_game(), &env, "/home/user") {
        Err(ConfigError::NoGameConfig(id)) => assert_eq!(id, "gi"),
        Ok(_) => panic!("expected no configuration for gi"),
    }
}
