//! The games the tool knows, and where each keeps its history URL.
use vstd::prelude::*;

use crate::config::{path_join, path_join_spec};
use crate::log_url::{is_last_match, run_end, url_at, LogGrammar};

verus! {

/// Where a game keeps its history URL.
pub enum UrlSource {
    /// In a text log: the last match of `grammar` in the first of
    /// `log_paths` (relative to the game directory, and then to the directory
    /// `nested_dir` inside it, where that exists) that holds one.
    GameLogs {
        grammar: LogGrammar,
        log_paths: Vec<&'static str>,
        nested_dir: Option<&'static str>,
    },
    /// In the newest `webCaches/<version>/Cache/Cache_Data/data_2` blob: a
    /// URL containing one of `url_patterns` that the API accepts, cut down to
    /// the query parameters in `retained_params`.
    WebCache { url_patterns: Vec<&'static str>, retained_params: Vec<&'static str> },
}

/// The patterns and parameters of the HoYoverse web cache of a game.
pub open spec fn is_web_cache_source(
    source: UrlSource,
    patterns: Seq<Seq<char>>,
    retained: Seq<Seq<char>>,
) -> bool {
    source matches UrlSource::WebCache { url_patterns, retained_params }
        && url_patterns.deep_view() == patterns && retained_params.deep_view() == retained
}

/// The grammar, log paths and nested directory of a game that logs its URL.
pub open spec fn is_game_logs_source(
    source: UrlSource,
    g: LogGrammar,
    paths: Seq<Seq<char>>,
    nested: Option<Seq<char>>,
) -> bool {
    source matches UrlSource::GameLogs { grammar, log_paths, nested_dir } && grammar == g
        && log_paths.deep_view() == paths && match nested_dir {
        Some(d) => nested == Some(d@),
        None => nested is None,
    }
}

/// The query parameters that HoYoverse history URLs need.
pub open spec fn hoyoverse_retained_params() -> Seq<Seq<char>> {
    seq!["authkey"@, "authkey_ver"@, "sign_type"@, "game_biz"@, "lang"@]
}

fn hoyoverse_retained_params_vec() -> (v: Vec<&'static str>)
    ensures
        v.deep_view() == hoyoverse_retained_params(),
{
    let v = vec!["authkey", "authkey_ver", "sign_type", "game_biz", "lang"];
    assert(v.deep_view() =~= hoyoverse_retained_params());
    v
}

/// The operating system the program is built for, as far as the search
/// directories depend on it.
#[derive(Clone, Copy, Debug, PartialEq, Eq, Structural)]
pub enum Platform {
    Linux,
    Windows,
    Other,
}

/// What the program finds out about the machine that decides a game's extra
/// search directories.
pub struct SearchEnv {
    /// The build target's operating system.
    pub platform: Platform,
    /// The `USERPROFILE` variable, where it is set.
    pub user_profile: Option<String>,
    /// The Steam library folders listed by `libraryfolders.vdf`.
    pub steam_libraries: Vec<String>,
}

/// The Steam compatibility-data directories of the library folders `libraries`.
pub open spec fn steam_compatdata_dirs(libraries: Seq<Seq<char>>) -> Seq<Seq<char>> {
    libraries.map_values(|lib: Seq<char>| path_join_spec(lib, "steamapps/compatdata"@))
}

/// The directories of `libraries` joined with `tail`, in order.
fn join_each(libraries: &Vec<String>, tail: &str) -> (r: Vec<String>)
    ensures
        r.deep_view() == libraries.deep_view().map_values(
            |lib: Seq<char>| path_join_spec(lib, tail@),
        ),
{
    let ghost libs = libraries.deep_view();
    let mut r: Vec<String> = Vec::new();
    let n: usize = libraries.len();
    let mut i: usize = 0;
    while i < n
        invariant
            n == libraries@.len(),
            libs == libraries.deep_view(),
            i <= n,
            r.deep_view() == libs.take(i as int).map_values(
                |lib: Seq<char>| path_join_spec(lib, tail@),
            ),
        decreases n - i,
    {
        let ghost before = r.deep_view();
        r.push(path_join(libraries[i].as_str(), tail));
        assert(r.deep_view() =~= libs.take(i + 1).map_values(
            |lib: Seq<char>| path_join_spec(lib, tail@),
        )) by {
            assert(r.deep_view() =~= before.push(path_join_spec(libs[i as int], tail@)));
        }
        i = i + 1;
    }
    assert(libs.take(n as int) =~= libs);
    r
}

/// A game whose history URL can be recovered.
pub trait GachaGame {
    /// The game's id, which keys its configuration.
    spec fn game_id(&self) -> Seq<char>;

    /// `source` describes where this game keeps its history URL.
    spec fn is_source(&self, source: UrlSource) -> bool;

    /// The game's id, which keys its configuration.
    fn id(&self) -> (r: &'static str)
        ensures
            r@ == self.game_id(),
    ;

    /// Where the game keeps its history URL.
    fn url_source(&self) -> (r: UrlSource)
        ensures
            self.is_source(r),
    ;

    /// The game's extra search directories on a machine described by `env`.
    spec fn extra_dirs(&self, env: &SearchEnv) -> Seq<Seq<char>>;

    /// Additional search directories found at run time (platform-specific
    /// paths, Steam library folders), searched after those of the
    /// configuration.
    fn extra_search_dirs(&self, env: &SearchEnv) -> (r: Vec<String>)
        ensures
            r.deep_view() == self.extra_dirs(env),
    ;
}

/// Honkai: Star Rail.
pub struct HonkaiStarRail;

impl GachaGame for HonkaiStarRail {
    open spec fn game_id(&self) -> Seq<char> {
        "hsr"@
    }

    open spec fn is_source(&self, source: UrlSource) -> bool {
        is_web_cache_source(
            source,
            seq!["getGachaLog"@, "getLdGachaLog"@],
            hoyoverse_retained_params(),
        )
    }

    fn id(&self) -> (r: &'static str) {
        "hsr"
    }

    fn url_source(&self) -> (r: UrlSource) {
        let patterns = vec!["getGachaLog", "getLdGachaLog"];
        assert(patterns.deep_view() =~= seq!["getGachaLog"@, "getLdGachaLog"@]);
        UrlSource::WebCache {
            url_patterns: patterns,
            retained_params: hoyoverse_retained_params_vec(),
        }
    }

    open spec fn extra_dirs(&self, env: &SearchEnv) -> Seq<Seq<char>> {
        (if env.platform == Platform::Linux {
            seq![".var/app/com.valvesoftware.Steam/.local/share/Steam/steamapps/compatdata"@]
        } else {
            Seq::empty()
        }) + (if env.platform == Platform::Windows {
            seq![
                "C:\\Program Files (x86)\\Steam\\steamapps\\compatdata"@,
                "C:\\Program Files\\HoYoPlay\\games"@,
                "D:\\Program Files\\HoYoPlay\\games"@,
            ]
        } else {
            Seq::empty()
        }) + steam_compatdata_dirs(env.steam_libraries.deep_view())
    }

    fn extra_search_dirs(&self, env: &SearchEnv) -> (r: Vec<String>) {
        let mut dirs: Vec<String> = Vec::new();
        if env.platform == Platform::Linux {
            dirs.push(
                String::from_str(
                    ".var/app/com.valvesoftware.Steam/.local/share/Steam/steamapps/compatdata",
                ),
            );
        }
        if env.platform == Platform::Windows {
            dirs.push(String::from_str("C:\\Program Files (x86)\\Steam\\steamapps\\compatdata"));
            dirs.push(String::from_str("C:\\Program Files\\HoYoPlay\\games"));
            dirs.push(String::from_str("D:\\Program Files\\HoYoPlay\\games"));
        }
        let ghost fixed = dirs.deep_view();
        let libs = join_each(&env.steam_libraries, "steamapps/compatdata");
        let mut k: usize = 0;
        while k < libs.len()
            invariant
                k <= libs@.len(),
                dirs.deep_view() == fixed + libs.deep_view().take(k as int),
            decreases libs.len() - k,
        {
            let ghost before = dirs.deep_view();
            dirs.push(libs[k].clone());
            assert(dirs.deep_view() =~= fixed + libs.deep_view().take(k + 1)) by {
                assert(dirs.deep_view() =~= before.push(libs@[k as int]@));
            }
            k = k + 1;
        }
        assert(libs.deep_view().take(libs@.len() as int) =~= libs.deep_view());
        assert(dirs.deep_view() =~= self.extra_dirs(env));
        dirs
    }
}

/// Genshin Impact.
pub struct GenshinImpact;

impl GachaGame for GenshinImpact {
    open spec fn game_id(&self) -> Seq<char> {
        "gi"@
    }

    open spec fn is_source(&self, source: UrlSource) -> bool {
        is_web_cache_source(source, seq!["getGachaLog"@], hoyoverse_retained_params())
    }

    fn id(&self) -> (r: &'static str) {
        "gi"
    }

    fn url_source(&self) -> (r: UrlSource) {
        let patterns = vec!["getGachaLog"];
        assert(patterns.deep_view() =~= seq!["getGachaLog"@]);
        UrlSource::WebCache {
            url_patterns: patterns,
            retained_params: hoyoverse_retained_params_vec(),
        }
    }

    open spec fn extra_dirs(&self, env: &SearchEnv) -> Seq<Seq<char>> {
        Seq::empty()
    }

    fn extra_search_dirs(&self, env: &SearchEnv) -> (r: Vec<String>) {
        let r: Vec<String> = Vec::new();
        assert(r.deep_view() =~= Seq::<Seq<char>>::empty());
        r
    }
}

/// Wuthering Waves.
pub struct WutheringWaves;

impl GachaGame for WutheringWaves {
    open spec fn game_id(&self) -> Seq<char> {
        "wuwa"@
    }

    open spec fn is_source(&self, source: UrlSource) -> bool {
        is_game_logs_source(
            source,
            LogGrammar::WutheringWaves,
            seq![
                "Client/Saved/Logs/Client.log"@,
                "Client/Binaries/Win64/ThirdParty/KrPcSdk_Global/KRSDKRes/KRSDKWebView/debug.log"@,
            ],
            Some("Wuthering Waves Game"@),
        )
    }

    fn id(&self) -> (r: &'static str) {
        "wuwa"
    }

    fn url_source(&self) -> (r: UrlSource) {
        let paths = vec![
            "Client/Saved/Logs/Client.log",
            "Client/Binaries/Win64/ThirdParty/KrPcSdk_Global/KRSDKRes/KRSDKWebView/debug.log",
        ];
        assert(paths.deep_view() =~= seq![
            "Client/Saved/Logs/Client.log"@,
            "Client/Binaries/Win64/ThirdParty/KrPcSdk_Global/KRSDKRes/KRSDKWebView/debug.log"@,
        ]);
        UrlSource::GameLogs {
            grammar: LogGrammar::WutheringWaves,
            log_paths: paths,
            nested_dir: Some("Wuthering Waves Game"),
        }
    }

    open spec fn extra_dirs(&self, env: &SearchEnv) -> Seq<Seq<char>> {
        Seq::empty()
    }

    fn extra_search_dirs(&self, env: &SearchEnv) -> (r: Vec<String>) {
        let r: Vec<String> = Vec::new();
        assert(r.deep_view() =~= Seq::<Seq<char>>::empty());
        r
    }
}

/// Arknights: Endfield.
pub struct Endfield;

impl GachaGame for Endfield {
    open spec fn game_id(&self) -> Seq<char> {
        "endfield"@
    }

    open spec fn is_source(&self, source: UrlSource) -> bool {
        is_game_logs_source(
            source,
            LogGrammar::Endfield,
            seq!["sdklogs/HGWebview.log"@],
            None,
        )
    }

    fn id(&self) -> (r: &'static str) {
        "endfield"
    }

    fn url_source(&self) -> (r: UrlSource) {
        let paths = vec!["sdklogs/HGWebview.log"];
        assert(paths.deep_view() =~= seq!["sdklogs/HGWebview.log"@]);
        UrlSource::GameLogs { grammar: LogGrammar::Endfield, log_paths: paths, nested_dir: None }
    }

    open spec fn extra_dirs(&self, env: &SearchEnv) -> Seq<Seq<char>> {
        match env.user_profile {
            Some(profile) if env.platform == Platform::Windows => {
                let local_low = path_join_spec(profile@, "AppData\\LocalLow"@);
                seq![path_join_spec(local_low, "Gryphline"@), path_join_spec(local_low, "Hypergryph"@)]
            },
            _ => Seq::empty(),
        }
    }

    fn extra_search_dirs(&self, env: &SearchEnv) -> (r: Vec<String>) {
        let mut dirs: Vec<String> = Vec::new();
        if env.platform == Platform::Windows {
            match &env.user_profile {
                Some(profile) => {
                    let local_low = path_join(profile.as_str(), "AppData\\LocalLow");
                    dirs.push(path_join(local_low.as_str(), "Gryphline"));
                    dirs.push(path_join(local_low.as_str(), "Hypergryph"));
                },
                None => {},
            }
        }
        assert(dirs.deep_view() =~= self.extra_dirs(env));
        dirs
    }
}

/// Zenless Zone Zero, a HoYoverse game whose web cache is read as that of
/// Genshin Impact is.
pub struct ZenlessZoneZero;

impl GachaGame for ZenlessZoneZero {
    open spec fn game_id(&self) -> Seq<char> {
        "zzz"@
    }

    open spec fn is_source(&self, source: UrlSource) -> bool {
        is_web_cache_source(source, seq!["getGachaLog"@], hoyoverse_retained_params())
    }

    fn id(&self) -> (r: &'static str) {
        "zzz"
    }

    fn url_source(&self) -> (r: UrlSource) {
        let patterns = vec!["getGachaLog"];
        assert(patterns.deep_view() =~= seq!["getGachaLog"@]);
        UrlSource::WebCache {
            url_patterns: patterns,
            retained_params: hoyoverse_retained_params_vec(),
        }
    }

    open spec fn extra_dirs(&self, env: &SearchEnv) -> Seq<Seq<char>> {
        Seq::empty()
    }

    fn extra_search_dirs(&self, env: &SearchEnv) -> (r: Vec<String>) {
        let r: Vec<String> = Vec::new();
        assert(r.deep_view() =~= Seq::<Seq<char>>::empty());
        r
    }
}

/// Any of the known games.
pub enum Game {
    HonkaiStarRail(HonkaiStarRail),
    GenshinImpact(GenshinImpact),
    WutheringWaves(WutheringWaves),
    Endfield(Endfield),
    ZenlessZoneZero(ZenlessZoneZero),
}

impl GachaGame for Game {
    open spec fn game_id(&self) -> Seq<char> {
        match self {
            Game::HonkaiStarRail(g) => g.game_id(),
            Game::GenshinImpact(g) => g.game_id(),
            Game::WutheringWaves(g) => g.game_id(),
            Game::Endfield(g) => g.game_id(),
            Game::ZenlessZoneZero(g) => g.game_id(),
        }
    }

    open spec fn is_source(&self, source: UrlSource) -> bool {
        match self {
            Game::HonkaiStarRail(g) => g.is_source(source),
            Game::GenshinImpact(g) => g.is_source(source),
            Game::WutheringWaves(g) => g.is_source(source),
            Game::Endfield(g) => g.is_source(source),
            Game::ZenlessZoneZero(g) => g.is_source(source),
        }
    }

    fn id(&self) -> (r: &'static str) {
        match self {
            Game::HonkaiStarRail(g) => g.id(),
            Game::GenshinImpact(g) => g.id(),
            Game::WutheringWaves(g) => g.id(),
            Game::Endfield(g) => g.id(),
            Game::ZenlessZoneZero(g) => g.id(),
        }
    }

    fn url_source(&self) -> (r: UrlSource) {
        match self {
            Game::HonkaiStarRail(g) => g.url_source(),
            Game::GenshinImpact(g) => g.url_source(),
            Game::WutheringWaves(g) => g.url_source(),
            Game::Endfield(g) => g.url_source(),
            Game::ZenlessZoneZero(g) => g.url_source(),
        }
    }

    open spec fn extra_dirs(&self, env: &SearchEnv) -> Seq<Seq<char>> {
        match self {
            Game::HonkaiStarRail(g) => g.extra_dirs(env),
            Game::GenshinImpact(g) => g.extra_dirs(env),
            Game::WutheringWaves(g) => g.extra_dirs(env),
            Game::Endfield(g) => g.extra_dirs(env),
            Game::ZenlessZoneZero(g) => g.extra_dirs(env),
        }
    }

    fn extra_search_dirs(&self, env: &SearchEnv) -> (r: Vec<String>) {
        match self {
            Game::HonkaiStarRail(g) => g.extra_search_dirs(env),
            Game::GenshinImpact(g) => g.extra_search_dirs(env),
            Game::WutheringWaves(g) => g.extra_search_dirs(env),
            Game::Endfield(g) => g.extra_search_dirs(env),
            Game::ZenlessZoneZero(g) => g.extra_search_dirs(env),
        }
    }
}

/// The games that can be chosen on the command line.
#[derive(Clone, Copy, Debug, PartialEq, Eq, Structural)]
pub enum GameArg {
    /// Honkai: Star Rail
    Hsr,
    /// Genshin Impact
    Gi,
    /// Wuthering Waves
    Wuwa,
    /// Arknights: Endfield
    Endfield,
    /// Zenless Zone Zero
    Zzz,
}

impl GameArg {
    /// The game this choice stands for.
    pub fn into_game(self) -> (g: Game)
        ensures
            g == match self {
                GameArg::Hsr => Game::HonkaiStarRail(HonkaiStarRail),
                GameArg::Gi => Game::GenshinImpact(GenshinImpact),
                GameArg::Wuwa => Game::WutheringWaves(WutheringWaves),
                GameArg::Endfield => Game::Endfield(Endfield),
                GameArg::Zzz => Game::ZenlessZoneZero(ZenlessZoneZero),
            },
    {
        match self {
            GameArg::Hsr => Game::HonkaiStarRail(HonkaiStarRail),
            GameArg::Gi => Game::GenshinImpact(GenshinImpact),
            GameArg::Wuwa => Game::WutheringWaves(WutheringWaves),
            GameArg::Endfield => Game::Endfield(Endfield),
            GameArg::Zzz => Game::ZenlessZoneZero(ZenlessZoneZero),
        }
    }
}

/// The command line: the game to extract the URL for, and optionally a
/// search path to add to that game's configuration.
pub struct Cli {
    /// Which game to extract the URL for.
    pub game: GameArg,
    /// Add a search path to the config for this game, then exit.
    pub add_path: Option<String>,
}

/// The log files under `roots`, in the order they are searched: every log
/// path under the first root, then every one under the next.
pub open spec fn log_files(roots: Seq<Seq<char>>, logs: Seq<Seq<char>>) -> Seq<Seq<char>>
    decreases roots.len(),
{
    if roots.len() == 0 {
        Seq::empty()
    } else {
        log_files(roots.drop_last(), logs) + logs.map_values(
            |l: Seq<char>| path_join_spec(roots.last(), l),
        )
    }
}

/// The directories whose log files are searched: the game directory, then
/// the nested one inside it where the game has one and it exists.
pub open spec fn log_roots(game_dir: Seq<char>, nested: Option<Seq<char>>, nested_exists: bool) -> Seq<
    Seq<char>,
> {
    match nested {
        Some(d) if nested_exists => seq![game_dir, path_join_spec(game_dir, d)],
        _ => seq![game_dir],
    }
}

/// What the search of a game's log files does next.
#[derive(Debug)]
pub enum LogStep {
    /// Read this file and step again with its text (`None` where it can not
    /// be read).
    Read(String),
    /// The URL, the last match in the first file that holds one.
    Found(String),
    /// No log file holds a URL.
    NotFound,
}

/// The search of a game's log files for its history URL: the files are
/// read in order, and the first that holds a URL gives its last one.
pub struct LogSearch {
    grammar: LogGrammar,
    files: Vec<String>,
    next: usize,
}

impl LogSearch {
    #[verifier::type_invariant]
    spec fn well_formed(self) -> bool {
        self.next <= self.files@.len()
    }

    /// The grammar of the URL searched for.
    pub closed spec fn grammar(self) -> LogGrammar {
        self.grammar
    }

    /// The files to search, in order.
    pub closed spec fn files(self) -> Seq<Seq<char>> {
        self.files.deep_view()
    }

    /// How many files have been handed out.
    pub closed spec fn handed_out(self) -> int {
        self.next as int
    }

    /// Starts the search of the logs `log_paths` of grammar `grammar` under
    /// `game_dir` and, where `nested_dir` is given and `nested_exists` says
    /// that directory exists inside `game_dir`, under it too.
    pub fn new(
        grammar: LogGrammar,
        game_dir: &str,
        log_paths: &[&str],
        nested_dir: Option<&str>,
        nested_exists: bool,
    ) -> (search: Self)
        ensures
            search.grammar() == grammar,
            search.files() == log_files(
                log_roots(
                    game_dir@,
                    match nested_dir {
                        Some(d) => Some(d@),
                        None => None,
                    },
                    nested_exists,
                ),
                log_paths.deep_view(),
            ),
            search.handed_out() == 0,
    {
        let mut roots: Vec<String> = Vec::new();
        roots.push(game_dir.to_owned());
        match nested_dir {
            Some(d) => {
                if nested_exists {
                    roots.push(path_join(game_dir, d));
                }
            },
            None => {},
        }
        let ghost root_view = log_roots(
            game_dir@,
            match nested_dir {
                Some(d) => Some(d@),
                None => None,
            },
            nested_exists,
        );
        assert(roots.deep_view() =~= root_view);
        let ghost logs = log_paths.deep_view();
        let mut files: Vec<String> = Vec::new();
        let nr: usize = roots.len();
        let nl: usize = log_paths.len();
        let mut r: usize = 0;
        assert(root_view.take(0) =~= Seq::<Seq<char>>::empty());
        while r < nr
            invariant
                nr == roots@.len(),
                nl == log_paths@.len(),
                logs == log_paths.deep_view(),
                roots.deep_view() == root_view,
                r <= nr,
                files.deep_view() == log_files(root_view.take(r as int), logs),
            decreases nr - r,
        {
            let ghost before = files.deep_view();
            let root = roots[r].as_str();
            assert(root@ == root_view[r as int]);
            let mut l: usize = 0;
            while l < nl
                invariant
                    nl == log_paths@.len(),
                    logs == log_paths.deep_view(),
                    l <= nl,
                    files.deep_view() == before + logs.take(l as int).map_values(
                        |p: Seq<char>| path_join_spec(root@, p),
                    ),
                decreases nl - l,
            {
                let ghost prev = files.deep_view();
                files.push(path_join(root, log_paths[l]));
                assert(files.deep_view() =~= before + logs.take(l + 1).map_values(
                    |p: Seq<char>| path_join_spec(root@, p),
                )) by {
                    assert(files.deep_view() =~= prev.push(path_join_spec(root@, logs[l as int])));
                }
                l = l + 1;
            }
            assert(logs.take(nl as int) =~= logs);
            assert(root_view.take(r + 1).drop_last() =~= root_view.take(r as int));
            assert(root_view.take(r + 1).last() == root@);
            r = r + 1;
        }
        assert(root_view.take(nr as int) =~= root_view);
        LogSearch { grammar, files, next: 0 }
    }

    /// Takes the text of the file handed out last (`None` where it could not
    /// be read, and on the first call) and says what to do next.
    pub fn step(&mut self, contents: Option<&str>) -> (s: LogStep)
        ensures
            final(self).grammar() == old(self).grammar(),
            final(self).files() == old(self).files(),
            (contents matches Some(text) && exists|p: int| url_at(old(self).grammar(), text@, p))
                ==> {
                &&& s matches LogStep::Found(u) && exists|p: int|
                    is_last_match(old(self).grammar(), contents.unwrap()@, p) && u@
                        == contents.unwrap()@.subrange(p, run_end(contents.unwrap()@, p))
                &&& final(self).handed_out() == old(self).handed_out()
            },
            !(contents matches Some(text) && exists|p: int| url_at(old(self).grammar(), text@, p))
                ==> if old(self).handed_out() < old(self).files().len() {
                &&& s matches LogStep::Read(f) && f@ == old(self).files()[old(self).handed_out()]
                &&& final(self).handed_out() == old(self).handed_out() + 1
            } else {
                &&& s is NotFound
                &&& final(self).handed_out() == old(self).handed_out()
            },
    {
        proof {
            use_type_invariant(&*self);
        }
        match contents {
            Some(text) => match self.grammar.last_match(text) {
                Some(url) => {
                    return LogStep::Found(url);
                },
                None => {},
            },
            None => {},
        }
        if self.next < self.files.len() {
            let f = self.files[self.next].clone();
            self.next = self.next + 1;
            LogStep::Read(f)
        } else {
            LogStep::NotFound
        }
    }
}

/// Genshin Impact is keyed `gi` and keeps its history URL in the web cache:
/// URLs that contain `getGachaLog`, cut down to the query parameters
/// `authkey`, `authkey_ver`, `sign_type`, `game_biz` and `lang`, in that
/// order. It has no extra search directories.
pub proof fn lemma_genshin_impact(source: UrlSource, env: SearchEnv)
    ensures
        GenshinImpact.game_id() == "gi"@,
        Game::GenshinImpact(GenshinImpact).game_id() == "gi"@,
        GenshinImpact.is_source(source) || Game::GenshinImpact(GenshinImpact).is_source(source)
            ==> (source matches UrlSource::WebCache { url_patterns, retained_params }
            && url_patterns.deep_view() == seq!["getGachaLog"@]
            && retained_params.deep_view() == seq![
                "authkey"@,
                "authkey_ver"@,
                "sign_type"@,
                "game_biz"@,
                "lang"@,
            ]),
        GenshinImpact.extra_dirs(&env).len() == 0,
        Game::GenshinImpact(GenshinImpact).extra_dirs(&env).len() == 0,
{
}

/// Zenless Zone Zero is keyed `zzz` and keeps its history URL in the web
/// cache as Genshin Impact does: URLs that contain `getGachaLog`, cut down to
/// `authkey`, `authkey_ver`, `sign_type`, `game_biz` and `lang`. It has no
/// extra search directories.
pub proof fn lemma_zenless_zone_zero(source: UrlSource, env: SearchEnv)
    ensures
        ZenlessZoneZero.game_id() == "zzz"@,
        Game::ZenlessZoneZero(ZenlessZoneZero).game_id() == "zzz"@,
        ZenlessZoneZero.is_source(source) || Game::ZenlessZoneZero(ZenlessZoneZero).is_source(
            source,
        ) ==> (source matches UrlSource::WebCache { url_patterns, retained_params }
            && url_patterns.deep_view() == seq!["getGachaLog"@]
            && retained_params.deep_view() == seq![
                "authkey"@,
                "authkey_ver"@,
                "sign_type"@,
                "game_biz"@,
                "lang"@,
            ]),
        ZenlessZoneZero.extra_dirs(&env).len() == 0,
        Game::ZenlessZoneZero(ZenlessZoneZero).extra_dirs(&env).len() == 0,
{
}

/// Honkai: Star Rail is keyed `hsr` and keeps its history URL in the web
/// cache: URLs that contain `getGachaLog` or `getLdGachaLog`, cut down to
/// `authkey`, `authkey_ver`, `sign_type`, `game_biz` and `lang`.
pub proof fn lemma_honkai_star_rail_source(source: UrlSource)
    ensures
        HonkaiStarRail.game_id() == "hsr"@,
        Game::HonkaiStarRail(HonkaiStarRail).game_id() == "hsr"@,
        HonkaiStarRail.is_source(source) || Game::HonkaiStarRail(HonkaiStarRail).is_source(source)
            ==> (source matches UrlSource::WebCache { url_patterns, retained_params }
            && url_patterns.deep_view() == seq!["getGachaLog"@, "getLdGachaLog"@]
            && retained_params.deep_view() == seq![
                "authkey"@,
                "authkey_ver"@,
                "sign_type"@,
                "game_biz"@,
                "lang"@,
            ]),
{
}

/// Honkai: Star Rail's extra search directories: on Linux first the
/// compatibility data of Flatpak Steam, on Windows first the default Steam
/// and HoYoPlay folders, on other systems none of these; then, for every
/// Steam library in turn, that library's `steamapps/compatdata`.
pub proof fn lemma_honkai_star_rail_extra_dirs(env: SearchEnv)
    ensures
        ({
            let dirs = HonkaiStarRail.extra_dirs(&env);
            let libs = env.steam_libraries.deep_view();
            let fixed: int = if env.platform == Platform::Linux {
                1
            } else if env.platform == Platform::Windows {
                3
            } else {
                0
            };
            &&& dirs == Game::HonkaiStarRail(HonkaiStarRail).extra_dirs(&env)
            &&& dirs.len() == fixed + libs.len()
            &&& env.platform == Platform::Linux ==> dirs[0]
                == ".var/app/com.valvesoftware.Steam/.local/share/Steam/steamapps/compatdata"@
            &&& env.platform == Platform::Windows ==> dirs[0]
                == "C:\\Program Files (x86)\\Steam\\steamapps\\compatdata"@ && dirs[1]
                == "C:\\Program Files\\HoYoPlay\\games"@ && dirs[2]
                == "D:\\Program Files\\HoYoPlay\\games"@
            &&& forall|i: int|
                0 <= i < libs.len() ==> #[trigger] dirs[fixed + i] == path_join_spec(
                    libs[i],
                    "steamapps/compatdata"@,
                )
        }),
{
}

/// Wuthering Waves is keyed `wuwa` and logs its history URL: the last match
/// of its own grammar in `Client/Saved/Logs/Client.log`, else in the SDK
/// web view's `debug.log`, under the game directory and then under its
/// `Wuthering Waves Game` directory. It has no extra search directories.
pub proof fn lemma_wuthering_waves(source: UrlSource, env: SearchEnv)
    ensures
        WutheringWaves.game_id() == "wuwa"@,
        Game::WutheringWaves(WutheringWaves).game_id() == "wuwa"@,
        WutheringWaves.is_source(source) || Game::WutheringWaves(WutheringWaves).is_source(source)
            ==> (source matches UrlSource::GameLogs { grammar, log_paths, nested_dir }
            && grammar == LogGrammar::WutheringWaves && log_paths.deep_view() == seq![
                "Client/Saved/Logs/Client.log"@,
                "Client/Binaries/Win64/ThirdParty/KrPcSdk_Global/KRSDKRes/KRSDKWebView/debug.log"@,
            ] && (nested_dir matches Some(d) && d@ == "Wuthering Waves Game"@)),
        WutheringWaves.extra_dirs(&env).len() == 0,
        Game::WutheringWaves(WutheringWaves).extra_dirs(&env).len() == 0,
{
}

/// Arknights: Endfield is keyed `endfield` and logs its history URL: the
/// last match of the Endfield grammar in `sdklogs/HGWebview.log` under the
/// game directory, with no nested directory.
pub proof fn lemma_endfield_source(source: UrlSource)
    ensures
        Endfield.game_id() == "endfield"@,
        Game::Endfield(Endfield).game_id() == "endfield"@,
        Endfield.is_source(source) || Game::Endfield(Endfield).is_source(source)
            ==> (source matches UrlSource::GameLogs { grammar, log_paths, nested_dir }
            && grammar == LogGrammar::Endfield && log_paths.deep_view() == seq![
                "sdklogs/HGWebview.log"@,
            ] && nested_dir is None),
{
}

/// Arknights: Endfield's extra search directories: on Windows with a user
/// profile `p`, the `Gryphline` and then the `Hypergryph` folder of
/// `p\AppData\LocalLow`; otherwise none.
pub proof fn lemma_endfield_extra_dirs(env: SearchEnv)
    ensures
        Endfield.extra_dirs(&env) == Game::Endfield(Endfield).extra_dirs(&env),
        env.platform == Platform::Windows && env.user_profile is Some ==> {
            let p = env.user_profile->0@;
            let local_low = path_join_spec(p, "AppData\\LocalLow"@);
            &&& Endfield.extra_dirs(&env).len() == 2
            &&& Endfield.extra_dirs(&env)[0] == path_join_spec(local_low, "Gryphline"@)
            &&& Endfield.extra_dirs(&env)[1] == path_join_spec(local_low, "Hypergryph"@)
        },
        !(env.platform == Platform::Windows && env.user_profile is Some) ==> Endfield.extra_dirs(
            &env,
        ).len() == 0,
{
}

} // verus!
