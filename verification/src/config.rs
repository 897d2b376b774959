//! Per-game search configuration.
use vstd::prelude::*;

use crate::game::{GachaGame, SearchEnv};
use crate::text::{ascii_lower, chars_of, contains_chars, contains_seq, lower_chars, occurs_at};

verus! {

/// Where to look for one game's data.
pub struct GameConfig {
    /// Display name used in messages.
    pub name: String,
    /// Directories to search; relative ones are taken from the home directory.
    pub search_dirs: Vec<String>,
    /// Substrings that, compared without regard to ASCII case, mark a
    /// directory as belonging to the game.
    pub path_hints: Vec<String>,
}

impl GameConfig {
    /// Some hint occurs in `path`, both taken in ASCII lower case.
    pub open spec fn hint_in_path(&self, path: Seq<char>) -> bool {
        exists|j: int|
            0 <= j < self.path_hints@.len() && contains_seq(
                ascii_lower(path),
                ascii_lower(#[trigger] self.path_hints@[j]@),
            )
    }

    /// Returns `true` if `path` looks like it belongs to this game.
    pub fn matches_path(&self, path: &str) -> (b: bool)
        ensures
            b == self.hint_in_path(path@),
    {
        let path_chars = chars_of(path);
        let lower = lower_chars(path_chars.as_slice());
        let n: usize = self.path_hints.len();
        let mut j: usize = 0;
        while j < n
            invariant
                n == self.path_hints@.len(),
                j <= n,
                lower@ == ascii_lower(path@),
                forall|k: int|
                    0 <= k < j ==> !contains_seq(
                        ascii_lower(path@),
                        ascii_lower(#[trigger] self.path_hints@[k]@),
                    ),
            decreases n - j,
        {
            let hint_chars = chars_of(self.path_hints[j].as_str());
            let hint_lower = lower_chars(hint_chars.as_slice());
            if contains_chars(lower.as_slice(), hint_lower.as_slice()) {
                assert(contains_seq(ascii_lower(path@), ascii_lower(self.path_hints@[j as int]@)));
                return true;
            }
            j = j + 1;
        }
        false
    }
}

/// Whether `std::path::Path::is_absolute` holds of the path `p`, on the
/// platform the program is built for (on Unix: `p` starts with `/`; on
/// Windows: it has a drive or UNC prefix and a root). The name is fixed per
/// build target, not per machine of that target.
pub uninterp spec fn path_is_absolute_spec(p: Seq<char>) -> bool;

/// The text of `std::path::Path::join(base, p)` on the platform the program
/// is built for. The name is fixed per build target.
pub uninterp spec fn path_join_spec(base: Seq<char>, p: Seq<char>) -> Seq<char>;

/// Calls `std::path::Path::is_absolute` on `p`.
#[verifier::external_body]
fn path_is_absolute(p: &str) -> (b: bool)
    ensures
        b == path_is_absolute_spec(p@),
{
    std::path::Path::new(p).is_absolute()
}

/// Calls `std::path::Path::join` and returns the joined path as text; both
/// parts are text, so the join is text too and nothing is lost.
#[verifier::external_body]
pub(crate) fn path_join(base: &str, p: &str) -> (r: String)
    ensures
        r@ == path_join_spec(base@, p@),
{
    std::path::Path::new(base).join(p).to_string_lossy().into_owned()
}

/// A search directory as it is searched: an absolute one as it is, a
/// relative one taken from the home directory `home`.
pub open spec fn resolved_dir(home: Seq<char>, dir: Seq<char>) -> Seq<char> {
    if path_is_absolute_spec(dir) {
        dir
    } else {
        path_join_spec(home, dir)
    }
}

/// Appends the directories `dirs` to `r`, each resolved as [`resolved_dir`] says.
fn push_resolved(r: &mut Vec<String>, dirs: &Vec<String>, home: &str)
    ensures
        final(r).deep_view() == old(r).deep_view() + dirs.deep_view().map_values(
            |d: Seq<char>| resolved_dir(home@, d),
        ),
{
    let ghost start = r.deep_view();
    let ghost all = dirs.deep_view();
    let n: usize = dirs.len();
    let mut i: usize = 0;
    assert(start + all.take(0).map_values(|d: Seq<char>| resolved_dir(home@, d)) =~= start);
    while i < n
        invariant
            n == dirs@.len(),
            all == dirs.deep_view(),
            i <= n,
            start == old(r).deep_view(),
            r.deep_view() == start + all.take(i as int).map_values(
                |d: Seq<char>| resolved_dir(home@, d),
            ),
        decreases n - i,
    {
        let d = dirs[i].as_str();
        assert(d@ == all[i as int]);
        let ghost before = r.deep_view();
        if path_is_absolute(d) {
            r.push(d.to_owned());
        } else {
            r.push(path_join(home, d));
        }
        assert(r.deep_view() =~= start + all.take(i + 1).map_values(
            |d: Seq<char>| resolved_dir(home@, d),
        )) by {
            assert(r.deep_view() =~= before.push(resolved_dir(home@, all[i as int])));
        }
        i = i + 1;
    }
    assert(all.take(n as int) =~= all);
}

/// The directories searched for a game: those of its configuration, then its
/// extra directories `extra`, each resolved as [`resolved_dir`] says.
pub fn merged_search_dirs(config: &GameConfig, extra: &Vec<String>, home: &str) -> (r: Vec<String>)
    ensures
        r.deep_view() == (config.search_dirs.deep_view() + extra.deep_view()).map_values(
            |d: Seq<char>| resolved_dir(home@, d),
        ),
{
    let mut r: Vec<String> = Vec::new();
    assert(r.deep_view() =~= Seq::<Seq<char>>::empty());
    push_resolved(&mut r, &config.search_dirs, home);
    push_resolved(&mut r, extra, home);
    assert(r.deep_view() =~= (config.search_dirs.deep_view() + extra.deep_view()).map_values(
        |d: Seq<char>| resolved_dir(home@, d),
    ));
    r
}

/// A failed configuration lookup.
#[derive(Debug)]
pub enum ConfigError {
    /// The configuration has no entry for the game with this id.
    NoGameConfig(String),
}

/// The configuration of all games, keyed by game id.
pub struct Config {
    entries: Vec<(String, GameConfig)>,
}

impl Config {
    /// No id occurs twice.
    #[verifier::type_invariant]
    spec fn ids_distinct(self) -> bool {
        forall|i: int, j: int|
            0 <= i < self.entries@.len() && 0 <= j < self.entries@.len() && i != j
                ==> #[trigger] self.entries@[i].0@ != #[trigger] self.entries@[j].0@
    }

    spec fn has_id(self, id: Seq<char>) -> bool {
        exists|i: int| 0 <= i < self.entries@.len() && #[trigger] self.entries@[i].0@ == id
    }

    spec fn index_of(self, id: Seq<char>) -> int {
        choose|i: int| 0 <= i < self.entries@.len() && #[trigger] self.entries@[i].0@ == id
    }

    /// The configuration as a map from game id to that game's configuration.
    pub closed spec fn games(self) -> Map<Seq<char>, GameConfig> {
        Map::new(|id: Seq<char>| self.has_id(id), |id: Seq<char>| self.entries@[self.index_of(id)].1)
    }

    proof fn lemma_entry(self, i: int)
        requires
            self.ids_distinct(),
            0 <= i < self.entries@.len(),
        ensures
            self.games().contains_key(self.entries@[i].0@),
            self.games()[self.entries@[i].0@] == self.entries@[i].1,
    {
        let id = self.entries@[i].0@;
        assert(self.has_id(id));
        let k = self.index_of(id);
        assert(self.entries@[k].0@ == id);
    }

    /// An empty configuration.
    pub fn new() -> (c: Self)
        ensures
            c@ == Map::<Seq<char>, GameConfig>::empty(),
    {
        let c = Config { entries: Vec::new() };
        assert(c@ =~= Map::<Seq<char>, GameConfig>::empty());
        c
    }

    /// Records `game` under `id`, replacing any configuration the id had.
    pub fn insert(&mut self, id: String, game: GameConfig)
        ensures
            final(self)@ == old(self)@.insert(id@, game),
    {
        proof {
            use_type_invariant(&*self);
        }
        let ghost before = *self;
        let n: usize = self.entries.len();
        let mut i: usize = 0;
        while i < n
            invariant
                n == self.entries@.len(),
                i <= n,
                *self == before,
                before == *old(self),
                before.ids_distinct(),
                forall|k: int| 0 <= k < i ==> self.entries@[k].0@ != id@,
            decreases n - i,
        {
            if self.entries[i].0 == id {
                let mut entries: Vec<(String, GameConfig)> = Vec::new();
                std::mem::swap(&mut entries, &mut self.entries);
                entries.set(i, (id, game));
                proof {
                    assert forall|a: int, b: int|
                        0 <= a < entries@.len() && 0 <= b < entries@.len() && a != b
                            implies #[trigger] entries@[a].0@ != #[trigger] entries@[b].0@ by {
                        assert(before.entries@[a].0@ != before.entries@[b].0@);
                        assert(before.entries@[i as int].0@ == id@);
                        if a == i {
                            assert(before.entries@[i as int].0@ != before.entries@[b].0@);
                        }
                        if b == i {
                            assert(before.entries@[i as int].0@ != before.entries@[a].0@);
                        }
                    }
                }
                self.entries = entries;
                proof {
                    assert forall|k: Seq<char>| #[trigger]
                        self@.contains_key(k) == before@.insert(id@, game).contains_key(k) by {
                        if before.has_id(k) {
                            let j = before.index_of(k);
                            assert(self.entries@[j].0@ == k);
                        }
                        if self.has_id(k) {
                            let j = self.index_of(k);
                            if j != i {
                                assert(before.entries@[j].0@ == k);
                            }
                        }
                    }
                    assert forall|k: Seq<char>| #[trigger] self@.contains_key(k) implies self@[k]
                        == before@.insert(id@, game)[k] by {
                        let j = self.index_of(k);
                        self.lemma_entry(j);
                        if j != i {
                            before.lemma_entry(j);
                        }
                    }
                    assert(self@ =~= before@.insert(id@, game));
                }
                return;
            }
            i = i + 1;
        }
        let ghost new_id = id@;
        let mut entries: Vec<(String, GameConfig)> = Vec::new();
        std::mem::swap(&mut entries, &mut self.entries);
        entries.push((id, game));
        proof {
            assert forall|a: int, b: int|
                0 <= a < entries@.len() && 0 <= b < entries@.len() && a != b
                    implies #[trigger] entries@[a].0@ != #[trigger] entries@[b].0@ by {
                if a < n && b < n {
                    assert(before.entries@[a].0@ != before.entries@[b].0@);
                }
            }
        }
        self.entries = entries;
        proof {
            assert forall|k: Seq<char>| #[trigger]
                self@.contains_key(k) == before@.insert(new_id, game).contains_key(k) by {
                if before.has_id(k) {
                    let j = before.index_of(k);
                    assert(self.entries@[j].0@ == k);
                }
                if k == new_id {
                    assert(self.entries@[n as int].0@ == k);
                }
                if self.has_id(k) {
                    let j = self.index_of(k);
                    if j != n {
                        assert(before.entries@[j].0@ == k);
                    }
                }
            }
            assert forall|k: Seq<char>| #[trigger] self@.contains_key(k) implies self@[k]
                == before@.insert(new_id, game)[k] by {
                let j = self.index_of(k);
                self.lemma_entry(j);
                if j != n {
                    before.lemma_entry(j);
                }
            }
            assert(self@ =~= before@.insert(new_id, game));
        }
    }

    /// The configuration of the game `id`.
    pub fn game_config(&self, id: &str) -> (r: Result<&GameConfig, ConfigError>)
        ensures
            r is Ok <==> self@.contains_key(id@),
            r matches Ok(game) ==> *game == self@[id@],
            r matches Err(e) ==> e matches ConfigError::NoGameConfig(missing) && missing@ == id@,
    {
        proof {
            use_type_invariant(self);
        }
        let key = id.to_owned();
        let n: usize = self.entries.len();
        let mut i: usize = 0;
        while i < n
            invariant
                n == self.entries@.len(),
                i <= n,
                key@ == id@,
                self.ids_distinct(),
                forall|k: int| 0 <= k < i ==> self.entries@[k].0@ != id@,
            decreases n - i,
        {
            if self.entries[i].0 == key {
                proof {
                    self.lemma_entry(i as int);
                }
                return Ok(&self.entries[i].1);
            }
            i = i + 1;
        }
        Err(ConfigError::NoGameConfig(key))
    }

    /// The directories searched for `game`: those of its configuration, then
    /// its extra directories on the machine `env`, each resolved against the
    /// home directory `home` as [`resolved_dir`] says. Which of them exist
    /// is left to the caller.
    pub fn search_dirs_for<G: GachaGame>(&self, game: &G, env: &SearchEnv, home: &str) -> (r: Result<
        Vec<String>,
        ConfigError,
    >)
        ensures
            r is Ok <==> self@.contains_key(game.game_id()),
            r matches Ok(dirs) ==> dirs.deep_view() == (self@[game.game_id()].search_dirs.deep_view()
                + game.extra_dirs(env)).map_values(|d: Seq<char>| resolved_dir(home@, d)),
            r matches Err(e) ==> e matches ConfigError::NoGameConfig(missing) && missing@
                == game.game_id(),
    {
        let config = self.game_config(game.id())?;
        let extra = game.extra_search_dirs(env);
        Ok(merged_search_dirs(config, &extra, home))
    }
}

impl View for Config {
    type V = Map<Seq<char>, GameConfig>;

    closed spec fn view(&self) -> Map<Seq<char>, GameConfig> {
        self.games()
    }
}

/// Whether a path belongs to a game does not depend on the ASCII case of
/// the path: two paths that agree once lower-cased match the same hints.
pub proof fn lemma_hint_match_ignores_ascii_case(config: GameConfig, p: Seq<char>, q: Seq<char>)
    requires
        ascii_lower(p) == ascii_lower(q),
    ensures
        config.hint_in_path(p) == config.hint_in_path(q),
{
}

/// More path hints never lose a match: where every hint of `fewer` is also a
/// hint of `more`, a path that belongs to the game by `fewer` belongs to it
/// by `more` too.
pub proof fn lemma_more_hints_keep_match(fewer: GameConfig, more: GameConfig, path: Seq<char>)
    requires
        forall|i: int|
            0 <= i < fewer.path_hints@.len() ==> exists|j: int|
                0 <= j < more.path_hints@.len() && #[trigger] more.path_hints@[j]@
                    == #[trigger] fewer.path_hints@[i]@,
    ensures
        fewer.hint_in_path(path) ==> more.hint_in_path(path),
{
    if fewer.hint_in_path(path) {
        let i = choose|i: int|
            0 <= i < fewer.path_hints@.len() && contains_seq(
                ascii_lower(path),
                ascii_lower(#[trigger] fewer.path_hints@[i]@),
            );
        let j = choose|j: int|
            0 <= j < more.path_hints@.len() && #[trigger] more.path_hints@[j]@
                == fewer.path_hints@[i]@;
        assert(contains_seq(ascii_lower(path), ascii_lower(more.path_hints@[j]@)));
    }
}

/// A match on a directory carries over to every path below it: a path whose
/// text begins with the text of a matching path matches too.
pub proof fn lemma_match_extends(config: GameConfig, dir: Seq<char>, below: Seq<char>)
    requires
        dir.is_prefix_of(below),
    ensures
        config.hint_in_path(dir) ==> config.hint_in_path(below),
{
    if config.hint_in_path(dir) {
        let j = choose|j: int|
            0 <= j < config.path_hints@.len() && contains_seq(
                ascii_lower(dir),
                ascii_lower(#[trigger] config.path_hints@[j]@),
            );
        let pat = ascii_lower(config.path_hints@[j]@);
        let i = choose|i: int| occurs_at(ascii_lower(dir), pat, i);
        let lo = ascii_lower(dir);
        let hi = ascii_lower(below);
        assert(lo =~= hi.subrange(0, dir.len() as int));
        assert(hi.subrange(i, i + pat.len()) =~= lo.subrange(i, i + pat.len()));
        assert(occurs_at(hi, pat, i));
    }
}

/// Looking a game up after recording its configuration gives back what was
/// recorded, and every other game keeps what it had.
pub proof fn lemma_game_config_after_insert(
    config: Config,
    id: Seq<char>,
    game: GameConfig,
    other: Seq<char>,
)
    requires
        other != id,
    ensures
        config@.insert(id, game).contains_key(id),
        config@.insert(id, game)[id] == game,
        config@.insert(id, game).contains_key(other) == config@.contains_key(other),
        config@.contains_key(other) ==> config@.insert(id, game)[other] == config@[other],
{
}

} // verus!
