//! Recognising history URLs in game log files.
//!
//! Each game writes the URL into a text log; the URL is recognised by a small
//! grammar and the most recent (last) occurrence in the log is the one that
//! counts.  Every URL is a run of characters that are neither whitespace nor
//! `"`, so a URL always ends where such a run ends.
use vstd::prelude::*;
use vstd::slice::slice_subrange;

use crate::text::{
    chars_of, find_from, is_unicode_whitespace, is_whitespace, occurs_at, occurs_at_exec,
    string_of,
};

verus! {

/// The log grammars the games use for their history URLs.
#[derive(Clone, Copy, Debug, PartialEq, Eq, Structural)]
pub enum LogGrammar {
    /// Arknights: Endfield, whose SDK web view logs
    /// `https://…​.gryphline.com/…​token…​server…`.
    Endfield,
    /// Wuthering Waves, whose client logs
    /// `https://aki-gm-resources[-oversea].aki-game.(net|com)/aki/gacha/index.html#/record…`.
    WutheringWaves,
}

/// Characters that can not be part of a URL: whitespace and `"`.
pub open spec fn is_url_delimiter(c: char) -> bool {
    is_unicode_whitespace(c) || c == '"'
}

/// The end of the run of URL characters that contains index `i`: the first
/// index at or after `i` that holds a delimiter, or the length of `s`.
pub open spec fn run_end(s: Seq<char>, i: int) -> int
    decreases s.len() - i,
{
    if i >= s.len() {
        s.len() as int
    } else if is_url_delimiter(s[i]) {
        i
    } else {
        run_end(s, i + 1)
    }
}

/// `https://` at `p`, then at least one character, `.gryphline.com/` at `a`,
/// at least one character, `token` at `b`, at least one character, `server`
/// at `c` and at least one more character, all in the run of `p`.
pub open spec fn endfield_pieces(s: Seq<char>, p: int, a: int, b: int, c: int) -> bool {
    &&& occurs_at(s, "https://"@, p)
    &&& p + "https://"@.len() < a
    &&& occurs_at(s, ".gryphline.com/"@, a)
    &&& a + ".gryphline.com/"@.len() < b
    &&& occurs_at(s, "token"@, b)
    &&& b + "token"@.len() < c
    &&& occurs_at(s, "server"@, c)
    &&& c + "server"@.len() < run_end(s, p)
}

/// An Endfield history URL starts at `p`.
pub open spec fn endfield_url_at(s: Seq<char>, p: int) -> bool {
    exists|a: int, b: int, c: int| #[trigger] endfield_pieces(s, p, a, b, c)
}

/// The part of a Wuthering Waves URL after the optional `-oversea`, at `r`.
pub open spec fn wuwa_host_at(s: Seq<char>, r: int) -> bool {
    &&& occurs_at(s, ".aki-game."@, r)
    &&& (occurs_at(s, "net"@, r + ".aki-game."@.len()) || occurs_at(
        s,
        "com"@,
        r + ".aki-game."@.len(),
    ))
    &&& occurs_at(s, "/aki/gacha/index.html#/record"@, r + ".aki-game."@.len() + "net"@.len())
}

/// A Wuthering Waves history URL starts at `p`.
pub open spec fn wuwa_url_at(s: Seq<char>, p: int) -> bool {
    &&& occurs_at(s, "https://aki-gm-resources"@, p)
    &&& {
        let q = p + "https://aki-gm-resources"@.len();
        ||| wuwa_host_at(s, q)
        ||| occurs_at(s, "-oversea"@, q) && wuwa_host_at(s, q + "-oversea"@.len())
    }
}

/// A URL of grammar `g` starts at `p`; it then spans `p .. run_end(s, p)`.
pub open spec fn url_at(g: LogGrammar, s: Seq<char>, p: int) -> bool {
    match g {
        LogGrammar::Endfield => endfield_url_at(s, p),
        LogGrammar::WutheringWaves => wuwa_url_at(s, p),
    }
}

/// No delimiter stands in `s[q..p]`: `q` and `p` lie in one run.
pub open spec fn same_run(s: Seq<char>, q: int, p: int) -> bool {
    &&& 0 <= q <= p
    &&& forall|k: int| q <= k < p ==> !is_url_delimiter(#[trigger] s[k])
}

/// A match that a left-to-right search reports: the leftmost start of a URL
/// in its run (a search resumes after the end of each match, which is the
/// end of the run).
pub open spec fn reported(g: LogGrammar, s: Seq<char>, p: int) -> bool {
    &&& url_at(g, s, p)
    &&& forall|q: int| #[trigger] same_run(s, q, p) && q < p ==> !url_at(g, s, q)
}

/// `p` is where the last reported match starts.
pub open spec fn is_last_match(g: LogGrammar, s: Seq<char>, p: int) -> bool {
    &&& reported(g, s, p)
    &&& forall|q: int| p < q ==> !#[trigger] reported(g, s, q)
}

/// The literal pieces of both grammars, as characters.
struct Literals {
    https: Vec<char>,
    gryphline: Vec<char>,
    token: Vec<char>,
    server: Vec<char>,
    aki_resources: Vec<char>,
    oversea: Vec<char>,
    aki_game: Vec<char>,
    net: Vec<char>,
    com: Vec<char>,
    record: Vec<char>,
}

impl Literals {
    spec fn wf(&self) -> bool {
        &&& self.https@ == "https://"@
        &&& self.gryphline@ == ".gryphline.com/"@
        &&& self.token@ == "token"@
        &&& self.server@ == "server"@
        &&& self.aki_resources@ == "https://aki-gm-resources"@
        &&& self.oversea@ == "-oversea"@
        &&& self.aki_game@ == ".aki-game."@
        &&& self.net@ == "net"@
        &&& self.com@ == "com"@
        &&& self.record@ == "/aki/gacha/index.html#/record"@
    }

    fn new() -> (l: Self)
        ensures
            l.wf(),
    {
        Literals {
            https: chars_of("https://"),
            gryphline: chars_of(".gryphline.com/"),
            token: chars_of("token"),
            server: chars_of("server"),
            aki_resources: chars_of("https://aki-gm-resources"),
            oversea: chars_of("-oversea"),
            aki_game: chars_of(".aki-game."),
            net: chars_of("net"),
            com: chars_of("com"),
            record: chars_of("/aki/gacha/index.html#/record"),
        }
    }
}

proof fn reveal_literals()
    ensures
        "https://"@ =~= seq!['h', 't', 't', 'p', 's', ':', '/', '/'],
        ".gryphline.com/"@.len() == 15,
        "token"@.len() == 5,
        "server"@.len() == 6,
        "https://aki-gm-resources"@.len() == 24,
        "https://aki-gm-resources"@[0] == 'h',
        "-oversea"@.len() == 8,
        ".aki-game."@.len() == 10,
        "net"@.len() == 3,
        "com"@.len() == 3,
        "/aki/gacha/index.html#/record"@.len() == 29,
{
    reveal_strlit("https://");
    reveal_strlit(".gryphline.com/");
    reveal_strlit("token");
    reveal_strlit("server");
    reveal_strlit("https://aki-gm-resources");
    reveal_strlit("-oversea");
    reveal_strlit(".aki-game.");
    reveal_strlit("net");
    reveal_strlit("com");
    reveal_strlit("/aki/gacha/index.html#/record");
}

/// Executable [`is_url_delimiter`].
fn is_delimiter(c: char) -> (b: bool)
    ensures
        b == is_url_delimiter(c),
{
    c == '"' || is_whitespace(c)
}

/// A run of non-delimiters from `i` up to `j` that stops at a delimiter (or
/// at the end) ends at `j`, wherever in it one starts.
proof fn lemma_run_end(s: Seq<char>, i: int, j: int)
    requires
        0 <= i <= j <= s.len(),
        forall|k: int| i <= k < j ==> !is_url_delimiter(#[trigger] s[k]),
        j == s.len() || is_url_delimiter(s[j]),
    ensures
        run_end(s, i) == j,
    decreases j - i,
{
    if i < j {
        lemma_run_end(s, i + 1, j);
    }
}

/// Whether a URL of grammar `g` starts at `p`, whose run ends at `e`.
fn url_starts_at(g: LogGrammar, lits: &Literals, s: &[char], p: usize, e: usize) -> (b: bool)
    requires
        lits.wf(),
        p <= e <= s@.len(),
        e == run_end(s@, p as int),
    ensures
        b == url_at(g, s@, p as int),
{
    proof {
        reveal_literals();
    }
    match g {
        LogGrammar::Endfield => endfield_starts_at(lits, s, p, e),
        LogGrammar::WutheringWaves => wuwa_starts_at(lits, s, p),
    }
}

fn endfield_starts_at(lits: &Literals, s: &[char], p: usize, e: usize) -> (b: bool)
    requires
        lits.wf(),
        p <= e <= s@.len(),
        e == run_end(s@, p as int),
    ensures
        b == endfield_url_at(s@, p as int),
{
    proof {
        reveal_literals();
    }
    if !occurs_at_exec(s, lits.https.as_slice(), p) {
        return false;
    }
    let n: usize = s.len();
    if e - p < 9 {
        assert(!endfield_url_at(s@, p as int));
        return false;
    }
    let a = match find_from(s, lits.gryphline.as_slice(), p + 9, e) {
        Some(a) => a,
        None => {
            assert(!endfield_url_at(s@, p as int)) by {
                if endfield_url_at(s@, p as int) {
                    let (a, b, c) = choose|a: int, b: int, c: int| endfield_pieces(s@, p as int, a, b, c);
                    assert(occurs_at(s@, lits.gryphline@, a));
                }
            }
            return false;
        },
    };
    if e - a <= 15 {
        assert(!endfield_url_at(s@, p as int)) by {
            if endfield_url_at(s@, p as int) {
                let (a2, b2, c2) = choose|a: int, b: int, c: int| endfield_pieces(s@, p as int, a, b, c);
                assert(occurs_at(s@, lits.gryphline@, a2));
            }
        }
        return false;
    }
    let b = match find_from(s, lits.token.as_slice(), a + 16, e) {
        Some(b) => b,
        None => {
            assert(!endfield_url_at(s@, p as int)) by {
                if endfield_url_at(s@, p as int) {
                    let (a2, b2, c2) = choose|a: int, b: int, c: int| endfield_pieces(s@, p as int, a, b, c);
                    assert(occurs_at(s@, lits.gryphline@, a2));
                    assert(a <= a2);
                    assert(occurs_at(s@, lits.token@, b2));
                }
            }
            return false;
        },
    };
    if e - b <= 5 {
        assert(!endfield_url_at(s@, p as int)) by {
            if endfield_url_at(s@, p as int) {
                let (a2, b2, c2) = choose|a: int, b: int, c: int| endfield_pieces(s@, p as int, a, b, c);
                assert(occurs_at(s@, lits.gryphline@, a2));
                assert(occurs_at(s@, lits.token@, b2));
            }
        }
        return false;
    }
    let c = match find_from(s, lits.server.as_slice(), b + 6, e) {
        Some(c) => c,
        None => {
            assert(!endfield_url_at(s@, p as int)) by {
                if endfield_url_at(s@, p as int) {
                    let (a2, b2, c2) = choose|a: int, b: int, c: int| endfield_pieces(s@, p as int, a, b, c);
                    assert(occurs_at(s@, lits.gryphline@, a2));
                    assert(a <= a2);
                    assert(occurs_at(s@, lits.token@, b2));
                    assert(b <= b2);
                    assert(occurs_at(s@, lits.server@, c2));
                }
            }
            return false;
        },
    };
    if e - c > 6 {
        assert(endfield_pieces(s@, p as int, a as int, b as int, c as int));
        true
    } else {
        assert(!endfield_url_at(s@, p as int)) by {
            if endfield_url_at(s@, p as int) {
                let (a2, b2, c2) = choose|a: int, b: int, c: int| endfield_pieces(s@, p as int, a, b, c);
                assert(occurs_at(s@, lits.gryphline@, a2));
                assert(a <= a2);
                assert(occurs_at(s@, lits.token@, b2));
                assert(b <= b2);
                assert(occurs_at(s@, lits.server@, c2));
                assert(c <= c2);
            }
        }
        false
    }
}

fn wuwa_host_starts_at(lits: &Literals, s: &[char], r: usize) -> (b: bool)
    requires
        lits.wf(),
        r <= s@.len(),
    ensures
        b == wuwa_host_at(s@, r as int),
{
    proof {
        reveal_literals();
    }
    let n: usize = s.len();
    if !occurs_at_exec(s, lits.aki_game.as_slice(), r) {
        return false;
    }
    let t = r + 10;
    (occurs_at_exec(s, lits.net.as_slice(), t) || occurs_at_exec(s, lits.com.as_slice(), t))
        && occurs_at_exec(s, lits.record.as_slice(), t + 3)
}

fn wuwa_starts_at(lits: &Literals, s: &[char], p: usize) -> (b: bool)
    requires
        lits.wf(),
        p <= s@.len(),
    ensures
        b == wuwa_url_at(s@, p as int),
{
    proof {
        reveal_literals();
    }
    let n: usize = s.len();
    if !occurs_at_exec(s, lits.aki_resources.as_slice(), p) {
        return false;
    }
    let q = p + 24;
    wuwa_host_starts_at(lits, s, q) || (occurs_at_exec(s, lits.oversea.as_slice(), q)
        && wuwa_host_starts_at(lits, s, q + 8))
}

/// Every URL of either grammar starts with `h`, inside the text.
proof fn lemma_url_at_start(g: LogGrammar, s: Seq<char>, p: int)
    requires
        url_at(g, s, p),
    ensures
        0 <= p < s.len(),
        s[p] == 'h',
        !is_url_delimiter(s[p]),
{
    reveal_literals();
    reveal_strlit("https://aki-gm-resources");
    match g {
        LogGrammar::Endfield => {
            let (a, b, c) = choose|a: int, b: int, c: int| endfield_pieces(s, p, a, b, c);
            assert(s.subrange(p, p + 8)[0] == s[p]);
        },
        LogGrammar::WutheringWaves => {
            assert(s.subrange(p, p + 24)[0] == s[p]);
        },
    }
}

/// The first start of a URL in `s[i..e]`, a stretch of one run that ends at `e`.
fn first_url_in_run(g: LogGrammar, lits: &Literals, s: &[char], i: usize, e: usize) -> (r: Option<
    usize,
>)
    requires
        lits.wf(),
        i <= e <= s@.len(),
        forall|k: int| i <= k < e ==> !is_url_delimiter(#[trigger] s@[k]),
        e == s@.len() || is_url_delimiter(s@[e as int]),
    ensures
        r matches Some(p) ==> {
            &&& i <= p < e
            &&& url_at(g, s@, p as int)
            &&& forall|j: int| i <= j < p ==> !url_at(g, s@, j)
        },
        r is None ==> forall|j: int| i <= j < e ==> !url_at(g, s@, j),
{
    let mut q: usize = i;
    while q < e
        invariant
            lits.wf(),
            i <= q <= e <= s@.len(),
            forall|k: int| i <= k < e ==> !is_url_delimiter(#[trigger] s@[k]),
            e == s@.len() || is_url_delimiter(s@[e as int]),
            forall|j: int| i <= j < q ==> !url_at(g, s@, j),
        decreases e - q,
    {
        proof {
            lemma_run_end(s@, q as int, e as int);
        }
        if url_starts_at(g, lits, s, q, e) {
            return Some(q);
        }
        q = q + 1;
    }
    None
}

/// The span `(p, e)` of the last reported URL of grammar `g` in `s`.
fn last_url_span(g: LogGrammar, lits: &Literals, s: &[char]) -> (r: Option<(usize, usize)>)
    requires
        lits.wf(),
    ensures
        r is None <==> forall|p: int| !url_at(g, s@, p),
        r matches Some((p, e)) ==> {
            &&& is_last_match(g, s@, p as int)
            &&& e == run_end(s@, p as int)
            &&& p < e <= s@.len()
        },
{
    let n: usize = s.len();
    let mut i: usize = 0;
    let mut found: Option<(usize, usize)> = None;
    while i < n
        invariant
            lits.wf(),
            n == s@.len(),
            i <= n,
            0 < i < n ==> is_url_delimiter(s@[i - 1]),
            found is None ==> forall|q: int| q < i ==> !url_at(g, s@, q),
            found matches Some((p, e)) ==> {
                &&& reported(g, s@, p as int)
                &&& e == run_end(s@, p as int)
                &&& p < e <= i
                &&& forall|q: int| p < q < i ==> !reported(g, s@, q)
            },
        decreases n - i,
    {
        if is_delimiter(s[i]) {
            proof {
                if url_at(g, s@, i as int) {
                    lemma_url_at_start(g, s@, i as int);
                }
            }
            i = i + 1;
        } else {
            let mut e: usize = i;
            while e < n && !is_delimiter(s[e])
                invariant
                    n == s@.len(),
                    i <= e <= n,
                    forall|k: int| i <= k < e ==> !is_url_delimiter(#[trigger] s@[k]),
                decreases n - e,
            {
                e = e + 1;
            }
            let hit = first_url_in_run(g, lits, s, i, e);
            let ghost old_found = found;
            match hit {
                Some(p) => {
                    proof {
                        lemma_run_end(s@, p as int, e as int);
                        assert forall|q: int| #[trigger]
                            same_run(s@, q, p as int) && q < p implies !url_at(g, s@, q) by {
                            if q < i {
                                assert(!is_url_delimiter(s@[i - 1]));
                            }
                        }
                        assert forall|q: int| p < q < e + 1 implies !reported(g, s@, q) by {
                            if q < e {
                                assert(same_run(s@, p as int, q));
                            } else if url_at(g, s@, q) {
                                lemma_url_at_start(g, s@, q);
                            }
                        }
                    }
                    found = Some((p, e));
                },
                None => {
                    proof {
                        assert forall|q: int| i <= q < e + 1 implies !url_at(g, s@, q) by {
                            if q == e && url_at(g, s@, q) {
                                lemma_url_at_start(g, s@, q);
                            }
                        }
                    }
                },
            }
            if e < n {
                i = e + 1;
            } else {
                i = e;
            }
        }
    }
    proof {
        assert forall|q: int| q >= n implies !url_at(g, s@, q) by {
            if url_at(g, s@, q) {
                lemma_url_at_start(g, s@, q);
            }
        }
        if let Some((p, e)) = found {
            assert(url_at(g, s@, p as int));
        }
    }
    found
}

impl LogGrammar {
    /// Whether a URL of this grammar occurs anywhere in `text`.
    pub fn is_match(&self, text: &str) -> (b: bool)
        ensures
            b == exists|p: int| url_at(*self, text@, p),
    {
        let lits = Literals::new();
        let chars = chars_of(text);
        let span = last_url_span(*self, &lits, chars.as_slice());
        match span {
            Some((p, e)) => {
                assert(url_at(*self, text@, p as int));
                true
            },
            None => false,
        }
    }

    /// The most recent URL of this grammar in a log text: the last match
    /// that a left-to-right search reports.
    pub fn last_match(&self, text: &str) -> (r: Option<String>)
        ensures
            r is None <==> forall|p: int| !url_at(*self, text@, p),
            r matches Some(u) ==> exists|p: int|
                is_last_match(*self, text@, p) && u@ == text@.subrange(p, run_end(text@, p)),
    {
        let lits = Literals::new();
        let chars = chars_of(text);
        let span = last_url_span(*self, &lits, chars.as_slice());
        match span {
            Some((p, e)) => {
                let u = string_of(slice_subrange(chars.as_slice(), p, e));
                assert(is_last_match(*self, text@, p as int));
                Some(u)
            },
            None => None,
        }
    }
}

/// `run_end` stays within `i .. s.len()`, only URL characters lie before it,
/// and a delimiter (or the end of `s`) stands at it.
proof fn lemma_run_end_bounds(s: Seq<char>, i: int)
    requires
        0 <= i <= s.len(),
    ensures
        i <= run_end(s, i) <= s.len(),
        forall|k: int| i <= k < run_end(s, i) ==> !is_url_delimiter(#[trigger] s[k]),
        run_end(s, i) == s.len() || is_url_delimiter(s[run_end(s, i)]),
    decreases s.len() - i,
{
    if i < s.len() && !is_url_delimiter(s[i]) {
        lemma_run_end_bounds(s, i + 1);
    }
}

/// A stretch without delimiters lies inside one run.
proof fn lemma_run_end_covers(s: Seq<char>, i: int, q: int)
    requires
        0 <= i <= q <= s.len(),
        forall|k: int| i <= k < q ==> !is_url_delimiter(#[trigger] s[k]),
    ensures
        q <= run_end(s, i),
    decreases q - i,
{
    lemma_run_end_bounds(s, i);
    if i < q {
        assert(!is_url_delimiter(s[i]));
        lemma_run_end_covers(s, i + 1, q);
    }
}

/// The characters of a literal that occurs at `i` are those of `s` there.
proof fn lemma_occurs_chars(s: Seq<char>, lit: Seq<char>, i: int)
    requires
        occurs_at(s, lit, i),
    ensures
        forall|k: int| 0 <= k < lit.len() ==> s[i + k] == #[trigger] lit[k],
{
    assert forall|k: int| 0 <= k < lit.len() implies s[i + k] == #[trigger] lit[k] by {
        assert(s.subrange(i, i + lit.len())[k] == s[i + k]);
    }
}

/// An occurrence at `i` in `s` is one at `i - p` in `s[p..e]`, when it fits there.
proof fn lemma_occurs_shift(s: Seq<char>, lit: Seq<char>, i: int, p: int, e: int)
    requires
        occurs_at(s, lit, i),
        0 <= p <= i,
        i + lit.len() <= e <= s.len(),
    ensures
        occurs_at(s.subrange(p, e), lit, i - p),
{
    assert(s.subrange(p, e).subrange(i - p, i - p + lit.len()) =~= s.subrange(i, i + lit.len()));
}

/// The literals of the Wuthering Waves grammar hold no delimiter.
proof fn lemma_wuwa_literals_plain()
    ensures
        forall|k: int|
            0 <= k < "https://aki-gm-resources"@.len() ==> !is_url_delimiter(
                #[trigger] "https://aki-gm-resources"@[k],
            ),
        forall|k: int|
            0 <= k < "-oversea"@.len() ==> !is_url_delimiter(#[trigger] "-oversea"@[k]),
        forall|k: int|
            0 <= k < ".aki-game."@.len() ==> !is_url_delimiter(#[trigger] ".aki-game."@[k]),
        forall|k: int| 0 <= k < "net"@.len() ==> !is_url_delimiter(#[trigger] "net"@[k]),
        forall|k: int| 0 <= k < "com"@.len() ==> !is_url_delimiter(#[trigger] "com"@[k]),
        forall|k: int|
            0 <= k < "/aki/gacha/index.html#/record"@.len() ==> !is_url_delimiter(
                #[trigger] "/aki/gacha/index.html#/record"@[k],
            ),
{
    reveal_strlit("https://aki-gm-resources");
    reveal_strlit("-oversea");
    reveal_strlit(".aki-game.");
    reveal_strlit("net");
    reveal_strlit("com");
    reveal_strlit("/aki/gacha/index.html#/record");
}

/// A literal without delimiters that occurs at `i` stays in the run of `p`
/// when everything from `p` to `i` does.
proof fn lemma_plain_literal_in_run(s: Seq<char>, lit: Seq<char>, p: int, i: int)
    requires
        occurs_at(s, lit, i),
        0 <= p <= i,
        i <= run_end(s, p),
        forall|k: int| 0 <= k < lit.len() ==> !is_url_delimiter(#[trigger] lit[k]),
    ensures
        i + lit.len() <= run_end(s, p),
{
    lemma_run_end_bounds(s, p);
    lemma_occurs_chars(s, lit, i);
    assert forall|k: int| p <= k < i + lit.len() implies !is_url_delimiter(#[trigger] s[k]) by {
        if k >= i {
            assert(s[i + (k - i)] == lit[k - i]);
        }
    }
    lemma_run_end_covers(s, p, i + lit.len());
}

/// The URL that a match at `p` spans is itself a URL of the grammar, from
/// its first character to its end, and holds no delimiter.
pub proof fn lemma_match_is_url(g: LogGrammar, s: Seq<char>, p: int)
    requires
        url_at(g, s, p),
    ensures
        ({
            let u = s.subrange(p, run_end(s, p));
            &&& url_at(g, u, 0)
            &&& run_end(u, 0) == u.len()
            &&& forall|k: int| 0 <= k < u.len() ==> !is_url_delimiter(#[trigger] u[k])
        }),
{
    lemma_url_at_start(g, s, p);
    lemma_run_end_bounds(s, p);
    let e = run_end(s, p);
    let u = s.subrange(p, e);
    assert forall|k: int| 0 <= k < u.len() implies !is_url_delimiter(#[trigger] u[k]) by {
        assert(u[k] == s[p + k]);
    }
    lemma_run_end(u, 0, u.len() as int);
    reveal_literals();
    match g {
        LogGrammar::Endfield => {
            let (a, b, c) = choose|a: int, b: int, c: int| endfield_pieces(s, p, a, b, c);
            lemma_occurs_shift(s, "https://"@, p, p, e);
            lemma_occurs_shift(s, ".gryphline.com/"@, a, p, e);
            lemma_occurs_shift(s, "token"@, b, p, e);
            lemma_occurs_shift(s, "server"@, c, p, e);
            assert(endfield_pieces(u, 0, a - p, b - p, c - p));
        },
        LogGrammar::WutheringWaves => {
            lemma_wuwa_literals_plain();
            let q = p + 24;
            lemma_plain_literal_in_run(s, "https://aki-gm-resources"@, p, p);
            lemma_occurs_shift(s, "https://aki-gm-resources"@, p, p, e);
            let r = if wuwa_host_at(s, q) {
                q
            } else {
                lemma_plain_literal_in_run(s, "-oversea"@, p, q);
                lemma_occurs_shift(s, "-oversea"@, q, p, e);
                q + 8
            };
            assert(wuwa_host_at(s, r));
            lemma_plain_literal_in_run(s, ".aki-game."@, p, r);
            lemma_occurs_shift(s, ".aki-game."@, r, p, e);
            if occurs_at(s, "net"@, r + 10) {
                lemma_plain_literal_in_run(s, "net"@, p, r + 10);
                lemma_occurs_shift(s, "net"@, r + 10, p, e);
            } else {
                lemma_plain_literal_in_run(s, "com"@, p, r + 10);
                lemma_occurs_shift(s, "com"@, r + 10, p, e);
            }
            lemma_plain_literal_in_run(s, "/aki/gacha/index.html#/record"@, p, r + 13);
            lemma_occurs_shift(s, "/aki/gacha/index.html#/record"@, r + 13, p, e);
            assert(wuwa_host_at(u, r - p));
        },
    }
}

/// Extracting again from an extracted URL gives it back whole: the text
/// `u` that [`LogGrammar::last_match`] returns has its own last match at its
/// start, spanning all of it.
pub proof fn lemma_last_match_idempotent(g: LogGrammar, s: Seq<char>, p: int)
    requires
        is_last_match(g, s, p),
    ensures
        ({
            let u = s.subrange(p, run_end(s, p));
            &&& is_last_match(g, u, 0)
            &&& u.subrange(0, run_end(u, 0)) == u
        }),
{
    lemma_match_is_url(g, s, p);
    let u = s.subrange(p, run_end(s, p));
    assert forall|q: int| #[trigger] same_run(u, q, 0) && q < 0 implies !url_at(g, u, q) by {}
    assert forall|q: int| 0 < q implies !#[trigger] reported(g, u, q) by {
        if reported(g, u, q) {
            assert(same_run(u, 0, q));
        }
    }
    assert(u.subrange(0, run_end(u, 0)) =~= u);
}

} // verus!
