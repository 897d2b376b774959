//! Choosing, among the directories found under a game's search paths, those
//! that belong to the game, and trying them one after another.
use vstd::prelude::*;

use crate::config::GameConfig;

verus! {

/// Whether a directory walk enters an entry named `name`: it skips Wine's
/// `dosdevices`, whose drive links lead back into the whole file system.
pub fn walk_descends_into(name: &str) -> (b: bool)
    ensures
        b == (name@ != "dosdevices"@),
{
    let skipped = String::from_str("dosdevices");
    let entry = String::from_str(name);
    !(entry == skipped)
}

/// What the search for a game directory does next; `E` is the failure of
/// one attempt.
#[derive(Debug)]
pub enum DetectStep<E> {
    /// Try to extract the URL from this directory; on failure, step again
    /// with that failure.
    Try(String),
    /// No directory matched the game's hints.
    NoCandidates,
    /// Extraction failed in every one of this many candidate directories;
    /// the failure to report is that of the last one tried.
    AllFailed(usize, Option<E>),
}

/// The candidate directories of a game, tried in the order they were found.
pub struct Detection {
    candidates: Vec<String>,
    next: usize,
}

impl Detection {
    #[verifier::type_invariant]
    spec fn well_formed(self) -> bool {
        self.next <= self.candidates@.len()
    }

    /// The candidate directories, in the order they were found.
    pub closed spec fn candidates(self) -> Seq<Seq<char>> {
        self.candidates.deep_view()
    }

    /// How many candidates have been handed out.
    pub closed spec fn tried(self) -> int {
        self.next as int
    }

    /// Starts a search among `paths` (each search directory followed by the
    /// directories below it): the candidates are those whose path matches
    /// one of the game's hints, in order.
    pub fn new(config: &GameConfig, paths: &Vec<String>) -> (d: Self)
        ensures
            d.candidates() == paths.deep_view().filter(|p: Seq<char>| config.hint_in_path(p)),
            d.tried() == 0,
    {
        let ghost keep = |p: Seq<char>| config.hint_in_path(p);
        let ghost all = paths.deep_view();
        let mut candidates: Vec<String> = Vec::new();
        let n: usize = paths.len();
        let mut i: usize = 0;
        proof {
            reveal(Seq::filter);
        }
        assert(all.take(0).filter(keep) =~= candidates.deep_view());
        while i < n
            invariant
                n == paths@.len(),
                all == paths.deep_view(),
                i <= n,
                keep == (|p: Seq<char>| config.hint_in_path(p)),
                candidates.deep_view() == all.take(i as int).filter(keep),
            decreases n - i,
        {
            proof {
                reveal(Seq::filter);
            }
            assert(all.take(i + 1).drop_last() =~= all.take(i as int));
            assert(all.take(i + 1).last() == paths@[i as int]@);
            if config.matches_path(paths[i].as_str()) {
                let ghost before = candidates.deep_view();
                candidates.push(paths[i].clone());
                assert(candidates.deep_view() =~= before.push(paths@[i as int]@));
            }
            i = i + 1;
        }
        assert(all.take(n as int) =~= all);
        Detection { candidates, next: 0 }
    }

    /// The next thing to do, after the previous candidate (if any) failed
    /// with `failure` (`None` on the first call).
    pub fn step<E>(&mut self, failure: Option<E>) -> (s: DetectStep<E>)
        ensures
            final(self).candidates() == old(self).candidates(),
            old(self).candidates().len() == 0 ==> s is NoCandidates && final(self).tried()
                == old(self).tried(),
            old(self).candidates().len() > 0 && old(self).tried() < old(self).candidates().len()
                ==> {
                &&& s matches DetectStep::Try(dir) && dir@ == old(self).candidates()[old(
                    self,
                ).tried()]
                &&& final(self).tried() == old(self).tried() + 1
            },
            old(self).candidates().len() > 0 && old(self).tried() >= old(self).candidates().len()
                ==> {
                &&& s matches DetectStep::AllFailed(n, reported) && n == old(self).candidates().len()
                    && reported == failure
                &&& final(self).tried() == old(self).tried()
            },
    {
        proof {
            use_type_invariant(&*self);
        }
        let n: usize = self.candidates.len();
        if n == 0 {
            return DetectStep::NoCandidates;
        }
        if self.next < n {
            let dir = self.candidates[self.next].clone();
            self.next = self.next + 1;
            DetectStep::Try(dir)
        } else {
            DetectStep::AllFailed(n, failure)
        }
    }
}

} // verus!
