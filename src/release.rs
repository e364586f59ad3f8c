//! The release orchestrator: which prior revisions get a delta, what each
//! candidate turns into, and the release state persisted after a run.
use vstd::prelude::*;
use vstd::string::StringExecFns;

use crate::diff::{diff, diff_of, entries, Diff};
use crate::manifest::{parse_checksums, parse_hashes};
use crate::package::update_prefix;
use crate::text::{clone_all, lemma_views_push, views};

verus! {

/// The number of prior revisions that keep a delta when none is configured.
pub const DEFAULT_WINDOW: usize = 14;

/// A point in time: seconds since the Unix epoch and nanoseconds within that second.
#[derive(Debug, Clone, Copy, PartialEq, Eq, Structural)]
pub struct Timestamp {
    pub secs: i64,
    pub nanos: u32,
}

/// The largest number of nanoseconds within a second, plus one.
pub const NANOS_PER_SEC: u32 = 1_000_000_000;

impl Timestamp {
    /// The nanoseconds stay within their second.
    pub open spec fn valid(self) -> bool {
        self.nanos < NANOS_PER_SEC
    }

    /// The timestamp `secs` seconds and `nanos` nanoseconds after the epoch,
    /// if `nanos` stays within the second.
    pub fn new(secs: i64, nanos: u32) -> (r: Option<Timestamp>)
        ensures
            r is Some <==> nanos < NANOS_PER_SEC,
            r matches Some(t) ==> t.secs == secs && t.nanos == nanos && t.valid(),
    {
        if nanos < NANOS_PER_SEC {
            Some(Timestamp { secs, nanos })
        } else {
            None
        }
    }
}

/// The release state kept between runs: when the last run published, which
/// revision it published, and the prior revisions it built a delta from.
pub struct Update {
    pub date: Option<Timestamp>,
    pub latest: Option<String>,
    pub updates: Vec<String>,
}

impl Update {
    /// The state before any release: no date, no latest revision, no deltas.
    pub fn empty() -> (r: Update)
        ensures
            r.date is None,
            r.latest is None,
            r.updates@.len() == 0,
    {
        Update { date: None, latest: None, updates: Vec::new() }
    }
}

impl Default for Update {
    fn default() -> (r: Update)
        ensures
            r.date is None,
            r.latest is None,
            r.updates@.len() == 0,
    {
        Update::empty()
    }
}

/// A string option seen as characters.
pub open spec fn opt_view(o: Option<String>) -> Option<Seq<char>> {
    match o {
        Some(s) => Some(s@),
        None => None,
    }
}

/// The revisions that get a delta to `current`: the previous latest revision,
/// if there is one and it is not `current`, then the prior revisions in their
/// stored order, as many as fit in `window`.
pub open spec fn candidates_of(
    latest: Option<Seq<char>>,
    prior: Seq<Seq<char>>,
    current: Seq<char>,
    window: nat,
) -> Seq<Seq<char>> {
    let head = match latest {
        Some(l) => if l != current {
            seq![l]
        } else {
            Seq::empty()
        },
        None => Seq::empty(),
    };
    let room = if window > head.len() {
        (window - head.len()) as nat
    } else {
        0nat
    };
    let n = if room < prior.len() {
        room
    } else {
        prior.len()
    };
    head + prior.take(n as int)
}

/// The revisions of `state` that get a delta to `current`, given a window of
/// `window` revisions.
pub fn select_candidates(state: &Update, current: &str, window: usize) -> (r: Vec<String>)
    ensures
        views(r@) == candidates_of(opt_view(state.latest), views(state.updates@), current@, window as nat),
{
    let mut r: Vec<String> = Vec::new();
    let cur = String::from_str(current);
    match &state.latest {
        Some(l) => {
            if *l != cur {
                proof {
                    lemma_views_push(r@, *l);
                }
                r.push(l.clone());
                assert(views(r@) =~= seq![l@]);
            } else {
                assert(views(r@) =~= Seq::<Seq<char>>::empty());
            }
        },
        None => {
            assert(views(r@) =~= Seq::<Seq<char>>::empty());
        },
    }
    let room = if window > r.len() {
        window - r.len()
    } else {
        0
    };
    let n = if room < state.updates.len() {
        room
    } else {
        state.updates.len()
    };
    let ghost head = views(r@);
    let mut i: usize = 0;
    while i < n
        invariant
            n <= state.updates@.len(),
            i <= n,
            views(r@) == head + views(state.updates@).take(i as int),
        decreases n - i,
    {
        proof {
            lemma_views_push(r@, state.updates@[i as int]);
        }
        r.push(state.updates[i].clone());
        i += 1;
        assert(views(r@) =~= head + views(state.updates@).take(i as int));
    }
    assert(views(r@) =~= candidates_of(
        opt_view(state.latest),
        views(state.updates@),
        current@,
        window as nat,
    ));
    r
}

/// One delta to build: the prefix of its output files and the diff it carries.
pub struct UpdateJob {
    pub prefix: String,
    pub diff: Diff,
}

/// The candidates whose checksums loaded, in order: `loaded[k]` tells whether
/// those of `candidates[k]` did.
pub open spec fn kept(candidates: Seq<Seq<char>>, loaded: Seq<bool>) -> Seq<Seq<char>>
    decreases loaded.len(),
{
    if loaded.len() == 0 {
        Seq::empty()
    } else {
        let prev = kept(candidates, loaded.drop_last());
        if loaded.last() {
            prev.push(candidates[loaded.len() - 1])
        } else {
            prev
        }
    }
}

/// A candidate whose checksums never loaded is not among the kept ones: a
/// revision whose checksum archive is missing drops out of the saved window.
pub proof fn lemma_skipped_not_kept(candidates: Seq<Seq<char>>, loaded: Seq<bool>, c: Seq<char>)
    requires
        loaded.len() <= candidates.len(),
        forall|k: int| 0 <= k < loaded.len() && candidates[k] == c ==> !(#[trigger] loaded[k]),
    ensures
        !kept(candidates, loaded).contains(c),
    decreases loaded.len(),
{
    if loaded.len() > 0 {
        let prev = loaded.drop_last();
        assert forall|k: int| 0 <= k < prev.len() && candidates[k] == c implies !(
        #[trigger] prev[k]) by {
            assert(prev[k] == loaded[k]);
        }
        lemma_skipped_not_kept(candidates, prev, c);
        if loaded.last() {
            assert(loaded[loaded.len() - 1]);
            let q = kept(candidates, prev);
            if q.push(candidates[loaded.len() - 1]).contains(c) {
                let x = q.push(candidates[loaded.len() - 1]).index_of(c);
                if x < q.len() {
                    assert(q.contains(c));
                }
            }
        }
    }
}

/// One run of the orchestrator: the revision being published, its manifest,
/// the candidates, how many of them were tried and whether the checksums of
/// each loaded, and the ones whose delta was built.
pub struct Release {
    pub current: String,
    pub manifest: Vec<(String, String)>,
    pub candidates: Vec<String>,
    pub next: usize,
    pub loaded: Ghost<Seq<bool>>,
    pub updated: Vec<String>,
}

impl Release {
    /// The run's record is consistent: one outcome per tried candidate, and
    /// the updated revisions are the tried candidates that loaded.
    pub open spec fn wf(&self) -> bool {
        &&& self.next <= self.candidates@.len()
        &&& self.loaded@.len() == self.next
        &&& views(self.updated@) == kept(views(self.candidates@), self.loaded@)
    }

    /// Starts a run that publishes `current`, whose tree has the manifest
    /// `manifest`, after the release state `state`, keeping deltas for at most
    /// `window` prior revisions.
    pub fn start(state: &Update, current: String, window: usize, manifest: Vec<(String, String)>) -> (r: Release)
        ensures
            r.current@ == current@,
            r.manifest@ == manifest@,
            views(r.candidates@) == candidates_of(
                opt_view(state.latest),
                views(state.updates@),
                current@,
                window as nat,
            ),
            r.next == 0,
            r.updated@.len() == 0,
            r.wf(),
    {
        let candidates = select_candidates(state, current.as_str(), window);
        let r = Release {
            current,
            manifest,
            candidates,
            next: 0,
            loaded: Ghost(Seq::empty()),
            updated: Vec::new(),
        };
        assert(views(r.updated@) =~= Seq::<Seq<char>>::empty());
        r
    }

    /// The candidate to try next, if any is left.
    pub fn pending(&self) -> (r: Option<String>)
        ensures
            r is Some <==> self.next < self.candidates@.len(),
            r matches Some(c) ==> c@ == self.candidates@[self.next as int]@,
    {
        if self.next < self.candidates.len() {
            Some(self.candidates[self.next].clone())
        } else {
            None
        }
    }

    /// Takes the outcome of loading the checksum text of the pending candidate:
    /// `None` where its checksum archive is missing or unreadable, and the
    /// candidate is skipped; else the delta from it to the current manifest,
    /// and the candidate counts as updated.
    pub fn record(&mut self, checksums: Option<&str>) -> (r: Option<UpdateJob>)
        requires
            old(self).wf(),
            old(self).next < old(self).candidates@.len(),
        ensures
            final(self).wf(),
            final(self).loaded@ == old(self).loaded@.push(checksums is Some),
            final(self).current == old(self).current,
            final(self).manifest == old(self).manifest,
            final(self).candidates == old(self).candidates,
            final(self).next == old(self).next + 1,
            checksums is None ==> r is None && final(self).updated == old(self).updated,
            checksums matches Some(text) ==> {
                let cand = old(self).candidates@[old(self).next as int];
                &&& final(self).updated@ == old(self).updated@.push(cand)
                &&& r matches Some(job) && job.prefix@ == old(self).current@.push('-') + cand@
                    && job.diff@ == diff_of(parse_checksums(text@), entries(old(self).manifest@))
            },
    {
        let i = self.next;
        assert(i < self.candidates.len());
        let ghost cands = views(self.candidates@);
        let ghost prev = self.loaded@;
        self.next = i + 1;
        self.loaded = Ghost(prev.push(checksums is Some));
        assert(self.loaded@.drop_last() =~= prev);
        match checksums {
            None => None,
            Some(text) => {
                let cand = self.candidates[i].clone();
                let old_manifest = parse_hashes(text);
                let d = diff(old_manifest.as_slice(), self.manifest.as_slice());
                let prefix = update_prefix(self.current.as_str(), cand.as_str());
                proof {
                    lemma_views_push(self.updated@, cand);
                }
                self.updated.push(cand);
                Some(UpdateJob { prefix, diff: d })
            },
        }
    }

    /// The release state to persist at the end of the run: published at
    /// `date`, `current` as the latest revision, and the candidates whose
    /// delta was built, in the order they were tried.
    pub fn finish(&self, date: Timestamp) -> (r: Update)
        requires
            date.valid(),
        ensures
            r.date == Some(date),
            r.latest matches Some(l) && l@ == self.current@,
            r.updates@ == self.updated@,
            self.wf() ==> views(r.updates@) == kept(views(self.candidates@), self.loaded@),
    {
        Update { date: Some(date), latest: Some(self.current.clone()), updates: clone_all(&self.updated) }
    }
}

} // verus!
