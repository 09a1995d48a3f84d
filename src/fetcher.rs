//! The bookkeeping of the background fetch engine: which resources are being
//! downloaded, which are on disk and which failed, keyed by canonical locator.
//!
//! The engine's worker hands each request to [`DownloadTable::submit`], starts a
//! download when told to, and reports its outcome with
//! [`DownloadTable::complete`]. Answering never waits on a download.

use vstd::prelude::*;

verus! {

/// The state of one resource.
#[derive(Debug, PartialEq, Eq)]
pub enum DownloadState {
    /// A download is in flight.
    Pending,
    /// The resource was saved at this local path.
    Ready(String),
    /// The download failed with this message.
    Failed(String),
}

/// What a request is answered with.
#[derive(Debug, PartialEq, Eq)]
pub enum FetchStatus {
    /// Not there yet; ask again later.
    Pending,
    /// On disk at this local path.
    Ready(String),
    /// The last attempt failed with this message; the next request tries again.
    Failed(String),
}

/// The states of the entries, later entries taking precedence.
pub open spec fn to_map(entries: Seq<(String, DownloadState)>) -> Map<Seq<char>, DownloadState>
    decreases entries.len(),
{
    if entries.len() == 0 {
        Map::empty()
    } else {
        to_map(entries.drop_last()).insert(entries.last().0@, entries.last().1)
    }
}

/// No locator occurs twice.
pub open spec fn keys_unique(entries: Seq<(String, DownloadState)>) -> bool {
    forall|i: int, j: int|
        0 <= i < j < entries.len() ==> (#[trigger] entries[i]).0@ != (#[trigger] entries[j]).0@
}

proof fn lemma_to_map_absent(entries: Seq<(String, DownloadState)>, k: Seq<char>)
    requires
        forall|i: int| 0 <= i < entries.len() ==> (#[trigger] entries[i]).0@ != k,
    ensures
        !to_map(entries).contains_key(k),
    decreases entries.len(),
{
    if entries.len() > 0 {
        let e = entries.drop_last();
        assert forall|i: int| 0 <= i < e.len() implies (#[trigger] e[i]).0@ != k by {
            assert(e[i] == entries[i]);
        }
        lemma_to_map_absent(e, k);
        assert(entries.last() == entries[entries.len() - 1]);
    }
}

proof fn lemma_to_map_get(entries: Seq<(String, DownloadState)>, i: int)
    requires
        keys_unique(entries),
        0 <= i < entries.len(),
    ensures
        to_map(entries).contains_key(entries[i].0@),
        to_map(entries)[entries[i].0@] == entries[i].1,
    decreases entries.len(),
{
    let e = entries.drop_last();
    if i < entries.len() - 1 {
        assert(e[i] == entries[i]);
        lemma_to_map_get(e, i);
        assert(entries[entries.len() - 1].0@ != entries[i].0@);
    }
}

proof fn lemma_to_map_remove(entries: Seq<(String, DownloadState)>, i: int)
    requires
        keys_unique(entries),
        0 <= i < entries.len(),
    ensures
        keys_unique(entries.remove(i)),
        to_map(entries.remove(i)) == to_map(entries).remove(entries[i].0@),
    decreases entries.len(),
{
    let k = entries[i].0@;
    let r = entries.remove(i);
    if i == entries.len() - 1 {
        assert(r =~= entries.drop_last());
        assert forall|j: int| 0 <= j < r.len() implies (#[trigger] r[j]).0@ != k by {
            assert(r[j] == entries[j]);
        }
        lemma_to_map_absent(r, k);
        assert(to_map(r) =~= to_map(entries).remove(k));
    } else {
        let e = entries.drop_last();
        assert(e[i] == entries[i]);
        lemma_to_map_remove(e, i);
        assert(r.drop_last() =~= e.remove(i));
        assert(r.last() == entries.last());
        assert(entries.last() == entries[entries.len() - 1]);
        assert(entries.last().0@ != k);
        assert(to_map(r) =~= to_map(entries).remove(k));
    }
}

proof fn lemma_push_unique(entries: Seq<(String, DownloadState)>, e: (String, DownloadState))
    requires
        keys_unique(entries),
        !to_map(entries).contains_key(e.0@),
    ensures
        keys_unique(entries.push(e)),
        to_map(entries.push(e)) == to_map(entries).insert(e.0@, e.1),
{
    assert(entries.push(e).drop_last() =~= entries);
    assert forall|i: int| 0 <= i < entries.len() implies (#[trigger] entries[i]).0@ != e.0@ by {
        if entries[i].0@ == e.0@ {
            lemma_to_map_get(entries, i);
        }
    }
}

/// The answer to a request for `locator` and the table after it, and whether a
/// download must be started: an unknown locator is entered as pending and its
/// download started; a pending one stays pending; a ready one is answered with its
/// path; a failed one is answered with its error, and its failure is evicted: it
/// is pending again and a fresh download starts on this very request.
pub open spec fn submitted(t: Map<Seq<char>, DownloadState>, locator: Seq<char>) -> (
    Map<Seq<char>, DownloadState>,
    FetchStatus,
    bool,
) {
    if !t.contains_key(locator) {
        (t.insert(locator, DownloadState::Pending), FetchStatus::Pending, true)
    } else {
        match t[locator] {
            DownloadState::Pending => (t, FetchStatus::Pending, false),
            DownloadState::Ready(p) => (t, FetchStatus::Ready(p), false),
            DownloadState::Failed(e) => (
                t.insert(locator, DownloadState::Pending),
                FetchStatus::Failed(e),
                true,
            ),
        }
    }
}

/// The answers to `n` requests in a row for one locator, with no download
/// finishing in between, the table after them, and how many downloads they start.
pub open spec fn submitted_times(t: Map<Seq<char>, DownloadState>, locator: Seq<char>, n: nat) -> (
    Map<Seq<char>, DownloadState>,
    Seq<FetchStatus>,
    nat,
)
    decreases n,
{
    if n == 0 {
        (t, Seq::empty(), 0)
    } else {
        let (t1, answers, started) = submitted_times(t, locator, (n - 1) as nat);
        let (t2, answer, start) = submitted(t1, locator);
        (t2, answers.push(answer), if start { started + 1 } else { started })
    }
}

/// Requests that pile up for one locator start one download at most: none while
/// it is pending or ready (a ready one answers every request with its path), and
/// one, started by the first request, for an unknown or a failed locator (a failed
/// one answers that first request with its failure).
pub proof fn lemma_one_download_per_locator(
    t: Map<Seq<char>, DownloadState>,
    locator: Seq<char>,
    n: nat,
)
    ensures
        ({
            let (after, answers, started) = submitted_times(t, locator, n);
            &&& answers.len() == n
            &&& started == if !t.contains_key(locator) || t[locator] is Failed {
                if n >= 1 {
                    1nat
                } else {
                    0nat
                }
            } else {
                0nat
            }
            &&& t.contains_key(locator) ==> (t[locator] matches DownloadState::Ready(p) ==> forall|i: int|
                0 <= i < n ==> answers[i] == FetchStatus::Ready(p))
            &&& n >= 1 ==> after.contains_key(locator) && (if t.contains_key(locator)
                && t[locator] is Ready {
                after[locator] == t[locator]
            } else {
                after[locator] == DownloadState::Pending
            })
            &&& forall|k: Seq<char>| #![trigger after.contains_key(k)] k != locator ==> after.contains_key(k) == t.contains_key(k)
                && (t.contains_key(k) ==> after[k] == t[k])
        }),
    decreases n,
{
    if n > 0 {
        lemma_one_download_per_locator(t, locator, (n - 1) as nat);
        let (t1, _, _) = submitted_times(t, locator, (n - 1) as nat);
        let (t2, _, _) = submitted(t1, locator);
        assert forall|k: Seq<char>| #![trigger t2.contains_key(k)] k != locator implies t2.contains_key(k)
            == t.contains_key(k) && (t.contains_key(k) ==> t2[k] == t[k]) by {
            assert(t1.contains_key(k) == t.contains_key(k));
        }
    }
}

/// The outcome that `complete` records for a download.
pub open spec fn outcome_state(outcome: Result<String, String>) -> DownloadState {
    match outcome {
        Ok(p) => DownloadState::Ready(p),
        Err(e) => DownloadState::Failed(e),
    }
}

/// Requests for a locator never seen, `n` of them before its one download
/// completes with a path and `m` after: exactly one download is started in all,
/// and every request after the completion is answered with that path.
pub proof fn lemma_requests_around_completion(
    t: Map<Seq<char>, DownloadState>,
    locator: Seq<char>,
    n: nat,
    m: nat,
    path: String,
)
    requires
        !t.contains_key(locator),
        n >= 1,
    ensures
        ({
            let (t1, _, before) = submitted_times(t, locator, n);
            let t2 = t1.insert(locator, outcome_state(Ok(path)));
            let (_, answers, after) = submitted_times(t2, locator, m);
            &&& t1.contains_key(locator) && t1[locator] == DownloadState::Pending
            &&& before + after == 1
            &&& forall|i: int| 0 <= i < m ==> answers[i] == FetchStatus::Ready(path)
        }),
{
    lemma_one_download_per_locator(t, locator, n);
    let (t1, _, _) = submitted_times(t, locator, n);
    let t2 = t1.insert(locator, outcome_state(Ok(path)));
    lemma_one_download_per_locator(t2, locator, m);
}

/// The download-status table of the fetch engine.
#[derive(Debug)]
pub struct DownloadTable {
    entries: Vec<(String, DownloadState)>,
}

impl View for DownloadTable {
    type V = Map<Seq<char>, DownloadState>;

    closed spec fn view(&self) -> Map<Seq<char>, DownloadState> {
        to_map(self.entries@)
    }
}

impl DownloadTable {
    /// No locator is entered twice.
    pub closed spec fn wf(&self) -> bool {
        keys_unique(self.entries@)
    }

    /// An empty table.
    pub fn new() -> (t: DownloadTable)
        ensures
            t.wf(),
            t@ == Map::<Seq<char>, DownloadState>::empty(),
    {
        DownloadTable { entries: Vec::new() }
    }

    fn position(&self, locator: &String) -> (r: Option<usize>)
        requires
            self.wf(),
        ensures
            match r {
                Some(i) => i < self.entries@.len() && self.entries@[i as int].0@ == locator@,
                None => !self@.contains_key(locator@),
            },
    {
        let mut i: usize = 0;
        while i < self.entries.len()
            invariant
                i <= self.entries@.len(),
                forall|j: int| 0 <= j < i ==> (#[trigger] self.entries@[j]).0@ != locator@,
            decreases self.entries.len() - i,
        {
            if self.entries[i].0 == *locator {
                return Some(i);
            }
            i = i + 1;
        }
        proof {
            lemma_to_map_absent(self.entries@, locator@);
        }
        None
    }

    /// The state of `locator`, if it was ever requested and not forgotten since.
    pub fn state(&self, locator: &String) -> (r: Option<&DownloadState>)
        requires
            self.wf(),
        ensures
            match r {
                Some(s) => self@.contains_key(locator@) && self@[locator@] == *s,
                None => !self@.contains_key(locator@),
            },
    {
        match self.position(locator) {
            Some(i) => {
                proof {
                    lemma_to_map_get(self.entries@, i as int);
                }
                Some(&self.entries[i].1)
            },
            None => None,
        }
    }

    /// Answers a request for `locator` without waiting, and says whether a
    /// download of it must now be started, as `submitted` describes.
    pub fn submit(&mut self, locator: String) -> (r: (FetchStatus, bool))
        requires
            old(self).wf(),
        ensures
            final(self).wf(),
            (final(self)@, r.0, r.1) == submitted(old(self)@, locator@),
    {
        match self.position(&locator) {
            None => {
                proof {
                    lemma_push_unique(self.entries@, (locator, DownloadState::Pending));
                }
                self.entries.push((locator, DownloadState::Pending));
                (FetchStatus::Pending, true)
            },
            Some(i) => {
                proof {
                    lemma_to_map_get(self.entries@, i as int);
                }
                match &self.entries[i].1 {
                    DownloadState::Pending => (FetchStatus::Pending, false),
                    DownloadState::Ready(path) => (FetchStatus::Ready(path.clone()), false),
                    DownloadState::Failed(_) => {
                        let ghost start = self@;
                        proof {
                            lemma_to_map_remove(self.entries@, i as int);
                        }
                        let (key, state) = self.entries.remove(i);
                        assert(self@ =~= start.remove(locator@));
                        proof {
                            lemma_push_unique(self.entries@, (key, DownloadState::Pending));
                        }
                        self.entries.push((key, DownloadState::Pending));
                        assert(self@ =~= start.insert(locator@, DownloadState::Pending));
                        match state {
                            DownloadState::Failed(e) => (FetchStatus::Failed(e), true),
                            _ => (FetchStatus::Pending, true),
                        }
                    },
                }
            },
        }
    }

    /// Records the outcome of the pending download of `locator`: the local path
    /// it was saved at, or the error it failed with.
    pub fn complete(&mut self, locator: String, outcome: Result<String, String>)
        requires
            old(self).wf(),
            old(self)@.contains_key(locator@),
            old(self)@[locator@] == DownloadState::Pending,
        ensures
            final(self).wf(),
            final(self)@ == old(self)@.insert(locator@, outcome_state(outcome)),
    {
        let state = match outcome {
            Ok(p) => DownloadState::Ready(p),
            Err(e) => DownloadState::Failed(e),
        };
        let ghost start = self@;
        if let Some(i) = self.position(&locator) {
            proof {
                lemma_to_map_remove(self.entries@, i as int);
            }
            self.entries.remove(i);
        }
        assert(self@ =~= start.remove(locator@));
        proof {
            assert(!self@.contains_key(locator@));
            lemma_push_unique(self.entries@, (locator, state));
        }
        self.entries.push((locator, state));
        assert(self@ =~= old(self)@.insert(locator@, state));
    }
}

} // verus!
