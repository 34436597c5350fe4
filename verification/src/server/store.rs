//! The in-memory job store: submissions, jobs and the byte-budgeted cache
//! of files a solve produced. Jobs are ephemeral — a restart loses history,
//! which is fine for a home plate-solving box (clients poll within minutes).

use std::collections::{HashMap, VecDeque};
use std::sync::Arc;
use std::time::SystemTime;

use vstd::prelude::*;

use crate::sky::{push_utc, utc_text};
use crate::text::{push_zero_padded, str_eq, string_of, zero_pad};

verus! {

broadcast use vstd::std_specs::hash::group_hash_axioms;

/// A point in wall-clock time, carried through as it came.
#[verifier::external_type_specification]
#[verifier::external_body]
pub struct ExSystemTime(SystemTime);

/// The current wall-clock time.
///
/// Trusted: calls `SystemTime::now`; nothing is claimed of the result.
#[verifier::external_body]
fn clock_now() -> SystemTime {
    SystemTime::now()
}

/// A second handle on shared bytes.
///
/// Trusted: `Arc::clone` returns a pointer to the same allocation, so the
/// contract claims the clone holds the same value.
#[verifier::external_body]
fn share(bytes: &Arc<Vec<u8>>) -> (r: Arc<Vec<u8>>)
    ensures
        r == *bytes,
{
    Arc::clone(bytes)
}

/// How many bytes a shared buffer holds.
///
/// Trusted: calls `Vec::len`. The contract claims the length, and that it
/// is at most `isize::MAX`: std documents that a vector never allocates
/// more than `isize::MAX` bytes.
#[verifier::external_body]
fn byte_len(bytes: &Arc<Vec<u8>>) -> (r: usize)
    ensures
        r == (**bytes)@.len(),
        r <= isize::MAX,
{
    bytes.len()
}

/// Where a job stands; a success carries the solver's solution.
#[derive(Debug, Clone)]
pub enum JobStatus<S> {
    Solving,
    Success(Box<S>),
    Failure(String),
}

/// What a status says: a success with the solution it holds.
pub enum StatusView<S> {
    Solving,
    Success(S),
    Failure(Seq<char>),
}

impl<S> View for JobStatus<S> {
    type V = StatusView<S>;

    open spec fn view(&self) -> StatusView<S> {
        match self {
            JobStatus::Solving => StatusView::Solving,
            JobStatus::Success(sol) => StatusView::Success(**sol),
            JobStatus::Failure(m) => StatusView::Failure(m@),
        }
    }
}

#[derive(Debug)]
pub struct Job<S> {
    pub status: JobStatus<S>,
    pub filename: String,
    pub started: SystemTime,
    pub finished: Option<SystemTime>,
}

/// What a job records.
pub struct JobView<S> {
    pub status: StatusView<S>,
    pub filename: Seq<char>,
    pub started: SystemTime,
    pub finished: Option<SystemTime>,
}

impl<S> View for Job<S> {
    type V = JobView<S>;

    open spec fn view(&self) -> JobView<S> {
        JobView { status: self.status@, filename: self.filename@, started: self.started, finished: self.finished }
    }
}

#[derive(Debug, Clone, Copy)]
pub struct Submission {
    pub job: u64,
    pub received: SystemTime,
}

/// A file a solve produced and a client may come back for: the solved FITS,
/// the sky chart.
#[derive(Debug, Clone)]
pub struct Artifact {
    pub content_type: &'static str,
    /// Download name, for Content-Disposition.
    pub filename: String,
    pub bytes: Arc<Vec<u8>>,
}

/// What an artifact holds.
pub struct ArtifactView {
    pub content_type: Seq<char>,
    pub filename: Seq<char>,
    pub bytes: Seq<u8>,
}

impl View for Artifact {
    type V = ArtifactView;

    open spec fn view(&self) -> ArtifactView {
        ArtifactView { content_type: self.content_type@, filename: self.filename@, bytes: (*self.bytes)@ }
    }
}

impl Artifact {
    /// A copy sharing the same bytes.
    pub fn duplicate(&self) -> (r: Artifact)
        ensures
            r@ == self@,
    {
        Artifact { content_type: self.content_type, filename: self.filename.clone(), bytes: share(&self.bytes) }
    }
}

/// How much of the artifact cache we keep. Solved FITS files are as large as
/// the images that produced them, so this is a byte budget rather than a
/// count: clients fetch them moments after solving, and an unbounded map
/// would be a memory leak with a slow fuse.
pub const ARTIFACT_BUDGET: usize = 268435456;

/// A cached artifact: job, kind and the artifact.
pub type Cached = (u64, Seq<char>, ArtifactView);

/// Bytes held by the cached artifacts.
pub open spec fn total_bytes(items: Seq<Cached>) -> nat
    decreases items.len(),
{
    if items.len() == 0 {
        0
    } else {
        total_bytes(items.drop_last()) + items.last().2.bytes.len()
    }
}

/// The cached artifacts except the one for `(job, kind)`, in order.
pub open spec fn without(items: Seq<Cached>, job: u64, kind: Seq<char>) -> Seq<Cached>
    decreases items.len(),
{
    if items.len() == 0 {
        seq![]
    } else {
        let rest = without(items.drop_last(), job, kind);
        let it = items.last();
        if it.0 == job && it.1 == kind {
            rest
        } else {
            rest.push(it)
        }
    }
}

/// Drop the oldest artifacts while the cache is over budget and holds more
/// than one.
pub open spec fn evict(items: Seq<Cached>) -> Seq<Cached>
    decreases items.len(),
{
    if total_bytes(items) > ARTIFACT_BUDGET && items.len() > 1 {
        evict(items.drop_first())
    } else {
        items
    }
}

/// The artifact cached for `(job, kind)`, if any.
pub open spec fn lookup_artifact(items: Seq<Cached>, job: u64, kind: Seq<char>) -> Option<ArtifactView>
    decreases items.len(),
{
    if items.len() == 0 {
        None
    } else if items[0].0 == job && items[0].1 == kind {
        Some(items[0].2)
    } else {
        lookup_artifact(items.drop_first(), job, kind)
    }
}

/// No two cached artifacts share a job and kind.
pub open spec fn keys_unique(items: Seq<Cached>) -> bool {
    forall|i: int, j: int| 0 <= i < j < items.len() ==> !(#[trigger] items[i].0 == #[trigger] items[j].0 && items[i].1 == items[j].1)
}

/// `got` is a copy of the job `stored`: the same status, file name and
/// times, and a success holds a clone of the stored solution.
pub open spec fn copied_job<S: Clone>(stored: JobView<S>, got: JobView<S>) -> bool {
    &&& got.filename == stored.filename
    &&& got.started == stored.started
    &&& got.finished == stored.finished
    &&& match (stored.status, got.status) {
        (StatusView::Solving, StatusView::Solving) => true,
        (StatusView::Success(a), StatusView::Success(b)) => cloned::<S>(a, b),
        (StatusView::Failure(m), StatusView::Failure(n)) => m == n,
        _ => false,
    }
}

struct Artifacts {
    /// Insertion-ordered so the oldest is the first evicted.
    items: VecDeque<((u64, &'static str), Artifact)>,
    bytes: usize,
}

/// The cached artifacts as plain values.
pub open spec fn cached_of(items: Seq<((u64, &'static str), Artifact)>) -> Seq<Cached> {
    items.map_values(|it: ((u64, &'static str), Artifact)| (it.0.0, it.0.1@, it.1@))
}

/// In-memory job store, generic over the solution a successful job holds.
pub struct Store<S> {
    next: u64,
    subs: HashMap<u64, Submission>,
    jobs: HashMap<u64, Job<S>>,
    artifacts: Artifacts,
}

impl<S> Store<S> {
    /// The last id handed out.
    pub closed spec fn last_id(&self) -> u64 {
        self.next
    }

    pub closed spec fn submissions(&self) -> Map<u64, Submission> {
        self.subs@
    }

    pub closed spec fn jobs(&self) -> Map<u64, JobView<S>> {
        self.jobs@.map_values(|j: Job<S>| j@)
    }

    /// The cached artifacts, oldest first.
    pub closed spec fn cached(&self) -> Seq<Cached> {
        cached_of(self.artifacts.items@)
    }

    /// The store's invariant: the byte count is the cache's size, each job
    /// and kind is cached once, and the cache is within budget unless it
    /// holds a single artifact (which, like every buffer, holds at most
    /// `isize::MAX` bytes).
    pub closed spec fn wf(&self) -> bool {
        &&& self.artifacts.bytes == total_bytes(self.cached())
        &&& keys_unique(self.cached())
        &&& (total_bytes(self.cached()) <= ARTIFACT_BUDGET || self.cached().len() <= 1)
        &&& total_bytes(self.cached()) <= isize::MAX
    }

    /// An empty store.
    pub fn new() -> (s: Store<S>)
        ensures
            s.wf(),
            s.last_id() == 0,
            s.submissions() == Map::<u64, Submission>::empty(),
            s.jobs() == Map::<u64, JobView<S>>::empty(),
            s.cached() == Seq::<Cached>::empty(),
    {
        let s = Store { next: 0, subs: HashMap::new(), jobs: HashMap::new(), artifacts: Artifacts { items: VecDeque::new(), bytes: 0 } };
        assert(s.jobs@.map_values(|j: Job<S>| j@) =~= Map::<u64, JobView<S>>::empty());
        assert(cached_of(s.artifacts.items@) =~= Seq::<Cached>::empty());
        s
    }

    /// The last id handed out (0 before the first).
    pub fn last_issued(&self) -> (r: u64)
        ensures
            r == self.last_id(),
    {
        self.next
    }

    /// How many artifacts the cache holds.
    pub fn cached_count(&self) -> (r: usize)
        ensures
            r == self.cached().len(),
    {
        self.artifacts.items.len()
    }

    /// The bytes the cached artifacts take.
    pub fn cached_bytes(&self) -> (r: usize)
        requires
            self.wf(),
        ensures
            r == total_bytes(self.cached()),
    {
        self.artifacts.bytes
    }

    /// Create a submission and its job in one step (nova delays job
    /// creation; clients handle both, and immediate creation needs no
    /// state machine). Returns (submission id, job id).
    pub fn create(&mut self, filename: String) -> (r: (u64, u64))
        requires
            old(self).wf(),
            old(self).last_id() <= u64::MAX - 2,
        ensures
            final(self).wf(),
            r.0 == old(self).last_id() + 1,
            r.1 == old(self).last_id() + 2,
            final(self).last_id() == r.1,
            final(self).cached() == old(self).cached(),
            final(self).submissions().contains_key(r.0),
            final(self).submissions() == old(self).submissions().insert(r.0, final(self).submissions()[r.0]),
            final(self).submissions()[r.0].job == r.1,
            final(self).jobs().contains_key(r.1),
            final(self).jobs() == old(self).jobs().insert(r.1, final(self).jobs()[r.1]),
            final(self).jobs()[r.1].status is Solving,
            final(self).jobs()[r.1].filename == filename@,
            final(self).jobs()[r.1].started == final(self).submissions()[r.0].received,
            final(self).jobs()[r.1].finished is None,
    {
        let sub_id = self.next + 1;
        let job_id = self.next + 2;
        self.next = job_id;
        let now = clock_now();
        self.subs.insert(sub_id, Submission { job: job_id, received: now });
        let job = Job { status: JobStatus::Solving, filename, started: now, finished: None };
        let ghost jv = job@;
        let ghost old_jobs = self.jobs@;
        self.jobs.insert(job_id, job);
        assert(self.jobs@.map_values(|j: Job<S>| j@) =~= old_jobs.map_values(|j: Job<S>| j@).insert(job_id, jv));
        (sub_id, job_id)
    }

    pub fn submission(&self, id: u64) -> (r: Option<Submission>)
        ensures
            match r {
                Some(s) => self.submissions().contains_key(id) && s == self.submissions()[id],
                None => !self.submissions().contains_key(id),
            },
    {
        match self.subs.get(&id) {
            Some(s) => Some(*s),
            None => None,
        }
    }

    pub fn finish(&mut self, job_id: u64, status: JobStatus<S>)
        requires
            old(self).wf(),
        ensures
            final(self).wf(),
            final(self).last_id() == old(self).last_id(),
            final(self).submissions() == old(self).submissions(),
            final(self).cached() == old(self).cached(),
            old(self).jobs().contains_key(job_id) ==> {
                let j = final(self).jobs()[job_id];
                &&& final(self).jobs() == old(self).jobs().insert(job_id, j)
                &&& j.status == status@
                &&& j.filename == old(self).jobs()[job_id].filename
                &&& j.started == old(self).jobs()[job_id].started
                &&& j.finished is Some
            },
            !old(self).jobs().contains_key(job_id) ==> final(self).jobs() == old(self).jobs(),
    {
        let ghost old_jobs = self.jobs@;
        match self.jobs.remove(&job_id) {
            Some(job) => {
                let now = clock_now();
                let updated = Job { status, filename: job.filename, started: job.started, finished: Some(now) };
                let ghost jv = updated@;
                self.jobs.insert(job_id, updated);
                assert(self.jobs@.map_values(|j: Job<S>| j@) =~= old_jobs.map_values(|j: Job<S>| j@).insert(job_id, jv));
            },
            None => {},
        }
    }
}

impl<S: Clone> Store<S> {
    pub fn job(&self, id: u64) -> (r: Option<Job<S>>)
        ensures
            match r {
                Some(j) => self.jobs().contains_key(id) && copied_job(self.jobs()[id], j@),
                None => !self.jobs().contains_key(id),
            },
    {
        match self.jobs.get(&id) {
            Some(j) => {
                let status = match &j.status {
                    JobStatus::Solving => JobStatus::Solving,
                    JobStatus::Success(sol) => JobStatus::Success(sol.clone()),
                    JobStatus::Failure(m) => JobStatus::Failure(m.clone()),
                };
                Some(Job { status, filename: j.filename.clone(), started: j.started, finished: j.finished })
            },
            None => None,
        }
    }
}

impl<S> Default for Store<S> {
    fn default() -> (s: Store<S>)
        ensures
            s.wf(),
            s.last_id() == 0,
            s.submissions() == Map::<u64, Submission>::empty(),
            s.jobs() == Map::<u64, JobView<S>>::empty(),
            s.cached() == Seq::<Cached>::empty(),
    {
        Store::new()
    }
}

proof fn lemma_total_push(items: Seq<Cached>, it: Cached)
    ensures
        total_bytes(items.push(it)) == total_bytes(items) + it.2.bytes.len(),
{
    assert(items.push(it).drop_last() =~= items);
}

proof fn lemma_total_drop_first(items: Seq<Cached>)
    requires
        items.len() > 0,
    ensures
        total_bytes(items) == items[0].2.bytes.len() + total_bytes(items.drop_first()),
    decreases items.len(),
{
    if items.len() > 1 {
        lemma_total_drop_first(items.drop_last());
        assert(items.drop_last().drop_first() =~= items.drop_first().drop_last());
        assert(items.drop_first().last() == items.last());
        assert(items.drop_last()[0] == items[0]);
        assert(total_bytes(items) == total_bytes(items.drop_last()) + items.last().2.bytes.len());
        assert(total_bytes(items.drop_first()) == total_bytes(items.drop_first().drop_last()) + items.drop_first().last().2.bytes.len());
    } else {
        assert(items.drop_first() =~= Seq::<Cached>::empty());
        assert(items.drop_last() =~= Seq::<Cached>::empty());
        assert(total_bytes(items) == total_bytes(items.drop_last()) + items.last().2.bytes.len());
        assert(items.last() == items[0]);
    }
}

proof fn lemma_without_unique(items: Seq<Cached>, job: u64, kind: Seq<char>)
    requires
        keys_unique(items),
    ensures
        keys_unique(without(items, job, kind)),
        forall|i: int| 0 <= i < without(items, job, kind).len() ==> !(#[trigger] without(items, job, kind)[i].0 == job && without(items, job, kind)[i].1 == kind),
        forall|i: int| 0 <= i < without(items, job, kind).len() ==> items.contains(#[trigger] without(items, job, kind)[i]),
        total_bytes(without(items, job, kind)) <= total_bytes(items),
    decreases items.len(),
{
    if items.len() > 0 {
        let pre = items.drop_last();
        assert forall|i: int, j: int| 0 <= i < j < pre.len() implies !(#[trigger] pre[i].0 == #[trigger] pre[j].0 && pre[i].1 == pre[j].1) by {
            assert(pre[i] == items[i] && pre[j] == items[j]);
        }
        lemma_without_unique(pre, job, kind);
        let rest = without(pre, job, kind);
        let it = items.last();
        if !(it.0 == job && it.1 == kind) {
            let w = rest.push(it);
            assert forall|i: int| 0 <= i < rest.len() implies !(#[trigger] rest[i].0 == it.0 && rest[i].1 == it.1) by {
                assert(pre.contains(rest[i]));
                let k = choose|k: int| 0 <= k < pre.len() && pre[k] == rest[i];
                assert(items[k] == pre[k]);
                assert(items[items.len() - 1] == it);
            }
            assert forall|i: int, j: int| 0 <= i < j < w.len() implies !(#[trigger] w[i].0 == #[trigger] w[j].0 && w[i].1 == w[j].1) by {
                if j == w.len() - 1 {
                    assert(w[j] == it);
                    assert(w[i] == rest[i]);
                } else {
                    assert(w[i] == rest[i] && w[j] == rest[j]);
                }
            }
            assert forall|i: int| 0 <= i < w.len() implies items.contains(#[trigger] w[i]) by {
                if i == w.len() - 1 {
                    assert(items[items.len() - 1] == w[i]);
                } else {
                    assert(pre.contains(rest[i]));
                    let k = choose|k: int| 0 <= k < pre.len() && pre[k] == rest[i];
                    assert(items[k] == w[i]);
                }
            }
            lemma_total_push(rest, it);
        } else {
            assert forall|i: int| 0 <= i < rest.len() implies items.contains(#[trigger] rest[i]) by {
                assert(pre.contains(rest[i]));
                let k = choose|k: int| 0 <= k < pre.len() && pre[k] == rest[i];
                assert(items[k] == rest[i]);
            }
        }
    }
}

proof fn lemma_evict(items: Seq<Cached>)
    requires
        keys_unique(items),
        items.len() > 0,
    ensures
        keys_unique(evict(items)),
        evict(items).len() > 0,
        evict(items).last() == items.last(),
        total_bytes(evict(items)) <= ARTIFACT_BUDGET || evict(items).len() == 1,
        exists|k: int| 0 <= k < items.len() && evict(items) == items.skip(k),
    decreases items.len(),
{
    if total_bytes(items) > ARTIFACT_BUDGET && items.len() > 1 {
        let rest = items.drop_first();
        assert forall|i: int, j: int| 0 <= i < j < rest.len() implies !(#[trigger] rest[i].0 == #[trigger] rest[j].0 && rest[i].1 == rest[j].1) by {
            assert(rest[i] == items[i + 1] && rest[j] == items[j + 1]);
        }
        lemma_evict(rest);
        let k = choose|k: int| 0 <= k < rest.len() && evict(rest) == rest.skip(k);
        assert(rest.skip(k) =~= items.skip(k + 1));
    } else {
        assert(items.skip(0) =~= items);
    }
}

proof fn lemma_lookup_last(items: Seq<Cached>)
    requires
        keys_unique(items),
        items.len() > 0,
    ensures
        lookup_artifact(items, items.last().0, items.last().1) == Some(items.last().2),
    decreases items.len(),
{
    if items.len() > 1 {
        let rest = items.drop_first();
        assert(!(items[0].0 == items[items.len() - 1].0 && items[0].1 == items[items.len() - 1].1));
        assert forall|i: int, j: int| 0 <= i < j < rest.len() implies !(#[trigger] rest[i].0 == #[trigger] rest[j].0 && rest[i].1 == rest[j].1) by {
            assert(rest[i] == items[i + 1] && rest[j] == items[j + 1]);
        }
        lemma_lookup_last(rest);
    }
}

proof fn lemma_without_prefix(items: Seq<Cached>, job: u64, kind: Seq<char>, c: int)
    requires
        0 <= c <= items.len(),
    ensures
        total_bytes(without(items.take(c), job, kind)) <= total_bytes(without(items, job, kind)),
    decreases items.len(),
{
    if c < items.len() {
        let pre = items.drop_last();
        assert(items.take(c) =~= pre.take(c));
        lemma_without_prefix(pre, job, kind, c);
        if !(items.last().0 == job && items.last().1 == kind) {
            lemma_total_push(without(pre, job, kind), items.last());
        }
    } else {
        assert(items.take(c) =~= items);
    }
}

impl<S> Store<S> {
    /// Store a job's output file, evicting the oldest ones once the cache
    /// exceeds its byte budget. Re-solving a job replaces its output rather
    /// than stacking another; the newest file always survives, even when it
    /// alone is over budget.
    pub fn put_artifact(&mut self, job: u64, kind: &'static str, artifact: Artifact)
        requires
            old(self).wf(),
        ensures
            final(self).wf(),
            final(self).last_id() == old(self).last_id(),
            final(self).submissions() == old(self).submissions(),
            final(self).jobs() == old(self).jobs(),
            final(self).cached() == evict(without(old(self).cached(), job, kind@).push((job, kind@, artifact@))),
            lookup_artifact(final(self).cached(), job, kind@) == Some(artifact@),
            total_bytes(final(self).cached()) <= ARTIFACT_BUDGET || final(self).cached().len() == 1,
    {
        let ghost old_items = self.cached();
        let n = byte_len(&artifact.bytes);
        proof {
            lemma_without_unique(old_items, job, kind@);
            assert(isize::MAX as int + isize::MAX as int <= usize::MAX as int) by {
                assert(usize::MAX == 0xffff_ffff_ffff_ffff || usize::MAX == 0xffff_ffff);
                assert(usize::MAX == 0xffff_ffff_ffff_ffff ==> isize::MAX == 0x7fff_ffff_ffff_ffff);
                assert(usize::MAX == 0xffff_ffff ==> isize::MAX == 0x7fff_ffff);
            }
        }
        let mut kept: VecDeque<((u64, &'static str), Artifact)> = VecDeque::new();
        let mut sum: usize = 0;
        let ghost mut consumed: int = 0;
        assert(cached_of(kept@) =~= without(old_items.take(0), job, kind@));
        assert(old_items.skip(0) =~= old_items);
        while self.artifacts.items.len() > 0
            invariant
                self.next == old(self).next,
                self.subs@ == old(self).subs@,
                self.jobs@ == old(self).jobs@,
                0 <= consumed <= old_items.len(),
                cached_of(self.artifacts.items@) == old_items.skip(consumed),
                cached_of(kept@) == without(old_items.take(consumed), job, kind@),
                sum == total_bytes(cached_of(kept@)),
                total_bytes(without(old_items, job, kind@)) + (*artifact.bytes)@.len() <= usize::MAX,
            decreases self.artifacts.items@.len(),
        {
            let ghost before = cached_of(kept@);
            let ghost raw = self.artifacts.items@;
            if let Some(it) = self.artifacts.items.pop_front() {
                assert(cached_of(raw)[0] == (it.0.0, it.0.1@, it.1@));
                assert(cached_of(raw).len() == raw.len());
                assert(consumed < old_items.len());
                assert(old_items.skip(consumed)[0] == old_items[consumed]);
                assert(cached_of(self.artifacts.items@) =~= cached_of(raw).drop_first());
                assert(old_items.take(consumed + 1) =~= old_items.take(consumed).push(old_items[consumed]));
                assert(old_items.take(consumed + 1).drop_last() =~= old_items.take(consumed));
                assert(cached_of(self.artifacts.items@) =~= old_items.skip(consumed + 1));
                let same = it.0.0 == job && str_eq(it.0.1, kind);
                if !same {
                    let n = it.1.bytes.len();
                    proof {
                        lemma_total_push(before, (it.0.0, it.0.1@, it.1@));
                        lemma_without_prefix(old_items, job, kind@, consumed + 1);
                    }
                    sum = sum + n;
                    kept.push_back(it);
                    assert(cached_of(kept@) =~= before.push((it.0.0, it.0.1@, it.1@)));
                }
                proof { consumed = consumed + 1; }
            }
        }
        assert(cached_of(self.artifacts.items@).len() == self.artifacts.items@.len());
        assert(old_items.skip(consumed).len() == 0);
        assert(consumed == old_items.len());
        assert(old_items.take(consumed) =~= old_items);
        let ghost filtered = cached_of(kept@);
        let ghost newest = (job, kind@, artifact@);
        proof { lemma_total_push(filtered, newest); }
        sum = sum + n;
        kept.push_back(((job, kind), artifact));
        let ghost pushed = filtered.push(newest);
        assert(cached_of(kept@) =~= pushed);
        assert(keys_unique(pushed)) by {
            assert forall|i: int, j: int| 0 <= i < j < pushed.len() implies !(#[trigger] pushed[i].0 == #[trigger] pushed[j].0 && pushed[i].1 == pushed[j].1) by {
                if j == pushed.len() - 1 {
                    assert(pushed[i] == filtered[i]);
                } else {
                    assert(pushed[i] == filtered[i] && pushed[j] == filtered[j]);
                }
            }
        }
        proof { lemma_evict(pushed); }
        while sum > ARTIFACT_BUDGET && kept.len() > 1
            invariant
                self.next == old(self).next,
                self.subs@ == old(self).subs@,
                self.jobs@ == old(self).jobs@,
                evict(pushed) == evict(cached_of(kept@)),
                sum == total_bytes(cached_of(kept@)),
                cached_of(kept@).len() > 0,
            decreases kept@.len(),
        {
            let ghost cur = cached_of(kept@);
            proof { lemma_total_drop_first(cur); }
            match kept.pop_front() {
                Some(dropped) => {
                    sum = sum.saturating_sub(dropped.1.bytes.len());
                },
                None => {},
            }
            assert(cached_of(kept@) =~= cur.drop_first());
        }
        assert(evict(cached_of(kept@)) == cached_of(kept@));
        assert(sum <= isize::MAX) by {
            assert(isize::MAX >= 0x7fff_ffff) by {
                assert(usize::MAX == 0xffff_ffff_ffff_ffff || usize::MAX == 0xffff_ffff);
            }
            let fin = cached_of(kept@);
            if total_bytes(fin) > ARTIFACT_BUDGET {
                assert(fin.len() == 1);
                assert(fin == evict(pushed));
                assert(pushed.last() == newest);
                assert(fin.last() == newest);
                assert(fin.drop_last() =~= Seq::<Cached>::empty());
                assert(total_bytes(fin) == total_bytes(fin.drop_last()) + fin.last().2.bytes.len());
                assert(newest.2.bytes.len() == n);
            }
        }
        self.artifacts = Artifacts { items: kept, bytes: sum };
        proof { lemma_lookup_last(evict(pushed)); }
    }

    /// The artifact cached for `(job, kind)`, if any.
    pub fn artifact(&self, job: u64, kind: &str) -> (r: Option<Artifact>)
        ensures
            match r {
                Some(a) => lookup_artifact(self.cached(), job, kind@) == Some(a@),
                None => lookup_artifact(self.cached(), job, kind@) is None,
            },
    {
        let ghost items = self.cached();
        let mut i: usize = 0;
        assert(items.skip(0) =~= items);
        while i < self.artifacts.items.len()
            invariant
                i <= items.len(),
                items == cached_of(self.artifacts.items@),
                lookup_artifact(items, job, kind@) == lookup_artifact(items.skip(i as int), job, kind@),
            decreases items.len() - i,
        {
            let it = &self.artifacts.items[i];
            assert(items.skip(i as int)[0] == (it.0.0, it.0.1@, it.1@));
            if it.0.0 == job && str_eq(it.0.1, kind) {
                return Some(it.1.duplicate());
            }
            assert(items.skip(i as int).drop_first() =~= items.skip(i + 1));
            i = i + 1;
        }
        None
    }
}

/// nova-style timestamp "YYYY-MM-DD HH:MM:SS.ffffff" for a time `secs`
/// whole seconds and `micros` microseconds after the Unix epoch.
pub open spec fn time_text(secs: int, micros: int) -> Seq<char> {
    utc_text(secs) + seq!['.'] + zero_pad(micros, 6)
}

/// nova-style timestamp: "YYYY-MM-DD HH:MM:SS.ffffff", from the whole
/// seconds and the microseconds since the Unix epoch.
pub fn format_time(secs: i64, micros: u32) -> (r: String)
    ensures
        r@ == time_text(secs as int, micros as int),
{
    let mut out: Vec<char> = Vec::new();
    push_utc(secs, &mut out);
    out.push('.');
    push_zero_padded(micros as i64, 6, &mut out);
    assert(out@ =~= time_text(secs as int, micros as int));
    string_of(out)
}


/// nova's word for a job's status.
pub fn status_word<S>(status: &JobStatus<S>) -> (r: &'static str)
    ensures
        r@ == match status@ {
            StatusView::Solving => "solving"@,
            StatusView::Success(_) => "success"@,
            StatusView::Failure(_) => "failure"@,
        },
{
    match status {
        JobStatus::Solving => "solving",
        JobStatus::Success(_) => "success",
        JobStatus::Failure(_) => "failure",
    }
}

/// What a client waiting on a job does next.
#[derive(Debug, Clone, Copy, PartialEq, Eq)]
pub enum Waiting {
    /// The job solved: answer with the solution.
    Solved,
    /// The job failed: answer with its message.
    Failed,
    /// Still solving past the deadline: give up.
    TimedOut,
    /// Still solving: wait a little and look again.
    KeepWaiting,
    /// The job is gone.
    Vanished,
}

/// The next step of a client waiting on a job, given what the store says
/// of it and whether the deadline has passed.
pub fn await_step<S>(status: Option<&JobStatus<S>>, past_deadline: bool) -> (r: Waiting)
    ensures
        r == match status {
            None => Waiting::Vanished,
            Some(st) => match st@ {
                StatusView::Success(_) => Waiting::Solved,
                StatusView::Failure(_) => Waiting::Failed,
                StatusView::Solving => if past_deadline { Waiting::TimedOut } else { Waiting::KeepWaiting },
            },
        },
{
    match status {
        None => Waiting::Vanished,
        Some(JobStatus::Success(_)) => Waiting::Solved,
        Some(JobStatus::Failure(_)) => Waiting::Failed,
        Some(JobStatus::Solving) => if past_deadline { Waiting::TimedOut } else { Waiting::KeepWaiting },
    }
}
} // verus!
