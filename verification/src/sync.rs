//! A run: which peers are visited, what is done with each repo, and how it is
//! counted.

use vstd::prelude::*;
use vstd::utf8::{decode_utf8, valid_utf8};

use crate::config::{Config, DEFAULT_BODY};
use crate::merge::MergeStats;
use crate::peer::{valid_key, validate_repo_key};
use crate::state::{recorded, repos_of, Bookkeeping, RepoState};
use crate::text;
use crate::text::{sorted, sorted_distinct, texts, trimmed};

verus! {

// ---------------------------------------------------------------------------
// Local repos
// ---------------------------------------------------------------------------

/// An entry of the local data directory.
#[derive(Debug)]
pub struct LocalEntry<S = String> {
    pub name: S,
    pub is_dir: bool,
    /// The size of the entry's `index.db`, where that is a file.
    pub index_size: Option<u64>,
}

impl View for LocalEntry {
    type V = LocalEntry<Seq<char>>;

    open spec fn view(&self) -> LocalEntry<Seq<char>> {
        LocalEntry { name: self.name@, is_dir: self.is_dir, index_size: self.index_size }
    }
}

/// Entries by their views.
pub open spec fn entries_view(v: Seq<LocalEntry>) -> Seq<LocalEntry<Seq<char>>> {
    v.map_values(|e: LocalEntry| e@)
}

/// Whether an entry can be a repo, before its index is looked at.
pub fn is_repo_dir(name: &str, is_dir: bool) -> (r: bool)
    ensures
        r == (is_dir && valid_key(name@)),
{
    is_dir && validate_repo_key(name).is_ok()
}

/// An entry that is a repo: a directory with a valid key for its name and an
/// `index.db` that is not empty.
pub open spec fn local_repo(e: LocalEntry<Seq<char>>) -> bool {
    &&& e.is_dir
    &&& valid_key(e.name)
    &&& e.index_size matches Some(n) && n > 0
}

/// The names of the entries that are repos, in the order of the entries.
pub open spec fn repo_names(entries: Seq<LocalEntry<Seq<char>>>) -> Seq<Seq<char>>
    decreases entries.len(),
{
    if entries.len() == 0 {
        Seq::empty()
    } else if local_repo(entries.last()) {
        repo_names(entries.drop_last()).push(entries.last().name)
    } else {
        repo_names(entries.drop_last())
    }
}

/// The repos in the local data directory, in order; none where it does not exist.
pub fn list_local_repos(entries: Option<&Vec<LocalEntry>>) -> (r: Vec<String>)
    ensures
        texts(r@) == match entries {
            Some(v) => sorted(repo_names(entries_view(v@))),
            None => Seq::<Seq<char>>::empty(),
        },
        forall|i: int| 0 <= i < r@.len() ==> valid_key((#[trigger] r@[i])@),
        entries matches Some(v) ==> forall|name: Seq<char>| #[trigger]
            texts(r@).contains(name) <==> exists|i: int|
                0 <= i < v@.len() && (#[trigger] v@[i]).name@ == name && v@[i].is_dir && valid_key(
                    name,
                ) && v@[i].index_size is Some && v@[i].index_size->0 > 0,
{
    let entries = match entries {
        Some(v) => v,
        None => {
            let none: Vec<String> = Vec::new();
            assert(texts(none@) =~= Seq::<Seq<char>>::empty());
            return none;
        },
    };
    let ghost all = entries_view(entries@);
    let mut keys: Vec<String> = Vec::new();
    assert(texts(keys@) =~= repo_names(all.take(0)));
    for i in 0..entries.len()
        invariant
            all == entries_view(entries@),
            texts(keys@) =~= repo_names(all.take(i as int)),
    {
        let e = &entries[i];
        let ghost sofar = all.take(i + 1);
        let ghost was = texts(keys@);
        assert(sofar.drop_last() =~= all.take(i as int));
        assert(sofar.last() == e@);
        let filled = match e.index_size {
            Some(n) => n > 0,
            None => false,
        };
        if is_repo_dir(e.name.as_str(), e.is_dir) && filled {
            keys.push(e.name.clone());
            assert(texts(keys@) =~= was.push(e@.name));
        }
    }
    assert(all.take(all.len() as int) =~= all);
    let keys = text::sort(keys);
    proof {
        lemma_repo_names_valid(all);
        assert forall|i: int| 0 <= i < keys@.len() implies valid_key((#[trigger] keys@[i])@) by {
            text::lemma_sorting_holds_same(texts(keys@), repo_names(all), texts(keys@)[i]);
        }
        assert forall|name: Seq<char>| #[trigger]
            texts(keys@).contains(name) <==> exists|i: int|
                0 <= i < entries@.len() && (#[trigger] entries@[i]).name@ == name
                    && entries@[i].is_dir && valid_key(name) && entries@[i].index_size is Some
                    && entries@[i].index_size->0 > 0 by {
            lemma_local_listing_complete(all, name);
            assert(forall|i: int| 0 <= i < all.len() ==> #[trigger] all[i] == entries@[i]@);
            if texts(keys@).contains(name) {
                let i = choose|i: int|
                    0 <= i < all.len() && (#[trigger] all[i]).name == name && all[i].is_dir
                        && valid_key(name) && all[i].index_size is Some && all[i].index_size->0 > 0;
                assert(entries@[i].name@ == name);
            }
            if exists|i: int|
                0 <= i < entries@.len() && (#[trigger] entries@[i]).name@ == name
                    && entries@[i].is_dir && valid_key(name) && entries@[i].index_size is Some
                    && entries@[i].index_size->0 > 0 {
                let i = choose|i: int|
                    0 <= i < entries@.len() && (#[trigger] entries@[i]).name@ == name
                        && entries@[i].is_dir && valid_key(name) && entries@[i].index_size is Some
                        && entries@[i].index_size->0 > 0;
                assert(all[i].name == name);
            }
        }
    }
    keys
}

/// Every local repo has a valid key.
pub proof fn lemma_repo_names_valid(entries: Seq<LocalEntry<Seq<char>>>)
    ensures
        forall|key: Seq<char>| #[trigger] repo_names(entries).contains(key) ==> valid_key(key),
    decreases entries.len(),
{
    if entries.len() > 0 {
        let rest = repo_names(entries.drop_last());
        lemma_repo_names_valid(entries.drop_last());
        assert forall|key: Seq<char>| #[trigger]
            repo_names(entries).contains(key) implies valid_key(key) by {
            let all = repo_names(entries);
            let i = choose|i: int| 0 <= i < all.len() && all[i] == key;
            if i < rest.len() {
                assert(rest[i] == key);
                assert(rest.contains(key));
            }
        }
    }
}

/// The path of a repo's index below the data directory.
pub fn index_file(key: &str) -> (r: String)
    ensures
        r@ == key@ + "/index.db"@,
{
    text::joined(key, "/index.db")
}

// ---------------------------------------------------------------------------
// What is done with each repo
// ---------------------------------------------------------------------------

/// What is done with a repo that either side has.
#[derive(Debug, Clone, Copy, PartialEq, Eq, Structural)]
pub enum RepoAction {
    /// Both have it: the peer's rows are merged into the local index.
    Merge,
    /// The peer alone has it: its index becomes the local one.
    PullInit,
    /// This machine alone has it: the local index becomes the peer's.
    PushSeed,
}

/// What is done with a repo, by who has it.
pub open spec fn action_for(in_local: bool, in_peer: bool) -> RepoAction
    recommends
        in_local || in_peer,
{
    if in_local && in_peer {
        RepoAction::Merge
    } else if in_peer {
        RepoAction::PullInit
    } else {
        RepoAction::PushSeed
    }
}

/// A repo and what is done with it.
#[derive(Debug)]
pub struct PlannedRepo<S = String> {
    pub key: S,
    pub action: RepoAction,
}

impl View for PlannedRepo {
    type V = PlannedRepo<Seq<char>>;

    open spec fn view(&self) -> PlannedRepo<Seq<char>> {
        PlannedRepo { key: self.key@, action: self.action }
    }
}

/// A plan by its view.
pub open spec fn plan_view(v: Seq<PlannedRepo>) -> Seq<PlannedRepo<Seq<char>>> {
    v.map_values(|p: PlannedRepo| p@)
}

/// What is done with the repos of two sides: each repo that either has, once, in
/// order.
pub open spec fn planned(local: Seq<Seq<char>>, peer: Seq<Seq<char>>) -> Seq<
    PlannedRepo<Seq<char>>,
> {
    sorted_distinct(local + peer).map_values(
        |key: Seq<char>|
            PlannedRepo { key, action: action_for(local.contains(key), peer.contains(key)) },
    )
}

/// Plans what is done with the repos of two sides.
pub fn plan(local_keys: &Vec<String>, remote_keys: &Vec<String>) -> (r: Vec<PlannedRepo>)
    ensures
        plan_view(r@) == planned(texts(local_keys@), texts(remote_keys@)),
{
    let mut all = text::copy_list(local_keys);
    let mut more = text::copy_list(remote_keys);
    all.append(&mut more);
    let ghost local = texts(local_keys@);
    let ghost peer = texts(remote_keys@);
    assert(texts(all@) =~= local + peer);
    let keys = text::sort_distinct(all);
    let mut out: Vec<PlannedRepo> = Vec::new();
    for i in 0..keys.len()
        invariant
            local == texts(local_keys@),
            peer == texts(remote_keys@),
            texts(keys@) == sorted_distinct(local + peer),
            plan_view(out@) =~= planned(local, peer).take(i as int),
    {
        let key = keys[i].clone();
        assert(texts(keys@)[i as int] == key@);
        let in_local = text::has(local_keys, key.as_str());
        let in_peer = text::has(remote_keys, key.as_str());
        let action = if in_local && in_peer {
            RepoAction::Merge
        } else if in_peer {
            RepoAction::PullInit
        } else {
            RepoAction::PushSeed
        };
        let ghost was = plan_view(out@);
        out.push(PlannedRepo { key, action });
        assert(plan_view(out@) =~= was.push(PlannedRepo { key: key@, action }));
        assert(planned(local, peer).take(i + 1) =~= planned(local, peer).take(i as int).push(
            planned(local, peer)[i as int],
        ));
    }
    assert(planned(local, peer).take(keys@.len() as int) =~= planned(local, peer));
    out
}

/// A plan covers the repos of both sides and no others, each once. A repo that
/// both sides have is merged, and so only read at the peer: something is pushed
/// to a peer only where it lacks the repo, and pulled whole only where this
/// machine lacks it.
pub proof fn lemma_plan_covers_both_sides(local: Seq<Seq<char>>, peer: Seq<Seq<char>>)
    ensures
        forall|key: Seq<char>|
            (local.contains(key) || peer.contains(key)) <==> exists|i: int|
                0 <= i < planned(local, peer).len() && (#[trigger] planned(local, peer)[i]).key
                    == key,
        forall|i: int, j: int|
            0 <= i < j < planned(local, peer).len() ==> (#[trigger] planned(local, peer)[i]).key
                != (#[trigger] planned(local, peer)[j]).key,
        forall|i: int|
            0 <= i < planned(local, peer).len() ==> {
                let p = #[trigger] planned(local, peer)[i];
                &&& p.action == RepoAction::Merge <==> local.contains(p.key) && peer.contains(p.key)
                &&& p.action == RepoAction::PullInit <==> !local.contains(p.key)
                &&& p.action == RepoAction::PushSeed <==> !peer.contains(p.key)
            },
{
    let keys = sorted_distinct(local + peer);
    let all = local + peer;
    text::lemma_distinct_sorting_exists(all);
    assert forall|key: Seq<char>| all.contains(key) <==> local.contains(key) || peer.contains(
        key,
    ) by {
        if local.contains(key) {
            let i = choose|i: int| 0 <= i < local.len() && local[i] == key;
            assert(all[i] == key);
        }
        if peer.contains(key) {
            let i = choose|i: int| 0 <= i < peer.len() && peer[i] == key;
            assert(all[local.len() + i] == key);
        }
        if all.contains(key) {
            let i = choose|i: int| 0 <= i < all.len() && all[i] == key;
            if i < local.len() {
                assert(local[i] == key);
            } else {
                assert(peer[i - local.len()] == key);
            }
        }
    }
    assert forall|key: Seq<char>|
        (local.contains(key) || peer.contains(key)) <==> exists|i: int|
            0 <= i < planned(local, peer).len() && (#[trigger] planned(local, peer)[i]).key
                == key by {
        if local.contains(key) || peer.contains(key) {
            assert(all.contains(key));
            assert(keys.contains(key));
            let i = choose|i: int| 0 <= i < keys.len() && keys[i] == key;
            assert(planned(local, peer)[i].key == key);
        }
        if exists|i: int|
            0 <= i < planned(local, peer).len() && (#[trigger] planned(local, peer)[i]).key
                == key {
            let i = choose|i: int|
                0 <= i < planned(local, peer).len() && (#[trigger] planned(local, peer)[i]).key
                    == key;
            assert(keys[i] == key);
            assert(keys.contains(key));
            assert(all.contains(key));
        }
    }
    assert forall|i: int, j: int| 0 <= i < j < planned(local, peer).len() implies (
    #[trigger] planned(local, peer)[i]).key != (#[trigger] planned(local, peer)[j]).key by {
        assert(text::before(keys[i], keys[j]));
        text::lemma_before_irreflexive(keys[i]);
    }
    assert forall|i: int| 0 <= i < planned(local, peer).len() implies {
        let p = #[trigger] planned(local, peer)[i];
        &&& p.action == RepoAction::Merge <==> local.contains(p.key) && peer.contains(p.key)
        &&& p.action == RepoAction::PullInit <==> !local.contains(p.key)
        &&& p.action == RepoAction::PushSeed <==> !peer.contains(p.key)
    } by {
        assert(planned(local, peer)[i].key == keys[i]);
        assert(keys.contains(keys[i]));
        assert(all.contains(keys[i]));
    }
}

// ---------------------------------------------------------------------------
// The work on one repo
// ---------------------------------------------------------------------------

/// Which local index a merge goes into.
#[derive(Debug)]
pub enum MergeTarget<S = String> {
    /// The repo's own index.
    Live,
    /// A copy of it in the staging directory.
    Copy { name: S },
}

/// What is to be done next for a repo. Names are those of files in the staging
/// directory.
#[derive(Debug)]
pub enum JobRequest<S = String> {
    /// Fetch a snapshot of the peer's index.
    Snapshot { to: S },
    /// Take a snapshot of the local index.
    LocalSnapshot { to: S },
    /// Merge a fetched snapshot.
    Merge { target: MergeTarget<S>, from: S },
    /// Note in the bookkeeping how many rows the local index has.
    Record { local_after: i64 },
    /// Make the repo's directory.
    MakeDir,
    /// Make a fetched snapshot the local index.
    Install { from: S },
    /// Push a local snapshot to the peer.
    Push { from: S },
}

impl View for JobRequest {
    type V = JobRequest<Seq<char>>;

    open spec fn view(&self) -> JobRequest<Seq<char>> {
        match *self {
            JobRequest::Snapshot { to } => JobRequest::Snapshot { to: to@ },
            JobRequest::LocalSnapshot { to } => JobRequest::LocalSnapshot { to: to@ },
            JobRequest::Merge { target, from } => JobRequest::Merge {
                target: match target {
                    MergeTarget::Live => MergeTarget::Live,
                    MergeTarget::Copy { name } => MergeTarget::Copy { name: name@ },
                },
                from: from@,
            },
            JobRequest::Record { local_after } => JobRequest::Record { local_after },
            JobRequest::MakeDir => JobRequest::MakeDir,
            JobRequest::Install { from } => JobRequest::Install { from: from@ },
            JobRequest::Push { from } => JobRequest::Push { from: from@ },
        }
    }
}

/// A request that may be absent, by its view.
pub open spec fn job_request_view(r: Option<JobRequest>) -> Option<JobRequest<Seq<char>>> {
    match r {
        Some(q) => Some(q@),
        None => None,
    }
}

impl JobRequest<Seq<char>> {
    /// Whether a request changes an index, the bookkeeping or a peer's data, as
    /// against files in the staging directory.
    pub open spec fn writes(self) -> bool {
        match self {
            JobRequest::Snapshot { to } => false,
            JobRequest::LocalSnapshot { to } => false,
            JobRequest::Merge { target, from } => target is Live,
            JobRequest::Record { local_after } => true,
            JobRequest::MakeDir => true,
            JobRequest::Install { from } => true,
            JobRequest::Push { from } => true,
        }
    }
}

/// What came of a request.
#[derive(Debug)]
pub enum JobReply<S = String> {
    Done,
    Failed { cause: S },
    Merged { stats: MergeStats },
}

impl View for JobReply {
    type V = JobReply<Seq<char>>;

    open spec fn view(&self) -> JobReply<Seq<char>> {
        match *self {
            JobReply::Done => JobReply::Done,
            JobReply::Failed { cause } => JobReply::Failed { cause: cause@ },
            JobReply::Merged { stats } => JobReply::Merged { stats },
        }
    }
}

/// How far the work on a repo has come.
#[derive(Debug)]
pub enum JobStage<S = String> {
    Fetching,
    CopyingLocal,
    MergingCopy,
    MergingLive,
    Recording { local_after: i64 },
    MakingDir,
    Installing,
    BackingUp,
    Pushing,
    Finished { result: Result<(), S> },
}

impl View for JobStage {
    type V = JobStage<Seq<char>>;

    open spec fn view(&self) -> JobStage<Seq<char>> {
        match *self {
            JobStage::Fetching => JobStage::Fetching,
            JobStage::CopyingLocal => JobStage::CopyingLocal,
            JobStage::MergingCopy => JobStage::MergingCopy,
            JobStage::MergingLive => JobStage::MergingLive,
            JobStage::Recording { local_after } => JobStage::Recording { local_after },
            JobStage::MakingDir => JobStage::MakingDir,
            JobStage::Installing => JobStage::Installing,
            JobStage::BackingUp => JobStage::BackingUp,
            JobStage::Pushing => JobStage::Pushing,
            JobStage::Finished { result } => JobStage::Finished {
                result: match result {
                    Ok(_) => Ok(()),
                    Err(cause) => Err(cause@),
                },
            },
        }
    }
}

/// The work on one repo with one peer.
///
/// A dry run of a merge goes into a copy of the local index, so that it can be
/// told what would change; a dry run of anything else does nothing.
#[derive(Debug)]
pub struct Job<S = String> {
    pub host: S,
    pub key: S,
    pub action: RepoAction,
    pub dry_run: bool,
    pub stage: JobStage<S>,
}

impl View for Job {
    type V = Job<Seq<char>>;

    open spec fn view(&self) -> Job<Seq<char>> {
        Job {
            host: self.host@,
            key: self.key@,
            action: self.action,
            dry_run: self.dry_run,
            stage: self.stage@,
        }
    }
}

impl Job<Seq<char>> {
    /// The work at its beginning.
    pub open spec fn start(
        host: Seq<char>,
        key: Seq<char>,
        action: RepoAction,
        dry_run: bool,
    ) -> Self {
        Job {
            host,
            key,
            action,
            dry_run,
            stage: match action {
                RepoAction::Merge => JobStage::Fetching,
                RepoAction::PullInit => if dry_run {
                    JobStage::Finished { result: Ok(()) }
                } else {
                    JobStage::Fetching
                },
                RepoAction::PushSeed => if dry_run {
                    JobStage::Finished { result: Ok(()) }
                } else {
                    JobStage::BackingUp
                },
            },
        }
    }

    /// The name of a file in the staging directory.
    pub open spec fn staged(self, suffix: Seq<char>) -> Seq<char> {
        self.host + "-"@ + self.key + suffix
    }

    /// What is to be done now.
    pub open spec fn pending(self) -> Option<JobRequest<Seq<char>>> {
        match self.stage {
            JobStage::Fetching => Some(JobRequest::Snapshot { to: self.staged(".peer.db"@) }),
            JobStage::CopyingLocal => Some(
                JobRequest::LocalSnapshot { to: self.staged(".local.db"@) },
            ),
            JobStage::MergingCopy => Some(
                JobRequest::Merge {
                    target: MergeTarget::Copy { name: self.staged(".local.db"@) },
                    from: self.staged(".peer.db"@),
                },
            ),
            JobStage::MergingLive => Some(
                JobRequest::Merge { target: MergeTarget::Live, from: self.staged(".peer.db"@) },
            ),
            JobStage::Recording { local_after } => Some(JobRequest::Record { local_after }),
            JobStage::MakingDir => Some(JobRequest::MakeDir),
            JobStage::Installing => Some(JobRequest::Install { from: self.staged(".peer.db"@) }),
            JobStage::BackingUp => Some(
                JobRequest::LocalSnapshot { to: self.staged(".local-seed.db"@) },
            ),
            JobStage::Pushing => Some(JobRequest::Push { from: self.staged(".local-seed.db"@) }),
            JobStage::Finished { result } => None,
        }
    }

    /// The stage behind a reply.
    pub open spec fn stage_after(self, reply: JobReply<Seq<char>>) -> JobStage<Seq<char>> {
        match (self.stage, reply) {
            (JobStage::Finished { result }, _) => self.stage,
            (_, JobReply::Failed { cause }) => JobStage::Finished { result: Err(cause) },
            (JobStage::Fetching, JobReply::Done) => if self.action != RepoAction::Merge {
                JobStage::MakingDir
            } else if self.dry_run {
                JobStage::CopyingLocal
            } else {
                JobStage::MergingLive
            },
            (JobStage::CopyingLocal, JobReply::Done) => JobStage::MergingCopy,
            (JobStage::MergingCopy, JobReply::Merged { stats }) => JobStage::Finished {
                result: Ok(()),
            },
            (JobStage::MergingLive, JobReply::Merged { stats }) => JobStage::Recording {
                local_after: stats.local_after,
            },
            (JobStage::Recording { local_after }, JobReply::Done) => JobStage::Finished {
                result: Ok(()),
            },
            (JobStage::MakingDir, JobReply::Done) => JobStage::Installing,
            (JobStage::Installing, JobReply::Done) => JobStage::Finished { result: Ok(()) },
            (JobStage::BackingUp, JobReply::Done) => JobStage::Pushing,
            (JobStage::Pushing, JobReply::Done) => JobStage::Finished { result: Ok(()) },
            _ => self.stage,
        }
    }

    /// The work behind a reply. A reply that does not belong to the request
    /// leaves the work where it is.
    pub open spec fn next(self, reply: JobReply<Seq<char>>) -> Self {
        Job { stage: self.stage_after(reply), ..self }
    }
}

impl Job {
    /// Begins the work on a repo.
    pub fn new(host: &str, key: &str, action: RepoAction, dry_run: bool) -> (r: Job)
        ensures
            r@ == Job::start(host@, key@, action, dry_run),
    {
        let stage = match action {
            RepoAction::Merge => JobStage::Fetching,
            RepoAction::PullInit => if dry_run {
                JobStage::Finished { result: Ok(()) }
            } else {
                JobStage::Fetching
            },
            RepoAction::PushSeed => if dry_run {
                JobStage::Finished { result: Ok(()) }
            } else {
                JobStage::BackingUp
            },
        };
        Job { host: host.to_owned(), key: key.to_owned(), action, dry_run, stage }
    }

    fn staged_name(&self, suffix: &str) -> (r: String)
        ensures
            r@ == self@.staged(suffix@),
    {
        let mut s = text::joined(self.host.as_str(), "-");
        s.append(self.key.as_str());
        s.append(suffix);
        s
    }

    /// What is to be done now; nothing once the work is finished.
    pub fn request(&self) -> (r: Option<JobRequest>)
        ensures
            job_request_view(r) == self@.pending(),
    {
        match &self.stage {
            JobStage::Fetching => Some(JobRequest::Snapshot { to: self.staged_name(".peer.db") }),
            JobStage::CopyingLocal => Some(
                JobRequest::LocalSnapshot { to: self.staged_name(".local.db") },
            ),
            JobStage::MergingCopy => Some(
                JobRequest::Merge {
                    target: MergeTarget::Copy { name: self.staged_name(".local.db") },
                    from: self.staged_name(".peer.db"),
                },
            ),
            JobStage::MergingLive => Some(
                JobRequest::Merge {
                    target: MergeTarget::Live,
                    from: self.staged_name(".peer.db"),
                },
            ),
            JobStage::Recording { local_after } => Some(
                JobRequest::Record { local_after: *local_after },
            ),
            JobStage::MakingDir => Some(JobRequest::MakeDir),
            JobStage::Installing => Some(
                JobRequest::Install { from: self.staged_name(".peer.db") },
            ),
            JobStage::BackingUp => Some(
                JobRequest::LocalSnapshot { to: self.staged_name(".local-seed.db") },
            ),
            JobStage::Pushing => Some(
                JobRequest::Push { from: self.staged_name(".local-seed.db") },
            ),
            JobStage::Finished { result } => None,
        }
    }

    /// Takes the reply to the request, and goes on. A reply that does not belong
    /// to the request leaves the work where it is.
    pub fn advance(self, reply: JobReply) -> (r: Job)
        ensures
            r@ == self@.next(reply@),
    {
        let stage = match (self.stage, reply) {
            (JobStage::Finished { result }, _) => JobStage::Finished { result },
            (_, JobReply::Failed { cause }) => JobStage::Finished { result: Err(cause) },
            (JobStage::Fetching, JobReply::Done) => match self.action {
                RepoAction::Merge => if self.dry_run {
                    JobStage::CopyingLocal
                } else {
                    JobStage::MergingLive
                },
                _ => JobStage::MakingDir,
            },
            (JobStage::CopyingLocal, JobReply::Done) => JobStage::MergingCopy,
            (JobStage::MergingCopy, JobReply::Merged { stats }) => JobStage::Finished {
                result: Ok(()),
            },
            (JobStage::MergingLive, JobReply::Merged { stats }) => JobStage::Recording {
                local_after: stats.local_after,
            },
            (JobStage::Recording { local_after }, JobReply::Done) => JobStage::Finished {
                result: Ok(()),
            },
            (JobStage::MakingDir, JobReply::Done) => JobStage::Installing,
            (JobStage::Installing, JobReply::Done) => JobStage::Finished { result: Ok(()) },
            (JobStage::BackingUp, JobReply::Done) => JobStage::Pushing,
            (JobStage::Pushing, JobReply::Done) => JobStage::Finished { result: Ok(()) },
            (stage, _) => stage,
        };
        Job {
            host: self.host,
            key: self.key,
            action: self.action,
            dry_run: self.dry_run,
            stage,
        }
    }

    /// How the work ended; nothing before it is finished.
    pub fn into_result(self) -> (r: Option<Result<(), String>>)
        ensures
            match self@.stage {
                JobStage::Finished { result } => match result {
                    Ok(_) => r matches Some(Ok(_)),
                    Err(cause) => r matches Some(Err(c)) && c@ == cause,
                },
                _ => r is None,
            },
    {
        match self.stage {
            JobStage::Finished { result } => Some(result),
            _ => None,
        }
    }
}

impl Job<Seq<char>> {
    /// Whether a reply is one to what is to be done now.
    pub open spec fn fits(self, reply: JobReply<Seq<char>>) -> bool {
        match self.stage {
            JobStage::Finished { result } => true,
            JobStage::MergingCopy => reply is Merged || reply is Failed,
            JobStage::MergingLive => reply is Merged || reply is Failed,
            _ => reply is Done || reply is Failed,
        }
    }

    /// Whether something was to be done and failed.
    pub open spec fn fails(self, reply: JobReply<Seq<char>>) -> bool {
        self.pending() is Some && reply is Failed
    }
}

/// The work on a repo ends within three replies, and it ends well just when
/// nothing that was to be done failed.
pub proof fn lemma_job_ends(
    host: Seq<char>,
    key: Seq<char>,
    action: RepoAction,
    dry_run: bool,
    a: JobReply<Seq<char>>,
    b: JobReply<Seq<char>>,
    c: JobReply<Seq<char>>,
)
    requires
        Job::start(host, key, action, dry_run).fits(a),
        Job::start(host, key, action, dry_run).next(a).fits(b),
        Job::start(host, key, action, dry_run).next(a).next(b).fits(c),
    ensures
        ({
            let first = Job::start(host, key, action, dry_run);
            let second = first.next(a);
            let third = second.next(b);
            &&& third.next(c).stage matches JobStage::Finished { result }
            &&& result is Err <==> first.fails(a) || second.fails(b) || third.fails(c)
        }),
{
}

/// The work on a repo behind a series of replies.
pub open spec fn job_after(job: Job<Seq<char>>, replies: Seq<JobReply<Seq<char>>>) -> Job<
    Seq<char>,
>
    decreases replies.len(),
{
    if replies.len() == 0 {
        job
    } else {
        job_after(job, replies.drop_last()).next(replies.last())
    }
}

/// Whatever comes of its requests, a dry run changes no index, no bookkeeping
/// and no peer.
pub proof fn lemma_dry_job_writes_nothing(
    host: Seq<char>,
    key: Seq<char>,
    action: RepoAction,
    replies: Seq<JobReply<Seq<char>>>,
)
    ensures
        job_after(Job::start(host, key, action, true), replies).pending() matches Some(q)
            ==> !q.writes(),
{
    lemma_dry_job_stages(host, key, action, replies);
}

proof fn lemma_dry_job_stages(
    host: Seq<char>,
    key: Seq<char>,
    action: RepoAction,
    replies: Seq<JobReply<Seq<char>>>,
)
    ensures
        ({
            let now = job_after(Job::start(host, key, action, true), replies);
            &&& now.dry_run
            &&& now.action == action
            &&& match now.stage {
                JobStage::Fetching => action == RepoAction::Merge,
                JobStage::CopyingLocal => true,
                JobStage::MergingCopy => true,
                JobStage::Finished { result } => true,
                _ => false,
            }
        }),
    decreases replies.len(),
{
    if replies.len() > 0 {
        lemma_dry_job_stages(host, key, action, replies.drop_last());
    }
}

/// Whatever comes of its requests, the work on a repo that both sides have only
/// ever writes on this machine: nothing is pushed to the peer.
pub proof fn lemma_merge_job_is_pull_only(
    host: Seq<char>,
    key: Seq<char>,
    dry_run: bool,
    replies: Seq<JobReply<Seq<char>>>,
)
    ensures
        job_after(Job::start(host, key, RepoAction::Merge, dry_run), replies).pending() matches Some(
            q,
        ) ==> q !is Push,
{
    lemma_merge_job_stages(host, key, dry_run, replies);
}

proof fn lemma_merge_job_stages(
    host: Seq<char>,
    key: Seq<char>,
    dry_run: bool,
    replies: Seq<JobReply<Seq<char>>>,
)
    ensures
        ({
            let now = job_after(Job::start(host, key, RepoAction::Merge, dry_run), replies);
            &&& now.action == RepoAction::Merge
            &&& match now.stage {
                JobStage::BackingUp => false,
                JobStage::Pushing => false,
                _ => true,
            }
        }),
    decreases replies.len(),
{
    if replies.len() > 0 {
        lemma_merge_job_stages(host, key, dry_run, replies.drop_last());
    }
}

// ---------------------------------------------------------------------------
// Totals
// ---------------------------------------------------------------------------

/// What a run has done so far.
#[derive(Debug, Clone, Copy, PartialEq, Eq, Structural)]
pub struct Totals {
    pub merged: u32,
    pub pulled: u32,
    pub pushed: u32,
    pub peers_skipped: u32,
    pub errors: u32,
}

impl Default for Totals {
    fn default() -> (r: Totals)
        ensures
            r == Totals::zero(),
    {
        Totals { merged: 0, pulled: 0, pushed: 0, peers_skipped: 0, errors: 0 }
    }
}

impl Totals {
    /// Nothing done.
    pub open spec fn zero() -> Totals {
        Totals { merged: 0, pulled: 0, pushed: 0, peers_skipped: 0, errors: 0 }
    }

    /// Each counter can still be raised.
    pub open spec fn room(self) -> bool {
        &&& self.merged < u32::MAX
        &&& self.pulled < u32::MAX
        &&& self.pushed < u32::MAX
        &&& self.peers_skipped < u32::MAX
        &&& self.errors < u32::MAX
    }

    /// Whether each counter can still be raised.
    pub fn has_room(&self) -> (r: bool)
        ensures
            r == self.room(),
    {
        self.merged < u32::MAX && self.pulled < u32::MAX && self.pushed < u32::MAX
            && self.peers_skipped < u32::MAX && self.errors < u32::MAX
    }

    /// The totals behind the work on one more repo.
    pub open spec fn with_repo(self, action: RepoAction, ok: bool) -> Totals {
        if !ok {
            Totals { errors: (self.errors + 1) as u32, ..self }
        } else {
            match action {
                RepoAction::Merge => Totals { merged: (self.merged + 1) as u32, ..self },
                RepoAction::PullInit => Totals { pulled: (self.pulled + 1) as u32, ..self },
                RepoAction::PushSeed => Totals { pushed: (self.pushed + 1) as u32, ..self },
            }
        }
    }

    /// The totals behind one more peer that was skipped.
    pub open spec fn with_skip(self) -> Totals {
        Totals { peers_skipped: (self.peers_skipped + 1) as u32, ..self }
    }

    /// How many repos have been worked on.
    pub open spec fn repos(self) -> int {
        self.merged + self.pulled + self.pushed + self.errors
    }

    fn count_repo(self, action: RepoAction, ok: bool) -> (r: Totals)
        requires
            self.room(),
        ensures
            r == self.with_repo(action, ok),
    {
        let mut t = self;
        if !ok {
            t.errors = t.errors + 1;
        } else {
            match action {
                RepoAction::Merge => {
                    t.merged = t.merged + 1;
                },
                RepoAction::PullInit => {
                    t.pulled = t.pulled + 1;
                },
                RepoAction::PushSeed => {
                    t.pushed = t.pushed + 1;
                },
            }
        }
        t
    }

    fn count_skip(self) -> (r: Totals)
        requires
            self.room(),
        ensures
            r == self.with_skip(),
    {
        let mut t = self;
        t.peers_skipped = t.peers_skipped + 1;
        t
    }
}

// ---------------------------------------------------------------------------
// The run
// ---------------------------------------------------------------------------

/// The peers that a run visits: those of the configuration, or those of them
/// that were asked for where any were.
pub open spec fn selected(peers: Seq<Seq<char>>, only: Seq<Seq<char>>) -> Seq<Seq<char>> {
    if only.len() == 0 {
        peers
    } else {
        peers.filter(|p: Seq<char>| only.contains(p))
    }
}

/// Selects the peers that a run visits.
pub fn select_peers(peers: &Vec<String>, only: &Vec<String>) -> (r: Vec<String>)
    ensures
        texts(r@) == selected(texts(peers@), texts(only@)),
{
    if only.is_empty() {
        return text::copy_list(peers);
    }
    let ghost all = texts(peers@);
    let ghost wanted = |p: Seq<char>| texts(only@).contains(p);
    let mut out: Vec<String> = Vec::new();
    assert(all.take(0).filter(wanted) =~= Seq::<Seq<char>>::empty()) by {
        reveal(Seq::filter);
    }
    for i in 0..peers.len()
        invariant
            all == texts(peers@),
            wanted == (|p: Seq<char>| texts(only@).contains(p)),
            texts(out@) =~= all.take(i as int).filter(wanted),
    {
        let ghost sofar = all.take(i + 1);
        let ghost was = texts(out@);
        assert(sofar.drop_last() =~= all.take(i as int));
        assert(sofar.last() == peers@[i as int]@);
        reveal(Seq::filter);
        if text::has(only, peers[i].as_str()) {
            out.push(peers[i].clone());
            assert(texts(out@) =~= was.push(peers@[i as int]@));
        }
    }
    assert(all.take(all.len() as int) =~= all);
    out
}

/// A run visits only peers of the configuration, and where some were asked for
/// only those; of these it leaves out none.
pub proof fn lemma_selected_peers(peers: Seq<Seq<char>>, only: Seq<Seq<char>>, p: Seq<char>)
    ensures
        selected(peers, only).contains(p) <==> peers.contains(p) && (only.len() == 0
            || only.contains(p)),
{
    if only.len() > 0 {
        let wanted = |q: Seq<char>| only.contains(q);
        let kept = peers.filter(wanted);
        if kept.contains(p) {
            let i = choose|i: int| 0 <= i < kept.len() && kept[i] == p;
            peers.lemma_filter_pred(wanted, i);
            peers.lemma_filter_contains_rev(wanted, p);
        }
        if peers.contains(p) && only.contains(p) {
            let i = choose|i: int| 0 <= i < peers.len() && peers[i] == p;
            peers.lemma_filter_contains(wanted, i);
        }
    }
}

/// What a run asks for.
#[derive(Debug)]
pub enum RunRequest<S = String> {
    /// Is there a configuration?
    CheckConfig,
    /// Load it, and tell its peers.
    LoadConfig,
    /// Take the lock that keeps a second run out.
    Lock,
    /// Load the bookkeeping.
    LoadState,
    /// Make the staging directory.
    MakeStaging,
    /// Is this peer reachable?
    Probe { host: S },
    /// List the local repos.
    ListLocal,
    /// List the repos of this peer.
    ListPeer { host: S },
    /// Do the work on a repo with this peer.
    Repo { host: S, key: S, action: RepoAction },
    /// Save the bookkeeping.
    SaveState,
}

impl View for RunRequest {
    type V = RunRequest<Seq<char>>;

    open spec fn view(&self) -> RunRequest<Seq<char>> {
        match *self {
            RunRequest::CheckConfig => RunRequest::CheckConfig,
            RunRequest::LoadConfig => RunRequest::LoadConfig,
            RunRequest::Lock => RunRequest::Lock,
            RunRequest::LoadState => RunRequest::LoadState,
            RunRequest::MakeStaging => RunRequest::MakeStaging,
            RunRequest::Probe { host } => RunRequest::Probe { host: host@ },
            RunRequest::ListLocal => RunRequest::ListLocal,
            RunRequest::ListPeer { host } => RunRequest::ListPeer { host: host@ },
            RunRequest::Repo { host, key, action } => RunRequest::Repo {
                host: host@,
                key: key@,
                action,
            },
            RunRequest::SaveState => RunRequest::SaveState,
        }
    }
}

/// A request that may be absent, by its view.
pub open spec fn run_request_view(r: Option<RunRequest>) -> Option<RunRequest<Seq<char>>> {
    match r {
        Some(q) => Some(q@),
        None => None,
    }
}

/// What came of a request.
#[derive(Debug)]
pub enum RunReply<S = String, L = Vec<String>> {
    Yes,
    No,
    Done,
    Failed { cause: S },
    /// Peers of the configuration, or repo keys.
    Names { names: L },
}

impl View for RunReply {
    type V = RunReply<Seq<char>, Seq<Seq<char>>>;

    open spec fn view(&self) -> RunReply<Seq<char>, Seq<Seq<char>>> {
        match *self {
            RunReply::Yes => RunReply::Yes,
            RunReply::No => RunReply::No,
            RunReply::Done => RunReply::Done,
            RunReply::Failed { cause } => RunReply::Failed { cause: cause@ },
            RunReply::Names { names } => RunReply::Names { names: texts(names@) },
        }
    }
}

/// How a run ended.
#[derive(Debug)]
pub enum RunEnd<S = String> {
    /// There is no configuration. An error.
    NoConfig,
    /// Something that the run cannot do without failed. An error.
    Failed { cause: S },
    /// The lock was not to be had, so another run is in flight.
    Locked { cause: S },
    /// No peer was selected.
    NoPeers,
    /// Every selected peer was visited or skipped.
    Completed,
}

impl View for RunEnd {
    type V = RunEnd<Seq<char>>;

    open spec fn view(&self) -> RunEnd<Seq<char>> {
        match *self {
            RunEnd::NoConfig => RunEnd::NoConfig,
            RunEnd::Failed { cause } => RunEnd::Failed { cause: cause@ },
            RunEnd::Locked { cause } => RunEnd::Locked { cause: cause@ },
            RunEnd::NoPeers => RunEnd::NoPeers,
            RunEnd::Completed => RunEnd::Completed,
        }
    }
}

/// How far a run has come.
#[derive(Debug)]
pub enum RunStage<S = String, L = Vec<String>, P = Vec<PlannedRepo>> {
    CheckingConfig,
    LoadingConfig,
    Locking,
    LoadingState,
    MakingStaging,
    Probing,
    ListingLocal,
    ListingPeer { local: L },
    Working { plan: P, done: usize },
    Saving,
    Finished { end: RunEnd<S> },
}

impl View for RunStage {
    type V = RunStage<Seq<char>, Seq<Seq<char>>, Seq<PlannedRepo<Seq<char>>>>;

    open spec fn view(&self) -> RunStage<
        Seq<char>,
        Seq<Seq<char>>,
        Seq<PlannedRepo<Seq<char>>>,
    > {
        match *self {
            RunStage::CheckingConfig => RunStage::CheckingConfig,
            RunStage::LoadingConfig => RunStage::LoadingConfig,
            RunStage::Locking => RunStage::Locking,
            RunStage::LoadingState => RunStage::LoadingState,
            RunStage::MakingStaging => RunStage::MakingStaging,
            RunStage::Probing => RunStage::Probing,
            RunStage::ListingLocal => RunStage::ListingLocal,
            RunStage::ListingPeer { local } => RunStage::ListingPeer { local: texts(local@) },
            RunStage::Working { plan, done } => RunStage::Working { plan: plan_view(plan@), done },
            RunStage::Saving => RunStage::Saving,
            RunStage::Finished { end } => RunStage::Finished { end: end@ },
        }
    }
}

/// A run: every selected peer is visited, and every repo that either side has is
/// merged, pulled or pushed.
#[derive(Debug)]
pub struct Run<S = String, L = Vec<String>, P = Vec<PlannedRepo>> {
    pub dry_run: bool,
    /// The peers that were asked for; all where there is none.
    pub only: L,
    /// The peers of the configuration, and from staging on those selected.
    pub peers: L,
    /// The index of the peer that is being visited.
    pub at: usize,
    pub totals: Totals,
    pub stage: RunStage<S, L, P>,
}

impl View for Run {
    type V = Run<Seq<char>, Seq<Seq<char>>, Seq<PlannedRepo<Seq<char>>>>;

    open spec fn view(&self) -> Run<Seq<char>, Seq<Seq<char>>, Seq<PlannedRepo<Seq<char>>>> {
        Run {
            dry_run: self.dry_run,
            only: texts(self.only@),
            peers: texts(self.peers@),
            at: self.at,
            totals: self.totals,
            stage: self.stage@,
        }
    }
}

impl Run<Seq<char>, Seq<Seq<char>>, Seq<PlannedRepo<Seq<char>>>> {
    /// A run at its beginning.
    pub open spec fn start(dry_run: bool, only: Seq<Seq<char>>) -> Self {
        Run {
            dry_run,
            only,
            peers: Seq::empty(),
            at: 0,
            totals: Totals::zero(),
            stage: RunStage::CheckingConfig,
        }
    }

    /// The run visits a peer of its list, and works on a repo of its plan.
    pub open spec fn valid(self) -> bool {
        match self.stage {
            RunStage::MakingStaging => self.peers.len() > 0,
            RunStage::Probing => self.at < self.peers.len(),
            RunStage::ListingLocal => self.at < self.peers.len(),
            RunStage::ListingPeer { local } => self.at < self.peers.len(),
            RunStage::Working { plan, done } => self.at < self.peers.len() && done < plan.len(),
            RunStage::Saving => !self.dry_run,
            _ => true,
        }
    }

    /// What is asked for now.
    pub open spec fn pending(self) -> Option<RunRequest<Seq<char>>> {
        match self.stage {
            RunStage::CheckingConfig => Some(RunRequest::CheckConfig),
            RunStage::LoadingConfig => Some(RunRequest::LoadConfig),
            RunStage::Locking => Some(RunRequest::Lock),
            RunStage::LoadingState => Some(RunRequest::LoadState),
            RunStage::MakingStaging => Some(RunRequest::MakeStaging),
            RunStage::Probing => Some(RunRequest::Probe { host: self.peers[self.at as int] }),
            RunStage::ListingLocal => Some(RunRequest::ListLocal),
            RunStage::ListingPeer { local } => Some(
                RunRequest::ListPeer { host: self.peers[self.at as int] },
            ),
            RunStage::Working { plan, done } => Some(
                RunRequest::Repo {
                    host: self.peers[self.at as int],
                    key: plan[done as int].key,
                    action: plan[done as int].action,
                },
            ),
            RunStage::Saving => Some(RunRequest::SaveState),
            RunStage::Finished { end } => None,
        }
    }

    /// The run at its end.
    pub open spec fn ended(self, end: RunEnd<Seq<char>>) -> Self {
        Run { stage: RunStage::Finished { end }, ..self }
    }

    /// The run done with the peer that it visits. Behind the last one the
    /// bookkeeping is saved, unless the run is dry.
    pub open spec fn peer_done(self) -> Self {
        if self.at + 1 < self.peers.len() {
            Run { at: (self.at + 1) as usize, stage: RunStage::Probing, ..self }
        } else if self.dry_run {
            self.ended(RunEnd::Completed)
        } else {
            Run { stage: RunStage::Saving, ..self }
        }
    }

    /// The run with the peer that it visits skipped.
    pub open spec fn peer_skipped(self) -> Self {
        Run { totals: self.totals.with_skip(), ..self }.peer_done()
    }

    /// The run with one more repo worked on.
    pub open spec fn repo_done(self, plan: Seq<PlannedRepo<Seq<char>>>, done: usize, ok: bool) -> Self {
        let counted = Run { totals: self.totals.with_repo(plan[done as int].action, ok), ..self };
        if done + 1 < plan.len() {
            Run { stage: RunStage::Working { plan, done: (done + 1) as usize }, ..counted }
        } else {
            counted.peer_done()
        }
    }

    /// The run behind a reply. A reply that does not belong to the request leaves
    /// the run where it is.
    pub open spec fn next(self, reply: RunReply<Seq<char>, Seq<Seq<char>>>) -> Self {
        match (self.stage, reply) {
            (RunStage::CheckingConfig, RunReply::Yes) => Run {
                stage: RunStage::LoadingConfig,
                ..self
            },
            (RunStage::CheckingConfig, RunReply::No) => self.ended(RunEnd::NoConfig),
            (RunStage::LoadingConfig, RunReply::Names { names }) => Run {
                peers: names,
                stage: RunStage::Locking,
                ..self
            },
            (RunStage::LoadingConfig, RunReply::Failed { cause }) => self.ended(
                RunEnd::Failed { cause },
            ),
            (RunStage::Locking, RunReply::Done) => Run { stage: RunStage::LoadingState, ..self },
            (RunStage::Locking, RunReply::Failed { cause }) => self.ended(
                RunEnd::Locked { cause },
            ),
            (RunStage::LoadingState, RunReply::Done) => {
                let peers = selected(self.peers, self.only);
                if peers.len() == 0 {
                    Run { peers, ..self }.ended(RunEnd::NoPeers)
                } else {
                    Run { peers, stage: RunStage::MakingStaging, ..self }
                }
            },
            (RunStage::LoadingState, RunReply::Failed { cause }) => self.ended(
                RunEnd::Failed { cause },
            ),
            (RunStage::MakingStaging, RunReply::Done) => Run {
                at: 0,
                stage: RunStage::Probing,
                ..self
            },
            (RunStage::MakingStaging, RunReply::Failed { cause }) => self.ended(
                RunEnd::Failed { cause },
            ),
            (RunStage::Probing, RunReply::Yes) => Run { stage: RunStage::ListingLocal, ..self },
            (RunStage::Probing, RunReply::No) => self.peer_skipped(),
            (RunStage::ListingLocal, RunReply::Names { names }) => Run {
                stage: RunStage::ListingPeer { local: names },
                ..self
            },
            (RunStage::ListingLocal, RunReply::Failed { cause }) => self.ended(
                RunEnd::Failed { cause },
            ),
            (RunStage::ListingPeer { local }, RunReply::Names { names }) => {
                let plan = planned(local, names);
                if plan.len() > 0 {
                    Run { stage: RunStage::Working { plan, done: 0 }, ..self }
                } else {
                    self.peer_done()
                }
            },
            (RunStage::ListingPeer { local }, RunReply::Failed { cause }) => self.peer_skipped(),
            (RunStage::Working { plan, done }, RunReply::Done) => self.repo_done(plan, done, true),
            (RunStage::Working { plan, done }, RunReply::Failed { cause }) => self.repo_done(
                plan,
                done,
                false,
            ),
            (RunStage::Saving, RunReply::Done) => self.ended(RunEnd::Completed),
            (RunStage::Saving, RunReply::Failed { cause }) => self.ended(
                RunEnd::Failed { cause },
            ),
            _ => self,
        }
    }
}

impl Run {
    /// Begins a run with the peers that were asked for.
    pub fn new(dry_run: bool, only: Vec<String>) -> (r: Run)
        ensures
            r@ == Run::start(dry_run, texts(only@)),
            r@.valid(),
    {
        let peers: Vec<String> = Vec::new();
        assert(texts(peers@) =~= Seq::<Seq<char>>::empty());
        Run {
            dry_run,
            only,
            peers,
            at: 0,
            totals: Totals::default(),
            stage: RunStage::CheckingConfig,
        }
    }

    /// What is asked for now; nothing once the run is finished.
    pub fn request(&self) -> (r: Option<RunRequest>)
        requires
            self@.valid(),
        ensures
            run_request_view(r) == self@.pending(),
    {
        match &self.stage {
            RunStage::CheckingConfig => Some(RunRequest::CheckConfig),
            RunStage::LoadingConfig => Some(RunRequest::LoadConfig),
            RunStage::Locking => Some(RunRequest::Lock),
            RunStage::LoadingState => Some(RunRequest::LoadState),
            RunStage::MakingStaging => Some(RunRequest::MakeStaging),
            RunStage::Probing => Some(RunRequest::Probe { host: self.peers[self.at].clone() }),
            RunStage::ListingLocal => Some(RunRequest::ListLocal),
            RunStage::ListingPeer { local } => Some(
                RunRequest::ListPeer { host: self.peers[self.at].clone() },
            ),
            RunStage::Working { plan, done } => {
                let repo = &plan[*done];
                assert(plan_view(plan@)[*done as int] == repo@);
                Some(
                    RunRequest::Repo {
                        host: self.peers[self.at].clone(),
                        key: repo.key.clone(),
                        action: repo.action,
                    },
                )
            },
            RunStage::Saving => Some(RunRequest::SaveState),
            RunStage::Finished { end } => None,
        }
    }

    fn end(self, end: RunEnd) -> (r: Run)
        ensures
            r@ == self@.ended(end@),
    {
        Run { stage: RunStage::Finished { end }, ..self }
    }

    fn finish_peer(self) -> (r: Run)
        requires
            self.at < self.peers@.len(),
        ensures
            r@ == self@.peer_done(),
            r@.valid(),
    {
        let count = self.peers.len();
        if self.at + 1 < count {
            let at = self.at + 1;
            Run { at, stage: RunStage::Probing, ..self }
        } else if self.dry_run {
            self.end(RunEnd::Completed)
        } else {
            Run { stage: RunStage::Saving, ..self }
        }
    }

    fn skip_peer(self) -> (r: Run)
        requires
            self.at < self.peers@.len(),
            self.totals.room(),
        ensures
            r@ == self@.peer_skipped(),
            r@.valid(),
    {
        let totals = self.totals.count_skip();
        Run { totals, ..self }.finish_peer()
    }

    fn finish_repo(self, plan: Vec<PlannedRepo>, done: usize, ok: bool) -> (r: Run)
        requires
            self.at < self.peers@.len(),
            done < plan@.len(),
            self.totals.room(),
        ensures
            r@ == self@.repo_done(plan_view(plan@), done, ok),
            r@.valid(),
    {
        assert(plan_view(plan@)[done as int] == plan@[done as int]@);
        let totals = self.totals.count_repo(plan[done].action, ok);
        let count = plan.len();
        if done + 1 < count {
            Run { totals, stage: RunStage::Working { plan, done: done + 1 }, ..self }
        } else {
            Run { totals, ..self }.finish_peer()
        }
    }

    /// Takes the reply to the request, and goes on. A reply that does not belong
    /// to the request leaves the run where it is.
    pub fn advance(self, reply: RunReply) -> (r: Run)
        requires
            self@.valid(),
            self.totals.room(),
        ensures
            r@ == self@.next(reply@),
            r@.valid(),
    {
        let ghost was = self@;
        let Run { dry_run, only, peers, at, totals, stage } = self;
        let rest = Run { dry_run, only, peers, at, totals, stage: RunStage::CheckingConfig };
        match (stage, reply) {
            (RunStage::CheckingConfig, RunReply::Yes) => Run {
                stage: RunStage::LoadingConfig,
                ..rest
            },
            (RunStage::CheckingConfig, RunReply::No) => rest.end(RunEnd::NoConfig),
            (RunStage::LoadingConfig, RunReply::Names { names }) => Run {
                peers: names,
                stage: RunStage::Locking,
                ..rest
            },
            (RunStage::LoadingConfig, RunReply::Failed { cause }) => rest.end(
                RunEnd::Failed { cause },
            ),
            (RunStage::Locking, RunReply::Done) => Run { stage: RunStage::LoadingState, ..rest },
            (RunStage::Locking, RunReply::Failed { cause }) => rest.end(RunEnd::Locked { cause }),
            (RunStage::LoadingState, RunReply::Done) => {
                let peers = select_peers(&rest.peers, &rest.only);
                if peers.is_empty() {
                    Run { peers, ..rest }.end(RunEnd::NoPeers)
                } else {
                    Run { peers, stage: RunStage::MakingStaging, ..rest }
                }
            },
            (RunStage::LoadingState, RunReply::Failed { cause }) => rest.end(
                RunEnd::Failed { cause },
            ),
            (RunStage::MakingStaging, RunReply::Done) => Run {
                at: 0,
                stage: RunStage::Probing,
                ..rest
            },
            (RunStage::MakingStaging, RunReply::Failed { cause }) => rest.end(
                RunEnd::Failed { cause },
            ),
            (RunStage::Probing, RunReply::Yes) => Run { stage: RunStage::ListingLocal, ..rest },
            (RunStage::Probing, RunReply::No) => rest.skip_peer(),
            (RunStage::ListingLocal, RunReply::Names { names }) => Run {
                stage: RunStage::ListingPeer { local: names },
                ..rest
            },
            (RunStage::ListingLocal, RunReply::Failed { cause }) => rest.end(
                RunEnd::Failed { cause },
            ),
            (RunStage::ListingPeer { local }, RunReply::Names { names }) => {
                let plan = plan(&local, &names);
                assert(plan_view(plan@).len() == plan@.len());
                if plan.len() > 0 {
                    Run { stage: RunStage::Working { plan, done: 0 }, ..rest }
                } else {
                    rest.finish_peer()
                }
            },
            (RunStage::ListingPeer { local }, RunReply::Failed { cause }) => rest.skip_peer(),
            (RunStage::Working { plan, done }, RunReply::Done) => rest.finish_repo(
                plan,
                done,
                true,
            ),
            (RunStage::Working { plan, done }, RunReply::Failed { cause }) => rest.finish_repo(
                plan,
                done,
                false,
            ),
            (RunStage::Saving, RunReply::Done) => rest.end(RunEnd::Completed),
            (RunStage::Saving, RunReply::Failed { cause }) => rest.end(RunEnd::Failed { cause }),
            (stage, _) => Run { stage, ..rest },
        }
    }

    /// How the run ended; nothing before it is finished.
    pub fn into_end(self) -> (r: Option<RunEnd>)
        ensures
            match self@.stage {
                RunStage::Finished { end } => r matches Some(e) && e@ == end,
                _ => r is None,
            },
    {
        match self.stage {
            RunStage::Finished { end } => Some(end),
            _ => None,
        }
    }
}

/// A run behind a series of replies.
pub open spec fn run_after(
    run: Run<Seq<char>, Seq<Seq<char>>, Seq<PlannedRepo<Seq<char>>>>,
    replies: Seq<RunReply<Seq<char>, Seq<Seq<char>>>>,
) -> Run<Seq<char>, Seq<Seq<char>>, Seq<PlannedRepo<Seq<char>>>>
    decreases replies.len(),
{
    if replies.len() == 0 {
        run
    } else {
        run_after(run, replies.drop_last()).next(replies.last())
    }
}

/// Whatever comes of its requests, a dry run never saves the bookkeeping, and it
/// stays a dry run: the work on its repos is dry too.
pub proof fn lemma_dry_run_saves_nothing(
    only: Seq<Seq<char>>,
    replies: Seq<RunReply<Seq<char>, Seq<Seq<char>>>>,
)
    ensures
        run_after(Run::start(true, only), replies).pending() != Some(
            RunRequest::<Seq<char>>::SaveState,
        ),
        run_after(Run::start(true, only), replies).dry_run,
    decreases replies.len(),
{
    if replies.len() > 0 {
        lemma_dry_run_saves_nothing(only, replies.drop_last());
    }
}

/// The request is one that comes only behind the lock: it reads or writes what
/// runs share, or reaches for a peer.
pub open spec fn needs_lock(q: RunRequest<Seq<char>>) -> bool {
    match q {
        RunRequest::CheckConfig => false,
        RunRequest::LoadConfig => false,
        RunRequest::Lock => false,
        _ => true,
    }
}

/// Whether the lock was granted in the course of a series of replies.
pub open spec fn lock_granted(
    run: Run<Seq<char>, Seq<Seq<char>>, Seq<PlannedRepo<Seq<char>>>>,
    replies: Seq<RunReply<Seq<char>, Seq<Seq<char>>>>,
) -> bool
    decreases replies.len(),
{
    replies.len() > 0 && {
        ||| lock_granted(run, replies.drop_last())
        ||| run_after(run, replies.drop_last()).pending() == Some(RunRequest::<Seq<char>>::Lock)
            && replies.last() is Done
    }
}

/// Whatever comes of its requests, a run reaches for a peer, a repo or the
/// bookkeeping only once it has been granted the lock.
pub proof fn lemma_lock_comes_first(
    dry_run: bool,
    only: Seq<Seq<char>>,
    replies: Seq<RunReply<Seq<char>, Seq<Seq<char>>>>,
)
    ensures
        run_after(Run::start(dry_run, only), replies).pending() matches Some(q) && needs_lock(q)
            ==> lock_granted(Run::start(dry_run, only), replies),
    decreases replies.len(),
{
    if replies.len() > 0 {
        lemma_lock_comes_first(dry_run, only, replies.drop_last());
    }
}

/// A run that is refused the lock ends there, without an error.
pub proof fn lemma_refused_lock_ends_run(
    run: Run<Seq<char>, Seq<Seq<char>>, Seq<PlannedRepo<Seq<char>>>>,
    cause: Seq<char>,
)
    requires
        run.pending() == Some(RunRequest::<Seq<char>>::Lock),
    ensures
        run.next(RunReply::Failed { cause }).stage == (
            RunStage::<Seq<char>, Seq<Seq<char>>, Seq<PlannedRepo<Seq<char>>>>::Finished {
                end: RunEnd::Locked { cause },
            }),
        run.next(RunReply::Failed { cause }).pending() is None,
{
}

/// Each repo is counted once, and each skipped peer once: a reply raises the
/// count of repos by one where it answers for a repo, the count of skipped peers
/// by one where it says that a peer is unreachable or cannot be listed, and
/// neither otherwise.
pub proof fn lemma_counted_once(
    run: Run<Seq<char>, Seq<Seq<char>>, Seq<PlannedRepo<Seq<char>>>>,
    reply: RunReply<Seq<char>, Seq<Seq<char>>>,
)
    requires
        run.totals.room(),
    ensures
        run.next(reply).totals.repos() == run.totals.repos() + (if run.stage is Working && (
        reply is Done || reply is Failed) {
            1int
        } else {
            0int
        }),
        run.next(reply).totals.peers_skipped == run.totals.peers_skipped + (if (run.stage is Probing
            && reply is No) || (run.stage is ListingPeer && reply is Failed) {
            1int
        } else {
            0int
        }),
{
}

/// A repo that fails and a peer that cannot be reached or listed do not end a
/// run: it goes on with the next repo or the next peer, and ends only behind the
/// last, as completed.
pub proof fn lemma_failures_do_not_stop_run(
    run: Run<Seq<char>, Seq<Seq<char>>, Seq<PlannedRepo<Seq<char>>>>,
    reply: RunReply<Seq<char>, Seq<Seq<char>>>,
)
    requires
        run.stage is Working || run.stage is ListingPeer || run.stage is Probing,
    ensures
        run.next(reply).stage matches RunStage::Finished { end } ==> end is Completed && run.at + 1
            >= run.peers.len() && run.dry_run,
        run.next(reply).stage is Saving ==> run.at + 1 >= run.peers.len(),
{
}

/// A configuration, bookkeeping, staging directory or local listing that is not to
/// be had, and bookkeeping that cannot be saved, end a run at once, as failed with
/// the cause.
pub proof fn lemma_fatal_failures_end_run(
    run: Run<Seq<char>, Seq<Seq<char>>, Seq<PlannedRepo<Seq<char>>>>,
    cause: Seq<char>,
)
    requires
        run.stage is LoadingConfig || run.stage is LoadingState || run.stage is MakingStaging
            || run.stage is ListingLocal || run.stage is Saving,
    ensures
        run.next(RunReply::Failed { cause }) == run.ended(RunEnd::Failed { cause }),
        run.next(RunReply::Failed { cause }).pending() is None,
{
}

// ---------------------------------------------------------------------------
// A whole run
// ---------------------------------------------------------------------------

/// What a run finds on its way, where it can list the local repos throughout. Peers
/// go by their place in the list of those visited and repos by their place in the
/// plan, since what is found may change from one to the next.
pub struct Findings {
    /// The peers of the configuration.
    pub peers: Seq<Seq<char>>,
    /// The bookkeeping of earlier runs.
    pub loaded: Bookkeeping,
    pub reachable: spec_fn(int) -> bool,
    pub local: spec_fn(int) -> Seq<Seq<char>>,
    /// The repos of a peer; none where it cannot be listed.
    pub listed: spec_fn(int) -> Option<Seq<Seq<char>>>,
    /// What comes of a request in the work on a repo.
    pub replies: spec_fn(int, int, JobRequest<Seq<char>>) -> JobReply<Seq<char>>,
    /// When the merge of a repo is noted.
    pub clock: spec_fn(int, int) -> Seq<char>,
}

/// The bookkeeping in the course of a run.
pub struct Books {
    /// As it is in memory.
    pub current: Bookkeeping,
    /// As it was saved, where it was.
    pub saved: Option<Bookkeeping>,
}

/// A run and its bookkeeping.
pub struct Journey {
    pub run: Run<Seq<char>, Seq<Seq<char>>, Seq<PlannedRepo<Seq<char>>>>,
    pub books: Books,
}

impl Journey {
    /// A run at its beginning.
    pub open spec fn start(dry_run: bool, only: Seq<Seq<char>>) -> Journey {
        Journey {
            run: Run::start(dry_run, only),
            books: Books { current: Map::empty(), saved: None },
        }
    }
}

impl Findings {
    /// What comes of a request in the work on a repo. Noting something in the
    /// bookkeeping is done in memory and does not fail.
    pub open spec fn reply(self, i: int, n: int, q: JobRequest<Seq<char>>) -> JobReply<Seq<char>> {
        match q {
            JobRequest::Record { local_after } => JobReply::Done,
            _ => (self.replies)(i, n, q),
        }
    }

    /// The work on a repo, `steps` replies on.
    pub open spec fn work(self, i: int, n: int, job: Job<Seq<char>>, steps: nat) -> Job<Seq<char>>
        decreases steps,
    {
        match job.pending() {
            Some(q) if steps > 0 => self.work(
                i,
                n,
                job.next(self.reply(i, n, q)),
                (steps - 1) as nat,
            ),
            _ => job,
        }
    }

    /// The bookkeeping behind `steps` replies of the work on a repo.
    pub open spec fn noted(
        self,
        i: int,
        n: int,
        job: Job<Seq<char>>,
        steps: nat,
        books: Bookkeeping,
    ) -> Bookkeeping
        decreases steps,
    {
        match job.pending() {
            Some(q) if steps > 0 => self.noted(
                i,
                n,
                job.next(self.reply(i, n, q)),
                (steps - 1) as nat,
                match q {
                    JobRequest::Record { local_after } => recorded(
                        books,
                        job.host,
                        job.key,
                        local_after,
                        (self.clock)(i, n),
                    ),
                    _ => books,
                },
            ),
            _ => books,
        }
    }

    /// Whether the work on a repo ends well.
    pub open spec fn works(self, i: int, n: int, job: Job<Seq<char>>) -> bool {
        self.work(i, n, job, JOB_REQUESTS as nat).stage matches JobStage::Finished {
            result: Ok(_),
        }
    }

    /// The reply to what a run asks for.
    pub open spec fn answer(self, run: Run<Seq<char>, Seq<Seq<char>>, Seq<PlannedRepo<Seq<char>>>>) -> RunReply<Seq<char>, Seq<Seq<char>>> {
        let at = run.at as int;
        match run.stage {
            RunStage::CheckingConfig => RunReply::Yes,
            RunStage::LoadingConfig => RunReply::Names { names: self.peers },
            RunStage::Probing => if (self.reachable)(at) {
                RunReply::Yes
            } else {
                RunReply::No
            },
            RunStage::ListingLocal => RunReply::Names { names: (self.local)(at) },
            RunStage::ListingPeer { local } => match (self.listed)(at) {
                Some(names) => RunReply::Names { names },
                None => RunReply::Failed { cause: Seq::empty() },
            },
            RunStage::Working { plan, done } => if self.works(
                at,
                done as int,
                planned_job(run.peers[at], plan[done as int], run.dry_run),
            ) {
                RunReply::Done
            } else {
                RunReply::Failed { cause: Seq::empty() }
            },
            _ => RunReply::Done,
        }
    }

    /// The bookkeeping behind what a run asks for.
    pub open spec fn booked(self, run: Run<Seq<char>, Seq<Seq<char>>, Seq<PlannedRepo<Seq<char>>>>, books: Books) -> Books {
        let at = run.at as int;
        match run.stage {
            RunStage::LoadingState => Books { current: self.loaded, ..books },
            RunStage::Working { plan, done } => Books {
                current: self.noted(
                    at,
                    done as int,
                    planned_job(run.peers[at], plan[done as int], run.dry_run),
                    JOB_REQUESTS as nat,
                    books.current,
                ),
                ..books
            },
            RunStage::Saving => Books { saved: Some(books.current), ..books },
            _ => books,
        }
    }

    /// One reply on.
    pub open spec fn step(self, j: Journey) -> Journey {
        Journey { run: j.run.next(self.answer(j.run)), books: self.booked(j.run, j.books) }
    }

    /// The run `n` replies on.
    pub open spec fn course(self, j: Journey, n: nat) -> Journey
        decreases n,
    {
        if n == 0 {
            j
        } else {
            self.course(self.step(j), (n - 1) as nat)
        }
    }

    /// What the run asks for in the course of `n` replies.
    pub open spec fn asked(self, j: Journey, n: nat) -> Seq<RunRequest<Seq<char>>>
        decreases n,
    {
        if n == 0 {
            Seq::empty()
        } else {
            let rest = self.asked(self.step(j), (n - 1) as nat);
            match j.run.pending() {
                Some(q) => seq![q] + rest,
                None => rest,
            }
        }
    }

    /// What a visit of the `i`th peer asks for: whether it is reachable, then both
    /// listings, then the work on each repo that either side has.
    pub open spec fn visit(self, i: int, host: Seq<char>) -> Seq<RunRequest<Seq<char>>> {
        seq![RunRequest::Probe { host }] + if !(self.reachable)(i) {
            Seq::empty()
        } else {
            seq![RunRequest::ListLocal, RunRequest::ListPeer { host }] + match (self.listed)(i) {
                Some(names) => repo_requests(host, planned((self.local)(i), names)),
                None => Seq::empty(),
            }
        }
    }

    /// What the visits of the peers from the `i`th on ask for.
    pub open spec fn visits(self, hosts: Seq<Seq<char>>, i: int) -> Seq<RunRequest<Seq<char>>>
        decreases hosts.len() - i,
    {
        if i >= hosts.len() {
            Seq::empty()
        } else {
            self.visit(i, hosts[i]) + self.visits(hosts, i + 1)
        }
    }

    /// How many rows the local index of a repo has behind a live merge, where its
    /// snapshot was fetched and the merge succeeded.
    pub open spec fn live_merge(self, i: int, n: int, host: Seq<char>, key: Seq<char>) -> Option<
        i64,
    > {
        let from = Job::start(host, key, RepoAction::Merge, false).staged(".peer.db"@);
        if (self.replies)(i, n, JobRequest::Snapshot { to: from }) !is Done {
            None
        } else {
            match (self.replies)(i, n, JobRequest::Merge { target: MergeTarget::Live, from }) {
                JobReply::Merged { stats } => Some(stats.local_after),
                _ => None,
            }
        }
    }

    /// The bookkeeping with a record for a repo that both sides have, where its
    /// live merge succeeded.
    pub open spec fn with_repo(
        self,
        i: int,
        n: int,
        host: Seq<char>,
        repo: PlannedRepo<Seq<char>>,
        books: Bookkeeping,
    ) -> Bookkeeping {
        match self.live_merge(i, n, host, repo.key) {
            Some(rows) if repo.action == RepoAction::Merge => recorded(
                books,
                host,
                repo.key,
                rows,
                (self.clock)(i, n),
            ),
            _ => books,
        }
    }

    /// The bookkeeping with a record for each repo of a plan, from the `n`th on,
    /// that both sides have and whose live merge succeeded.
    pub open spec fn with_plan(
        self,
        i: int,
        host: Seq<char>,
        plan: Seq<PlannedRepo<Seq<char>>>,
        n: int,
        books: Bookkeeping,
    ) -> Bookkeeping
        decreases plan.len() - n,
    {
        if n >= plan.len() {
            books
        } else {
            self.with_plan(i, host, plan, n + 1, self.with_repo(i, n, host, plan[n], books))
        }
    }

    /// The bookkeeping behind the visit of the `i`th peer.
    pub open spec fn with_visit(self, i: int, host: Seq<char>, books: Bookkeeping) -> Bookkeeping {
        match (self.listed)(i) {
            Some(names) if (self.reachable)(i) => self.with_plan(
                i,
                host,
                planned((self.local)(i), names),
                0,
                books,
            ),
            _ => books,
        }
    }

    /// The bookkeeping behind the visits of the peers from the `i`th on.
    pub open spec fn with_visits(
        self,
        hosts: Seq<Seq<char>>,
        i: int,
        books: Bookkeeping,
    ) -> Bookkeeping
        decreases hosts.len() - i,
    {
        if i >= hosts.len() {
            books
        } else {
            self.with_visits(hosts, i + 1, self.with_visit(i, hosts[i], books))
        }
    }

    /// No list is longer than this machine can count.
    pub open spec fn countable(self, hosts: Seq<Seq<char>>) -> bool {
        &&& hosts.len() <= usize::MAX
        &&& forall|i: int|
            0 <= i < hosts.len() ==> ((#[trigger] (self.listed)(i)) matches Some(names) ==> planned(
                (self.local)(i),
                names,
            ).len() <= usize::MAX)
    }

    spec fn leads(
        self,
        j: Journey,
        n: nat,
        log: Seq<RunRequest<Seq<char>>>,
        to: Journey,
    ) -> bool {
        self.course(j, n) == to && self.asked(j, n) == log
    }

    proof fn lemma_step(self, j: Journey)
        requires
            j.run.pending() is Some,
        ensures
            self.leads(j, 1, seq![j.run.pending()->0], self.step(j)),
    {
        let next = self.step(j);
        assert(self.course(next, 0) == next);
        assert(self.asked(next, 0) =~= Seq::<RunRequest<Seq<char>>>::empty());
        assert(self.asked(j, 1) =~= seq![j.run.pending()->0]);
    }

    proof fn lemma_joined(
        self,
        j: Journey,
        a: nat,
        first: Seq<RunRequest<Seq<char>>>,
        mid: Journey,
        b: nat,
        second: Seq<RunRequest<Seq<char>>>,
        to: Journey,
    )
        requires
            self.leads(j, a, first, mid),
            self.leads(mid, b, second, to),
        ensures
            self.leads(j, a + b, first + second, to),
        decreases a,
    {
        if a == 0 {
            assert(first + second =~= second);
        } else {
            let next = self.step(j);
            let rest = self.asked(next, (a - 1) as nat);
            self.lemma_joined(next, (a - 1) as nat, rest, mid, b, second, to);
            assert((a - 1) as nat + b == (a + b - 1) as nat);
            assert(self.asked(j, a + b) =~= first + second);
        }
    }

    proof fn lemma_noted(
        self,
        i: int,
        n: int,
        host: Seq<char>,
        repo: PlannedRepo<Seq<char>>,
        dry_run: bool,
        books: Bookkeeping,
    )
        ensures
            self.noted(i, n, planned_job(host, repo, dry_run), JOB_REQUESTS as nat, books)
                == if dry_run {
                books
            } else {
                self.with_repo(i, n, host, repo, books)
            },
    {
        reveal_with_fuel(Findings::noted, 4);
    }

    /// The books of a journey behind the work of its run on the repos of a plan.
    spec fn books_after(
        self,
        j: Journey,
        plan: Seq<PlannedRepo<Seq<char>>>,
        n: int,
    ) -> Books {
        if j.run.dry_run {
            j.books
        } else {
            let at = j.run.at as int;
            Books {
                current: self.with_plan(at, j.run.peers[at], plan, n, j.books.current),
                ..j.books
            }
        }
    }

    proof fn lemma_work(self, j: Journey, plan: Seq<PlannedRepo<Seq<char>>>, done: usize) -> (r: (
        nat,
        Totals,
    ))
        requires
            j.run.stage == (
                RunStage::<Seq<char>, Seq<Seq<char>>, Seq<PlannedRepo<Seq<char>>>>::Working {
                    plan,
                    done,
                }),
            done < plan.len() <= usize::MAX,
        ensures
            self.leads(
                j,
                r.0,
                repo_requests(j.run.peers[j.run.at as int], plan.skip(done as int)),
                Journey {
                    run: Run { totals: r.1, ..j.run.peer_done() },
                    books: self.books_after(j, plan, done as int),
                },
            ),
        decreases plan.len() - done,
    {
        let run = j.run;
        let host = run.peers[run.at as int];
        let next = self.step(j);
        self.lemma_step(j);
        self.lemma_noted(
            run.at as int,
            done as int,
            host,
            plan[done as int],
            run.dry_run,
            j.books.current,
        );
        let tail = plan.skip(done as int);
        let more = (done + 1) as usize;
        let books = self.books_after(j, plan, done as int);
        if done + 1 < plan.len() {
            let (n, totals) = self.lemma_work(next, plan, more);
            let rest = repo_requests(host, plan.skip(more as int));
            assert(seq![run.pending()->0] + rest =~= repo_requests(host, tail));
            let to = Journey { run: Run { totals, ..run.peer_done() }, books };
            assert(Run { totals, ..next.run.peer_done() } == to.run);
            assert(self.books_after(next, plan, more as int) == books);
            self.lemma_joined(j, 1, seq![run.pending()->0], next, n, rest, to);
            (1 + n, totals)
        } else {
            assert(seq![run.pending()->0] =~= repo_requests(host, tail));
            let last = self.with_repo(
                run.at as int,
                done as int,
                host,
                plan[done as int],
                j.books.current,
            );
            assert(self.with_plan(run.at as int, host, plan, done + 1, last) == last);
            assert(next.books == books);
            (1, next.run.totals)
        }
    }

    /// The books of a journey behind the visit of the peer that its run is at.
    spec fn books_visited(self, j: Journey) -> Books {
        if j.run.dry_run {
            j.books
        } else {
            let at = j.run.at as int;
            Books { current: self.with_visit(at, j.run.peers[at], j.books.current), ..j.books }
        }
    }

    proof fn lemma_visit(self, j: Journey) -> (r: (nat, Totals))
        requires
            j.run.stage is Probing,
            j.run.at < j.run.peers.len(),
            self.countable(j.run.peers),
        ensures
            self.leads(
                j,
                r.0,
                self.visit(j.run.at as int, j.run.peers[j.run.at as int]),
                Journey {
                    run: Run { totals: r.1, ..j.run.peer_done() },
                    books: self.books_visited(j),
                },
            ),
    {
        let run = j.run;
        let at = run.at as int;
        let host = run.peers[at];
        let probe = seq![RunRequest::Probe { host }];
        self.lemma_step(j);
        let a = self.step(j);
        if !(self.reachable)(at) {
            assert(probe =~= self.visit(at, host));
            (1, a.run.totals)
        } else {
            let b = self.step(a);
            let c = self.step(b);
            let ask = seq![RunRequest::ListLocal];
            let list = seq![RunRequest::ListPeer { host }];
            self.lemma_step(a);
            self.lemma_step(b);
            self.lemma_joined(j, 1, probe, a, 1, ask, b);
            self.lemma_joined(j, 2, probe + ask, b, 1, list, c);
            let head = probe + ask + list;
            match (self.listed)(at) {
                Some(names) => {
                    let plan = planned((self.local)(at), names);
                    if plan.len() > 0 {
                        let (n, totals) = self.lemma_work(c, plan, 0);
                        assert(plan.skip(0) =~= plan);
                        let to = Journey {
                            run: Run { totals, ..run.peer_done() },
                            books: self.books_visited(j),
                        };
                        assert(Run { totals, ..c.run.peer_done() } == to.run);
                        assert(self.books_after(c, plan, 0) == to.books);
                        self.lemma_joined(j, 3, head, c, n, repo_requests(host, plan), to);
                        assert(head + repo_requests(host, plan) =~= self.visit(at, host));
                        (3 + n, totals)
                    } else {
                        assert(head =~= self.visit(at, host));
                        (3, c.run.totals)
                    }
                },
                None => {
                    assert(head =~= self.visit(at, host));
                    (3, c.run.totals)
                },
            }
        }
    }

    /// The books of a journey behind the visits of the peers from the one on that
    /// its run is at.
    spec fn books_all_visited(self, j: Journey) -> Books {
        if j.run.dry_run {
            j.books
        } else {
            let at = j.run.at as int;
            Books { current: self.with_visits(j.run.peers, at, j.books.current), ..j.books }
        }
    }

    proof fn lemma_visits(self, j: Journey) -> (r: (nat, Journey))
        requires
            j.run.stage is Probing,
            j.run.at < j.run.peers.len(),
            self.countable(j.run.peers),
        ensures
            self.leads(j, r.0, self.visits(j.run.peers, j.run.at as int), r.1),
            r.1.run.dry_run == j.run.dry_run,
            r.1.books == self.books_all_visited(j),
            if j.run.dry_run {
                r.1.run.stage == (
                    RunStage::<Seq<char>, Seq<Seq<char>>, Seq<PlannedRepo<Seq<char>>>>::Finished {
                        end: RunEnd::Completed,
                    })
            } else {
                r.1.run.stage is Saving
            },
        decreases j.run.peers.len() - j.run.at,
    {
        let run = j.run;
        let at = run.at as int;
        let first = self.visit(at, run.peers[at]);
        let (a, totals) = self.lemma_visit(j);
        let mid = Journey {
            run: Run { totals, ..run.peer_done() },
            books: self.books_visited(j),
        };
        if at + 1 < run.peers.len() {
            let (b, to) = self.lemma_visits(mid);
            self.lemma_joined(j, a, first, mid, b, self.visits(run.peers, at + 1), to);
            (a + b, to)
        } else {
            assert(self.visits(run.peers, at + 1) =~= Seq::<RunRequest<Seq<char>>>::empty());
            assert(first + self.visits(run.peers, at + 1) =~= first);
            let last = self.with_visit(at, run.peers[at], j.books.current);
            assert(self.with_visits(run.peers, at + 1, last) == last);
            (a, mid)
        }
    }

    proof fn lemma_whole_run(self, dry_run: bool, only: Seq<Seq<char>>) -> (n: nat)
        requires
            selected(self.peers, only).len() > 0,
            self.countable(selected(self.peers, only)),
        ensures
            ({
                let hosts = selected(self.peers, only);
                let to = self.course(Journey::start(dry_run, only), n);
                &&& to.run.stage == (
                    RunStage::<Seq<char>, Seq<Seq<char>>, Seq<PlannedRepo<Seq<char>>>>::Finished {
                        end: RunEnd::Completed,
                    })
                &&& self.asked(Journey::start(dry_run, only), n) == seq![
                    RunRequest::CheckConfig,
                    RunRequest::LoadConfig,
                    RunRequest::Lock,
                    RunRequest::LoadState,
                    RunRequest::MakeStaging,
                ] + self.visits(hosts, 0) + if dry_run {
                    Seq::empty()
                } else {
                    seq![RunRequest::SaveState]
                }
                &&& to.books.saved == if dry_run {
                    None
                } else {
                    Some(self.with_visits(hosts, 0, self.loaded))
                }
                &&& dry_run ==> to.books.current == self.loaded
            }),
    {
        let a = Journey::start(dry_run, only);
        let b = self.step(a);
        let c = self.step(b);
        let d = self.step(c);
        let e = self.step(d);
        let f = self.step(e);
        self.lemma_step(a);
        self.lemma_step(b);
        self.lemma_step(c);
        self.lemma_step(d);
        self.lemma_step(e);
        let one = seq![RunRequest::CheckConfig];
        let two = one + seq![RunRequest::LoadConfig];
        let three = two + seq![RunRequest::Lock];
        let four = three + seq![RunRequest::LoadState];
        let five = four + seq![RunRequest::MakeStaging];
        self.lemma_joined(a, 1, one, b, 1, seq![RunRequest::LoadConfig], c);
        self.lemma_joined(a, 2, two, c, 1, seq![RunRequest::Lock], d);
        self.lemma_joined(a, 3, three, d, 1, seq![RunRequest::LoadState], e);
        self.lemma_joined(a, 4, four, e, 1, seq![RunRequest::MakeStaging], f);
        let hosts = selected(self.peers, only);
        let (m, to) = self.lemma_visits(f);
        let log = five + self.visits(hosts, 0);
        self.lemma_joined(a, 5, five, f, m, self.visits(hosts, 0), to);
        assert(five =~= seq![
            RunRequest::CheckConfig,
            RunRequest::LoadConfig,
            RunRequest::Lock,
            RunRequest::LoadState,
            RunRequest::MakeStaging,
        ]);
        if dry_run {
            assert(log + Seq::<RunRequest<Seq<char>>>::empty() =~= log);
            5 + m
        } else {
            self.lemma_step(to);
            let save = seq![RunRequest::SaveState];
            self.lemma_joined(a, 5 + m, log, to, 1, save, self.step(to));
            5 + m + 1
        }
    }
}

/// The number of requests within which the work on a repo ends.
pub const JOB_REQUESTS: usize = 3;

/// The work on a repo of a plan, at its beginning.
pub open spec fn planned_job(
    host: Seq<char>,
    repo: PlannedRepo<Seq<char>>,
    dry_run: bool,
) -> Job<Seq<char>> {
    Job::start(host, repo.key, repo.action, dry_run)
}

/// What the work on the repos of a plan asks for.
pub open spec fn repo_requests(host: Seq<char>, plan: Seq<PlannedRepo<Seq<char>>>) -> Seq<
    RunRequest<Seq<char>>,
> {
    plan.map_values(
        |p: PlannedRepo<Seq<char>>| RunRequest::Repo { host, key: p.key, action: p.action },
    )
}

/// A whole run, whichever peers and repos fail in it: behind the lock it visits
/// each selected peer once, in the order of the configuration. With a peer that
/// answers it works on each repo that either side has, once, and ends as
/// completed. Unless it is dry, it saves the bookkeeping last.
pub proof fn lemma_run_visits_all(found: Findings, dry_run: bool, only: Seq<Seq<char>>) -> (n: nat)
    requires
        selected(found.peers, only).len() > 0,
        found.countable(selected(found.peers, only)),
    ensures
        found.course(Journey::start(dry_run, only), n).run.stage == (
            RunStage::<Seq<char>, Seq<Seq<char>>, Seq<PlannedRepo<Seq<char>>>>::Finished {
                end: RunEnd::Completed,
            }),
        found.asked(Journey::start(dry_run, only), n) == seq![
            RunRequest::CheckConfig,
            RunRequest::LoadConfig,
            RunRequest::Lock,
            RunRequest::LoadState,
            RunRequest::MakeStaging,
        ] + found.visits(selected(found.peers, only), 0) + if dry_run {
            Seq::empty()
        } else {
            seq![RunRequest::SaveState]
        },
{
    found.lemma_whole_run(dry_run, only)
}

/// What a whole run saves, whichever peers and repos fail in it: the bookkeeping
/// that it loaded, with one record for each repo that both sides have and whose live
/// merge succeeded, in the order of the work, and no other. A dry run saves nothing
/// and notes nothing.
pub proof fn lemma_run_saves_merges(found: Findings, dry_run: bool, only: Seq<Seq<char>>) -> (n:
    nat)
    requires
        selected(found.peers, only).len() > 0,
        found.countable(selected(found.peers, only)),
    ensures
        found.course(Journey::start(dry_run, only), n).run.stage is Finished,
        found.course(Journey::start(dry_run, only), n).books.saved == if dry_run {
            None
        } else {
            Some(found.with_visits(selected(found.peers, only), 0, found.loaded))
        },
        dry_run ==> found.course(Journey::start(dry_run, only), n).books.current == found.loaded,
{
    found.lemma_whole_run(dry_run, only)
}

/// What is remembered of a repo of a peer.
pub open spec fn remembered(books: Bookkeeping, peer: Seq<char>, key: Seq<char>) -> Option<
    RepoState<Seq<char>>,
> {
    if repos_of(books, peer).contains_key(key) {
        Some(repos_of(books, peer)[key])
    } else {
        None
    }
}

impl Findings {
    /// The record that the `n`th repo of the plan with the `i`th peer leaves, where
    /// it is the repo `key` of `peer`, both sides have it, and its live merge
    /// succeeded.
    pub open spec fn record_of(
        self,
        i: int,
        n: int,
        host: Seq<char>,
        repo: PlannedRepo<Seq<char>>,
        peer: Seq<char>,
        key: Seq<char>,
    ) -> Option<RepoState<Seq<char>>> {
        match self.live_merge(i, n, host, repo.key) {
            Some(rows) if repo.action == RepoAction::Merge && host == peer && repo.key == key => Some(
                RepoState {
                    last_merged_at: Some((self.clock)(i, n)),
                    last_local_after: Some(rows),
                },
            ),
            _ => None,
        }
    }

    /// The plan with the `i`th peer; nothing where it does not answer.
    pub open spec fn plan(self, i: int) -> Seq<PlannedRepo<Seq<char>>> {
        match (self.listed)(i) {
            Some(names) if (self.reachable)(i) => planned((self.local)(i), names),
            _ => Seq::empty(),
        }
    }

    proof fn lemma_with_plan(
        self,
        i: int,
        host: Seq<char>,
        plan: Seq<PlannedRepo<Seq<char>>>,
        n: int,
        books: Bookkeeping,
        peer: Seq<char>,
        key: Seq<char>,
    )
        requires
            0 <= n,
        ensures
            ({
                let now = remembered(self.with_plan(i, host, plan, n, books), peer, key);
                ||| {
                    &&& now == remembered(books, peer, key)
                    &&& forall|m: int|
                        n <= m < plan.len() ==> self.record_of(
                            i,
                            m,
                            host,
                            #[trigger] plan[m],
                            peer,
                            key,
                        ) is None
                }
                ||| exists|m: int|
                    n <= m < plan.len() && now is Some && now == self.record_of(
                        i,
                        m,
                        host,
                        #[trigger] plan[m],
                        peer,
                        key,
                    )
            }),
        decreases plan.len() - n,
    {
        if n < plan.len() {
            let next = self.with_repo(i, n, host, plan[n], books);
            self.lemma_with_plan(i, host, plan, n + 1, next, peer, key);
            match self.record_of(i, n, host, plan[n], peer, key) {
                Some(r) => {
                    assert(remembered(next, peer, key) == Some(r));
                },
                None => {
                    assert(remembered(next, peer, key) == remembered(books, peer, key));
                },
            }
        }
    }

    proof fn lemma_with_visits(
        self,
        hosts: Seq<Seq<char>>,
        i: int,
        books: Bookkeeping,
        peer: Seq<char>,
        key: Seq<char>,
    )
        requires
            0 <= i,
        ensures
            ({
                let now = remembered(self.with_visits(hosts, i, books), peer, key);
                ||| {
                    &&& now == remembered(books, peer, key)
                    &&& forall|l: int, m: int|
                        i <= l < hosts.len() && 0 <= m < self.plan(l).len() ==> self.record_of(
                            l,
                            m,
                            hosts[l],
                            #[trigger] self.plan(l)[m],
                            peer,
                            key,
                        ) is None
                }
                ||| exists|l: int, m: int|
                    i <= l < hosts.len() && 0 <= m < self.plan(l).len() && now is Some && now
                        == self.record_of(l, m, hosts[l], #[trigger] self.plan(l)[m], peer, key)
            }),
        decreases hosts.len() - i,
    {
        if i < hosts.len() {
            let next = self.with_visit(i, hosts[i], books);
            assert(next == self.with_plan(i, hosts[i], self.plan(i), 0, books));
            self.lemma_with_plan(i, hosts[i], self.plan(i), 0, books, peer, key);
            self.lemma_with_visits(hosts, i + 1, next, peer, key);
        }
    }
}

/// What a run that is not dry saves of a repo of a peer: the record of a live merge
/// of it that succeeded in the run, where there was one, and else what was
/// remembered of it before.
pub proof fn lemma_saved_entry(
    found: Findings,
    only: Seq<Seq<char>>,
    peer: Seq<char>,
    key: Seq<char>,
)
    ensures
        ({
            let hosts = selected(found.peers, only);
            let saved = remembered(found.with_visits(hosts, 0, found.loaded), peer, key);
            ||| {
                &&& saved == remembered(found.loaded, peer, key)
                &&& forall|i: int, n: int|
                    0 <= i < hosts.len() && 0 <= n < found.plan(i).len() ==> found.record_of(
                        i,
                        n,
                        hosts[i],
                        #[trigger] found.plan(i)[n],
                        peer,
                        key,
                    ) is None
            }
            ||| exists|i: int, n: int|
                0 <= i < hosts.len() && 0 <= n < found.plan(i).len() && saved is Some && saved
                    == found.record_of(i, n, hosts[i], #[trigger] found.plan(i)[n], peer, key)
        }),
{
    found.lemma_with_visits(selected(found.peers, only), 0, found.loaded, peer, key);
}

/// The live work on a repo that both sides have ends well just when its snapshot
/// was fetched and its merge succeeded, which is just when it is recorded.
pub proof fn lemma_live_merge_works(
    found: Findings,
    i: int,
    n: int,
    host: Seq<char>,
    repo: PlannedRepo<Seq<char>>,
    books: Bookkeeping,
)
    requires
        repo.action == RepoAction::Merge,
    ensures
        found.works(i, n, planned_job(host, repo, false)) <==> found.live_merge(
            i,
            n,
            host,
            repo.key,
        ) is Some,
        found.noted(i, n, planned_job(host, repo, false), JOB_REQUESTS as nat, books)
            == found.with_repo(i, n, host, repo, books),
{
    reveal_with_fuel(Findings::work, 4);
    found.lemma_noted(i, n, host, repo, false, books);
}

// ---------------------------------------------------------------------------
// Around a run
// ---------------------------------------------------------------------------

/// What is said where there is no configuration.
pub fn no_config_message(shown: &str) -> (r: String)
    ensures
        r@ == "no config at "@ + shown@ + "; run `diwa-sync init` first"@,
{
    let mut s = text::joined("no config at ", shown);
    s.append("; run `diwa-sync init` first");
    s
}

/// What is written where a configuration is asked for: the default one, unless
/// there is one already, which is left alone.
pub fn cmd_init(exists: bool) -> (r: Option<String>)
    ensures
        exists ==> r is None,
        !exists ==> (r matches Some(body) && body@ == DEFAULT_BODY@),
{
    if exists {
        None
    } else {
        Some(Config::write_default())
    }
}

/// What is said behind the scaffolding.
pub fn init_hint(shown: &str) -> (r: String)
    ensures
        r@ == "next: edit "@ + shown@
            + " to add SSH peer aliases, then run: diwa-sync --dry-run"@,
{
    let mut s = text::joined("next: edit ", shown);
    s.append(" to add SSH peer aliases, then run: diwa-sync --dry-run");
    s
}

/// What came of making the lock directory, which is atomic.
#[derive(Debug)]
pub enum LockAttempt<S = String> {
    Made,
    Exists,
    Failed { cause: S },
}

/// Whether the single-instance lock is ours, and why not.
pub fn acquire_lock(attempt: &LockAttempt, shown: &str) -> (r: Result<(), String>)
    ensures
        match *attempt {
            LockAttempt::Made => r is Ok,
            LockAttempt::Exists => r matches Err(e) && e@ == "lock "@ + shown@ + " already held"@,
            LockAttempt::Failed { cause } => r matches Err(e) && e@ == cause@,
        },
{
    match attempt {
        LockAttempt::Made => Ok(()),
        LockAttempt::Exists => {
            let mut s = text::joined("lock ", shown);
            s.append(" already held");
            Err(s)
        },
        LockAttempt::Failed { cause } => Err(cause.clone()),
    }
}

/// The name of this machine, from what the `hostname` program printed, if it ran.
pub fn hostname(printed: Option<Vec<u8>>) -> (r: String)
    ensures
        r@ == match printed {
            Some(bytes) => if valid_utf8(bytes@) {
                trimmed(decode_utf8(bytes@))
            } else {
                "unknown"@
            },
            None => "unknown"@,
        },
{
    match printed {
        Some(bytes) => match text::from_utf8(bytes) {
            Ok(s) => text::trim(s.as_str()),
            Err(_) => "unknown".to_owned(),
        },
        None => "unknown".to_owned(),
    }
}

// ---------------------------------------------------------------------------
// What the parts of a run come to
// ---------------------------------------------------------------------------

/// The listing of the local repos leaves none out and makes none up: a name is listed
/// just when an entry of that name is a directory, its name is a valid key, and it
/// has an `index.db` of any size above zero.
pub proof fn lemma_local_listing_complete(entries: Seq<LocalEntry<Seq<char>>>, name: Seq<char>)
    ensures
        sorted(repo_names(entries)).contains(name) <==> exists|i: int|
            0 <= i < entries.len() && (#[trigger] entries[i]).name == name && entries[i].is_dir
                && valid_key(name) && entries[i].index_size is Some && entries[i].index_size->0 > 0,
{
    lemma_repo_names_complete(entries, name);
    text::lemma_sorted(repo_names(entries));
}

proof fn lemma_repo_names_complete(entries: Seq<LocalEntry<Seq<char>>>, name: Seq<char>)
    ensures
        repo_names(entries).contains(name) <==> exists|i: int|
            0 <= i < entries.len() && (#[trigger] entries[i]).name == name && entries[i].is_dir
                && valid_key(name) && entries[i].index_size is Some && entries[i].index_size->0 > 0,
    decreases entries.len(),
{
    if entries.len() > 0 {
        let less = entries.drop_last();
        let some = repo_names(less);
        let all = repo_names(entries);
        let last = entries.last();
        assert(entries[entries.len() - 1] == last);
        lemma_repo_names_complete(less, name);
        if all.contains(name) {
            let i = choose|i: int| 0 <= i < all.len() && all[i] == name;
            if i < some.len() {
                assert(some[i] == name);
                assert(some.contains(name));
                let j = choose|j: int|
                    0 <= j < less.len() && (#[trigger] less[j]).name == name && less[j].is_dir
                        && valid_key(name) && less[j].index_size is Some && less[j].index_size->0
                        > 0;
                assert(entries[j] == less[j]);
            } else {
                assert(last.name == name);
            }
        }
        if exists|i: int|
            0 <= i < entries.len() && (#[trigger] entries[i]).name == name && entries[i].is_dir
                && valid_key(name) && entries[i].index_size is Some && entries[i].index_size->0
                > 0 {
            let i = choose|i: int|
                0 <= i < entries.len() && (#[trigger] entries[i]).name == name && entries[i].is_dir
                    && valid_key(name) && entries[i].index_size is Some && entries[i].index_size->0
                    > 0;
            if i < less.len() {
                assert(less[i] == entries[i]);
                assert(some.contains(name));
                let j = choose|j: int| 0 <= j < some.len() && some[j] == name;
                assert(all[j] == name);
            } else {
                assert(all[all.len() - 1] == name);
            }
        }
    }
}

/// A plan is in the order of its keys.
pub proof fn lemma_plan_in_order(local: Seq<Seq<char>>, peer: Seq<Seq<char>>)
    ensures
        forall|i: int, j: int|
            0 <= i < j < planned(local, peer).len() ==> text::before(
                (#[trigger] planned(local, peer)[i]).key,
                (#[trigger] planned(local, peer)[j]).key,
            ),
{
    text::lemma_sorted_distinct(local + peer);
}

/// The live work on a repo that both sides have: its snapshot is fetched, what was
/// fetched is merged into the repo's own index, and the rows that the merge left are
/// recorded.
pub proof fn lemma_merge_steps(host: Seq<char>, key: Seq<char>, stats: MergeStats)
    ensures
        ({
            let fetched = host + "-"@ + key + ".peer.db"@;
            let a = Job::start(host, key, RepoAction::Merge, false);
            let b = a.next(JobReply::Done);
            let c = b.next(JobReply::Merged { stats });
            let d = c.next(JobReply::Done);
            &&& a.pending() == Some(JobRequest::Snapshot { to: fetched })
            &&& b.pending() == Some(
                JobRequest::Merge { target: MergeTarget::Live, from: fetched },
            )
            &&& c.pending() == Some(
                JobRequest::<Seq<char>>::Record { local_after: stats.local_after },
            )
            &&& d.stage == (JobStage::<Seq<char>>::Finished { result: Ok(()) })
        }),
{
}

/// The dry work on a repo that both sides have: its snapshot is fetched, the local
/// index is copied to a file of its own, and the one is merged into the other.
pub proof fn lemma_dry_merge_steps(host: Seq<char>, key: Seq<char>, stats: MergeStats)
    ensures
        ({
            let fetched = host + "-"@ + key + ".peer.db"@;
            let copied = host + "-"@ + key + ".local.db"@;
            let a = Job::start(host, key, RepoAction::Merge, true);
            let b = a.next(JobReply::Done);
            let c = b.next(JobReply::Done);
            let d = c.next(JobReply::Merged { stats });
            &&& a.pending() == Some(JobRequest::Snapshot { to: fetched })
            &&& b.pending() == Some(JobRequest::LocalSnapshot { to: copied })
            &&& c.pending() == Some(
                JobRequest::Merge { target: MergeTarget::Copy { name: copied }, from: fetched },
            )
            &&& d.stage == (JobStage::<Seq<char>>::Finished { result: Ok(()) })
            &&& fetched != copied
        }),
{
    reveal_strlit(".peer.db");
    reveal_strlit(".local.db");
    let fetched = host + "-"@ + key + ".peer.db"@;
    let copied = host + "-"@ + key + ".local.db"@;
    assert(fetched.len() != copied.len());
}

/// The work on a repo that only one side has. What the peer has is fetched and then
/// installed; what this machine has is copied and then pushed; dry, nothing is done.
pub proof fn lemma_bootstrap_steps(host: Seq<char>, key: Seq<char>)
    ensures
        ({
            let fetched = host + "-"@ + key + ".peer.db"@;
            let a = Job::start(host, key, RepoAction::PullInit, false);
            let b = a.next(JobReply::Done);
            let c = b.next(JobReply::Done);
            let d = c.next(JobReply::Done);
            &&& a.pending() == Some(JobRequest::Snapshot { to: fetched })
            &&& b.pending() == Some(JobRequest::<Seq<char>>::MakeDir)
            &&& c.pending() == Some(JobRequest::Install { from: fetched })
            &&& d.stage == (JobStage::<Seq<char>>::Finished { result: Ok(()) })
        }),
        ({
            let copied = host + "-"@ + key + ".local-seed.db"@;
            let a = Job::start(host, key, RepoAction::PushSeed, false);
            let b = a.next(JobReply::Done);
            let c = b.next(JobReply::Done);
            &&& a.pending() == Some(JobRequest::LocalSnapshot { to: copied })
            &&& b.pending() == Some(JobRequest::Push { from: copied })
            &&& c.stage == (JobStage::<Seq<char>>::Finished { result: Ok(()) })
        }),
        Job::start(host, key, RepoAction::PullInit, true).stage == (
            JobStage::<Seq<char>>::Finished { result: Ok(()) }),
        Job::start(host, key, RepoAction::PushSeed, true).stage == (
            JobStage::<Seq<char>>::Finished { result: Ok(()) }),
{
}

/// What fails in the work on a repo ends it, and is told as it is.
pub proof fn lemma_failed_request_ends_job(job: Job<Seq<char>>, cause: Seq<char>)
    requires
        job.pending() is Some,
    ensures
        job.next(JobReply::Failed { cause }).stage == (JobStage::<Seq<char>>::Finished {
            result: Err(cause),
        }),
        job.next(JobReply::Failed { cause }).pending() is None,
{
}

/// What the work on a repo is counted as: a merge, a pull or a push that went well as
/// one of its kind, one that failed as an error, and nothing else changes.
pub proof fn lemma_counted_by_kind(
    run: Run<Seq<char>, Seq<Seq<char>>, Seq<PlannedRepo<Seq<char>>>>,
    plan: Seq<PlannedRepo<Seq<char>>>,
    done: usize,
    cause: Seq<char>,
)
    requires
        run.stage == (
            RunStage::<Seq<char>, Seq<Seq<char>>, Seq<PlannedRepo<Seq<char>>>>::Working {
                plan,
                done,
            }),
        run.totals.room(),
    ensures
        ({
            let was = run.totals;
            let well = run.next(RunReply::Done).totals;
            let ill = run.next(RunReply::Failed { cause }).totals;
            let action = plan[done as int].action;
            &&& well.merged == was.merged + if action == RepoAction::Merge { 1int } else { 0int }
            &&& well.pulled == was.pulled + if action == RepoAction::PullInit { 1int } else { 0int }
            &&& well.pushed == was.pushed + if action == RepoAction::PushSeed { 1int } else { 0int }
            &&& well.errors == was.errors
            &&& well.peers_skipped == was.peers_skipped
            &&& ill.errors == was.errors + 1
            &&& ill.merged == was.merged
            &&& ill.pulled == was.pulled
            &&& ill.pushed == was.pushed
            &&& ill.peers_skipped == was.peers_skipped
        }),
{
}

/// The peers that a run visits keep the order and the number that they have in the
/// configuration: peers that were not asked for are passed over, and no more is done.
pub proof fn lemma_selected_in_order(
    a: Seq<Seq<char>>,
    b: Seq<Seq<char>>,
    only: Seq<Seq<char>>,
    p: Seq<char>,
)
    ensures
        selected(a, Seq::empty()) == a,
        selected(a + b, only) == selected(a, only) + selected(b, only),
        selected(seq![p], only) == if only.len() == 0 || only.contains(p) {
            seq![p]
        } else {
            Seq::empty()
        },
{
    let wanted = |q: Seq<char>| only.contains(q);
    if only.len() > 0 {
        lemma_filter_pieces(a, b, wanted);
        reveal(Seq::filter);
        let one = seq![p];
        assert(one.drop_last() =~= Seq::<Seq<char>>::empty());
        assert(one.drop_last().filter(wanted) =~= Seq::<Seq<char>>::empty());
        assert(one.filter(wanted) =~= if only.contains(p) {
            one
        } else {
            Seq::empty()
        });
    }
}

proof fn lemma_filter_pieces(
    a: Seq<Seq<char>>,
    b: Seq<Seq<char>>,
    wanted: spec_fn(Seq<char>) -> bool,
)
    ensures
        (a + b).filter(wanted) == a.filter(wanted) + b.filter(wanted),
    decreases b.len(),
{
    reveal(Seq::filter);
    if b.len() == 0 {
        assert(a + b =~= a);
        assert(b.filter(wanted) =~= Seq::<Seq<char>>::empty());
        assert((a + b).filter(wanted) =~= a.filter(wanted) + b.filter(wanted));
    } else {
        lemma_filter_pieces(a, b.drop_last(), wanted);
        assert((a + b).drop_last() =~= a + b.drop_last());
        assert((a + b).last() == b.last());
        assert((a + b).filter(wanted) =~= a.filter(wanted) + b.filter(wanted));
    }
}

/// How a run ends before it visits anyone: without a configuration, as an error;
/// without the lock, with the cause of that; and where none of the configured peers
/// was asked for, for want of peers. Nothing more is asked for then.
pub proof fn lemma_run_ends_early(dry_run: bool, only: Seq<Seq<char>>, peers: Seq<Seq<char>>)
    ensures
        ({
            let a = Run::start(dry_run, only);
            let b = a.next(RunReply::Yes);
            let c = b.next(RunReply::Names { names: peers });
            let d = c.next(RunReply::Done);
            let none = forall|p: Seq<char>| #[trigger]
                peers.contains(p) ==> only.len() > 0 && !only.contains(p);
            &&& a.next(RunReply::No).stage matches RunStage::Finished { end: RunEnd::NoConfig }
            &&& d.pending() == Some(RunRequest::<Seq<char>>::LoadState)
            &&& d.totals == Totals::zero()
            &&& none ==> (d.next(RunReply::Done).stage matches RunStage::Finished {
                end: RunEnd::NoPeers,
            })
            &&& !none ==> d.next(RunReply::Done).pending() == Some(
                RunRequest::<Seq<char>>::MakeStaging,
            )
        }),
        Totals::zero().merged == 0 && Totals::zero().pulled == 0 && Totals::zero().pushed == 0
            && Totals::zero().peers_skipped == 0 && Totals::zero().errors == 0,
{
    let chosen = selected(peers, only);
    if chosen.len() > 0 {
        assert(chosen.contains(chosen[0]));
        lemma_selected_peers(peers, only, chosen[0]);
    }
    if exists|p: Seq<char>| #[trigger] peers.contains(p) && !(only.len() > 0 && !only.contains(p)) {
        let p = choose|p: Seq<char>| #[trigger]
            peers.contains(p) && !(only.len() > 0 && !only.contains(p));
        lemma_selected_peers(peers, only, p);
        assert(chosen.contains(p));
    }
}

/// A peer that is unreachable or cannot be listed counts as one skipped, and nothing
/// else is counted for it; nor is anything counted before a peer is visited.
pub proof fn lemma_skip_counted(run: Run<Seq<char>, Seq<Seq<char>>, Seq<PlannedRepo<Seq<char>>>>, reply: RunReply<Seq<char>, Seq<Seq<char>>>)
    requires
        run.stage !is Working,
        run.totals.room(),
    ensures
        ({
            let now = run.next(reply).totals;
            &&& now.merged == run.totals.merged
            &&& now.pulled == run.totals.pulled
            &&& now.pushed == run.totals.pushed
            &&& now.errors == run.totals.errors
            &&& now.peers_skipped == run.totals.peers_skipped + if (run.stage is Probing
                && reply is No) || (run.stage is ListingPeer && reply is Failed) {
                1int
            } else {
                0int
            }
        }),
{
}

/// A reply of another kind than the request asks for changes nothing, and neither does
/// any reply once the work or the run is finished.
pub proof fn lemma_stray_replies_ignored(
    job: Job<Seq<char>>,
    done: JobReply<Seq<char>>,
    run: Run<Seq<char>, Seq<Seq<char>>, Seq<PlannedRepo<Seq<char>>>>,
    reply: RunReply<Seq<char>, Seq<Seq<char>>>,
)
    ensures
        job.pending() is None ==> job.next(done) == job,
        (job.pending() matches Some(q) && q is Merge) && done is Done ==> job.next(done) == job,
        (job.pending() matches Some(q) && !(q is Merge)) && done is Merged ==> job.next(done)
            == job,
        run.pending() is None ==> run.next(reply) == run,
        (run.pending() matches Some(q) && (q is CheckConfig || q is Probe)) && !(reply is Yes
            || reply is No) ==> run.next(reply) == run,
        (run.pending() matches Some(q) && (q is LoadConfig || q is ListLocal || q is ListPeer)) && !(
        reply is Names || reply is Failed) ==> run.next(reply) == run,
        (run.pending() matches Some(q) && (q is Lock || q is LoadState || q is MakeStaging
            || q is Repo || q is SaveState)) && !(reply is Done || reply is Failed) ==> run.next(
            reply,
        ) == run,
{
}

/// What is reasoned about is what is there: an entry of the data directory and the
/// replies to a job and to a run are seen as they are, part for part.
pub proof fn lemma_seen_as_they_are(e: LocalEntry, j: JobReply, r: RunReply)
    ensures
        e@.name == e.name@,
        e@.is_dir == e.is_dir,
        e@.index_size == e.index_size,
        j is Done <==> j@ is Done,
        j matches JobReply::Failed { cause } ==> j@ == (JobReply::<Seq<char>>::Failed {
            cause: cause@,
        }),
        j matches JobReply::Merged { stats } ==> j@ == (JobReply::<Seq<char>>::Merged { stats }),
        r is Yes <==> r@ is Yes,
        r is No <==> r@ is No,
        r is Done <==> r@ is Done,
        r matches RunReply::Failed { cause } ==> (r@ matches RunReply::Failed { cause: c } && c
            == cause@),
        r matches RunReply::Names { names } ==> (r@ matches RunReply::Names { names: v } && v
            == texts(names@)),
{
}

} // verus!
