//! What merging makes of the insights of a mesh.
//!
//! A table of insights with its dedup index is a map: the dedup columns of a row
//! tell it from all others. This module models a database that treats the
//! statements of a merge as SQL means them, and proves what a merge makes of it;
//! then it proves what runs make of a mesh of such databases. In the model the
//! dedup columns are never null, and the dedup index is the only thing that makes
//! `insights` turn a row away. SQLite itself is not verified: that it treats the
//! statements so is what the tests try.

use vstd::prelude::*;

use crate::command::LocalPath;
use crate::merge::{
    attach_statement, columns_verdict, has_dedup_index, insert_statement, lemma_dedup_verdict,
    lemma_schema_verdict,
    schema_verdict, IndexShape, Merge, MergeError, MergeReply, MergeRequest, MergeStage, MergeStats,
    SchemaProblem,
};
use crate::sync::{
    action_for, lemma_plan_covers_both_sides, planned, Job, JobReply, JobRequest, JobStage,
    MergeTarget, PlannedRepo, RepoAction, JOB_REQUESTS,
};

verus! {

// ---------------------------------------------------------------------------
// Insights
// ---------------------------------------------------------------------------

/// The dedup columns of a row.
pub struct InsightKey {
    pub commit_sha: Seq<char>,
    pub title: Seq<char>,
    pub source_type: Seq<char>,
}

/// The rows of an index: the other columns of each, by its dedup columns.
pub type Corpus = Map<InsightKey, Seq<Seq<char>>>;

/// The rows of both, where a row that both have is the local one.
pub open spec fn absorbed(local: Corpus, peer: Corpus) -> Corpus {
    peer.union_prefer_right(local)
}

/// Absorbing loses no row: every local row stays as it was, and every row that
/// the peer alone has is taken as the peer has it. Nothing else appears.
pub proof fn lemma_absorbing_unites(local: Corpus, peer: Corpus)
    ensures
        forall|k: InsightKey| #[trigger]
            absorbed(local, peer).contains_key(k) <==> local.contains_key(k) || peer.contains_key(k),
        forall|k: InsightKey|
            local.contains_key(k) ==> #[trigger] absorbed(local, peer)[k] == local[k],
        forall|k: InsightKey|
            !local.contains_key(k) && peer.contains_key(k) ==> #[trigger] absorbed(local, peer)[k]
                == peer[k],
{
}

/// Absorbing the same peer again changes nothing.
pub proof fn lemma_absorbing_idempotent(local: Corpus, peer: Corpus)
    ensures
        absorbed(absorbed(local, peer), peer) == absorbed(local, peer),
{
    assert(absorbed(absorbed(local, peer), peer) =~= absorbed(local, peer));
}

/// In which order two peers are absorbed makes no difference to which rows there
/// are; nor does who absorbs whom.
pub proof fn lemma_absorbing_commutes(local: Corpus, a: Corpus, b: Corpus)
    ensures
        absorbed(absorbed(local, a), b).dom() == absorbed(absorbed(local, b), a).dom(),
        absorbed(a, b).dom() == absorbed(b, a).dom(),
{
    assert(absorbed(absorbed(local, a), b).dom() =~= absorbed(absorbed(local, b), a).dom());
    assert(absorbed(a, b).dom() =~= absorbed(b, a).dom());
}

/// Absorbing adds as many rows as the peer has that are lacking, and so adds rows
/// just when it has one.
pub proof fn lemma_absorbing_counts(local: Corpus, peer: Corpus)
    requires
        local.dom().finite(),
        peer.dom().finite(),
    ensures
        absorbed(local, peer).dom().finite(),
        local.len() <= absorbed(local, peer).len() <= local.len() + peer.len(),
        absorbed(local, peer).len() == local.len() <==> peer.dom().subset_of(local.dom()),
        absorbed(local, peer).len() == local.len() ==> absorbed(local, peer) == local,
        absorbed(local, peer).len() - local.len() == peer.dom().difference(local.dom()).len(),
{
    let all = absorbed(local, peer);
    assert(all.dom() =~= local.dom().union(peer.dom()));
    vstd::set_lib::lemma_len_union(local.dom(), peer.dom());
    vstd::set_lib::lemma_len_subset(local.dom(), all.dom());
    let new = peer.dom().difference(local.dom());
    assert(all.dom() =~= local.dom() + new);
    vstd::set_lib::lemma_set_disjoint_lens(local.dom(), new);
    if all.len() == local.len() {
        vstd::set_lib::lemma_subset_equality(local.dom(), all.dom());
        assert(all =~= local);
        assert(peer.dom().subset_of(local.dom()));
    }
    if peer.dom().subset_of(local.dom()) {
        assert(all.dom() =~= local.dom());
    }
}

/// The rows of a list, by their dedup columns. Of rows that agree in them, which
/// a table without the dedup index may hold, the first one counts.
pub open spec fn rows_of(list: Seq<(InsightKey, Seq<Seq<char>>)>) -> Corpus
    decreases list.len(),
{
    if list.len() == 0 {
        Map::empty()
    } else if rows_of(list.drop_last()).contains_key(list.last().0) {
        rows_of(list.drop_last())
    } else {
        rows_of(list.drop_last()).insert(list.last().0, list.last().1)
    }
}

proof fn lemma_rows_of(list: Seq<(InsightKey, Seq<Seq<char>>)>)
    ensures
        rows_of(list).dom().finite(),
        rows_of(list).len() <= list.len(),
    decreases list.len(),
{
    if list.len() > 0 {
        lemma_rows_of(list.drop_last());
    }
}

// ---------------------------------------------------------------------------
// A database
// ---------------------------------------------------------------------------

/// A local database with a peer's database beside it.
#[verifier::ext_equal]
pub struct Store {
    pub local_columns: Seq<Seq<char>>,
    pub local_indexes: Seq<IndexShape<Seq<Option<Seq<char>>>>>,
    pub local: Corpus,
    /// The local rows as the open transaction has them, where one is open.
    pub open: Option<Corpus>,
    /// The rows that full-text search finds.
    pub searchable: Corpus,
    pub peer_columns: Seq<Seq<char>>,
    /// The rows of the peer, which need not have the dedup index.
    pub peer: Seq<(InsightKey, Seq<Seq<char>>)>,
}

impl Store {
    /// The local rows as the connection sees them.
    pub open spec fn seen(self) -> Corpus {
        match self.open {
            Some(rows) => rows,
            None => self.local,
        }
    }

    /// At rest, and small enough that the rows of the peer and those of both sides
    /// together can be counted.
    pub open spec fn at_rest(self) -> bool {
        &&& self.open is None
        &&& self.local.dom().finite()
        &&& self.peer.len() <= i64::MAX
        &&& absorbed(self.local, rows_of(self.peer)).len() <= i64::MAX
    }

    /// The schemas allow a merge.
    pub open spec fn mergeable(self) -> bool {
        &&& self.local_columns.len() > 0
        &&& schema_verdict(self.local_columns, self.peer_columns) is Ok
        &&& has_dedup_index(self.local_indexes)
    }

    /// What a request does to the database, and the reply to it.
    pub open spec fn answer(self, q: MergeRequest<Seq<char>>) -> (
        Store,
        MergeReply<Seq<char>, Seq<Seq<char>>, Seq<IndexShape<Seq<Option<Seq<char>>>>>>,
    ) {
        match q {
            MergeRequest::Open => (self, MergeReply::Done),
            MergeRequest::BusyTimeout { seconds } => (self, MergeReply::Done),
            MergeRequest::Batch { sql } => (
                if sql == "BEGIN IMMEDIATE;"@ {
                    Store { open: Some(self.local), ..self }
                } else if sql == "COMMIT;"@ {
                    Store { local: self.seen(), open: None, ..self }
                } else if sql == "INSERT INTO insights_fts(insights_fts) VALUES('rebuild');"@ {
                    Store { searchable: self.seen(), ..self }
                } else {
                    self
                },
                MergeReply::Done,
            ),
            MergeRequest::Columns { sql } => (
                self,
                MergeReply::Columns {
                    names: if sql == "PRAGMA main.table_info(insights)"@ {
                        self.local_columns
                    } else {
                        self.peer_columns
                    },
                },
            ),
            MergeRequest::Indexes { sql } => (
                self,
                MergeReply::Indexes { indexes: self.local_indexes },
            ),
            MergeRequest::Count { sql } => (
                self,
                MergeReply::Count {
                    rows: if sql == "SELECT count(*) FROM insights"@ {
                        self.seen().len() as i64
                    } else {
                        self.peer.len() as i64
                    },
                },
            ),
            MergeRequest::Execute { sql } => if sql == insert_statement() {
                let rows = absorbed(self.seen(), rows_of(self.peer));
                (
                    match self.open {
                        Some(_) => Store { open: Some(rows), ..self },
                        None => Store { local: rows, ..self },
                    },
                    MergeReply::Changed { changed: (rows.len() - self.seen().len()) as u64 },
                )
            } else {
                (self, MergeReply::Changed { changed: 0 })
            },
        }
    }

    /// The database once the connection is closed: an open transaction is lost.
    pub open spec fn closed(self) -> Store {
        Store { open: None, ..self }
    }
}

/// One request of a merge and its reply. Where the request fails, it does nothing.
pub open spec fn exchange(
    store: Store,
    merge: Merge<Seq<char>, Seq<Seq<char>>>,
    fault: Option<Seq<char>>,
) -> (Store, Merge<Seq<char>, Seq<Seq<char>>>) {
    match merge.pending() {
        None => (store, merge),
        Some(q) => match fault {
            Some(cause) => (store, merge.next(MergeReply::Failed { cause })),
            None => (store.answer(q).0, merge.next(store.answer(q).1)),
        },
    }
}

/// A merge on a database, request by request. `faults` tells which requests fail,
/// and why.
pub open spec fn course(
    store: Store,
    merge: Merge<Seq<char>, Seq<Seq<char>>>,
    faults: Seq<Option<Seq<char>>>,
) -> (Store, Merge<Seq<char>, Seq<Seq<char>>>)
    decreases faults.len(),
{
    if faults.len() == 0 {
        (store, merge)
    } else {
        let before = course(store, merge, faults.drop_last());
        exchange(before.0, before.1, faults.last())
    }
}

/// The statistics of a merge.
pub open spec fn counts(store: Store) -> MergeStats {
    MergeStats {
        local_before: store.local.len() as i64,
        peer_total: store.peer.len() as i64,
        local_after: absorbed(store.local, rows_of(store.peer)).len() as i64,
    }
}

/// The database behind a merge: the rows of both, all of them searchable if any
/// was added.
pub open spec fn merged(store: Store) -> Store {
    Store {
        local: absorbed(store.local, rows_of(store.peer)),
        searchable: if absorbed(store.local, rows_of(store.peer)).len() > store.local.len() {
            absorbed(store.local, rows_of(store.peer))
        } else {
            store.searchable
        },
        ..store
    }
}

/// Where a merge stands, and how the database looks there.
spec fn on_course(
    first: Store,
    local_db: LocalPath<Seq<char>>,
    peer_db: LocalPath<Seq<char>>,
    now: Store,
    merge: Merge<Seq<char>, Seq<Seq<char>>>,
) -> bool {
    let all = absorbed(first.local, rows_of(first.peer));
    let stats = counts(first);
    &&& merge.local_db == local_db
    &&& merge.peer_db == peer_db
    &&& match merge.stage {
        MergeStage::Opening => true,
        MergeStage::Tuning => true,
        MergeStage::Finished { result: Err(e) } => true,
        _ => peer_db.text is Some,
    }
    &&& match merge.stage {
        MergeStage::Opening => now == first,
        MergeStage::Tuning => now == first,
        MergeStage::Attaching { peer } => now == first && peer_db.text == Some(peer),
        MergeStage::ReadingLocal => now == first,
        MergeStage::ReadingPeer { local } => now == first && local == first.local_columns
            && local.len() > 0,
        MergeStage::ReadingIndexes => now == first && first.local_columns.len() > 0
            && schema_verdict(first.local_columns, first.peer_columns) is Ok,
        MergeStage::CountingLocal => now == first && first.mergeable(),
        MergeStage::CountingPeer { local_before } => now == first && first.mergeable()
            && local_before == stats.local_before,
        MergeStage::Beginning { local_before, peer_total } => now == first && first.mergeable()
            && local_before == stats.local_before && peer_total == stats.peer_total,
        MergeStage::Inserting { local_before, peer_total } => now == (
            Store { open: Some(first.local), ..first }) && first.mergeable() && local_before
            == stats.local_before && peer_total == stats.peer_total,
        MergeStage::Committing { local_before, peer_total, inserted } => now == (
            Store { open: Some(all), ..first }) && first.mergeable() && local_before
            == stats.local_before && peer_total == stats.peer_total && inserted == all.len()
            - first.local.len(),
        MergeStage::Recounting { local_before, peer_total, inserted } => now == (
            Store { local: all, ..first }) && first.mergeable() && local_before
            == stats.local_before && peer_total == stats.peer_total && inserted == all.len()
            - first.local.len(),
        MergeStage::Rebuilding { stats: s } => now == (Store { local: all, ..first })
            && first.mergeable() && s == stats && all.len() > first.local.len(),
        MergeStage::Detaching { stats: s } => now == merged(first) && first.mergeable() && s
            == stats,
        MergeStage::Finished { result: Ok(s) } => now == merged(first) && first.mergeable() && s
            == stats,
        MergeStage::Finished { result: Err(e) } => {
            ||| now.closed() == first
            ||| now.closed() == (Store { local: all, ..first }) && first.mergeable() && (
            e is Statement || e is Rebuild)
        },
    }
}

/// The statements of a merge can be told apart.
proof fn lemma_statements_differ(path: Seq<char>)
    ensures
        attach_statement(path) != "BEGIN IMMEDIATE;"@,
        attach_statement(path) != "COMMIT;"@,
        attach_statement(path) != "INSERT INTO insights_fts(insights_fts) VALUES('rebuild');"@,
        "DETACH DATABASE peer;"@ != "BEGIN IMMEDIATE;"@,
        "DETACH DATABASE peer;"@ != "COMMIT;"@,
        "DETACH DATABASE peer;"@ != "INSERT INTO insights_fts(insights_fts) VALUES('rebuild');"@,
        "COMMIT;"@ != "BEGIN IMMEDIATE;"@,
        "INSERT INTO insights_fts(insights_fts) VALUES('rebuild');"@ != "BEGIN IMMEDIATE;"@,
        "INSERT INTO insights_fts(insights_fts) VALUES('rebuild');"@ != "COMMIT;"@,
        "PRAGMA peer.table_info(insights)"@ != "PRAGMA main.table_info(insights)"@,
        "SELECT count(*) FROM peer.insights"@ != "SELECT count(*) FROM insights"@,
{
    reveal_strlit("ATTACH DATABASE '");
    reveal_strlit("BEGIN IMMEDIATE;");
    reveal_strlit("COMMIT;");
    reveal_strlit("INSERT INTO insights_fts(insights_fts) VALUES('rebuild');");
    reveal_strlit("DETACH DATABASE peer;");
    reveal_strlit("PRAGMA peer.table_info(insights)");
    reveal_strlit("PRAGMA main.table_info(insights)");
    reveal_strlit("SELECT count(*) FROM peer.insights");
    reveal_strlit("SELECT count(*) FROM insights");
    assert(attach_statement(path)[0] == 'A');
    assert("BEGIN IMMEDIATE;"@[0] == 'B');
    assert("COMMIT;"@[0] == 'C');
    assert("INSERT INTO insights_fts(insights_fts) VALUES('rebuild');"@[0] == 'I');
    assert("DETACH DATABASE peer;"@[0] == 'D');
    assert("PRAGMA peer.table_info(insights)"@[7] == 'p');
    assert("PRAGMA main.table_info(insights)"@[7] == 'm');
    assert("SELECT count(*) FROM peer.insights"@.len() == 34);
    assert("SELECT count(*) FROM insights"@.len() == 29);
}

proof fn lemma_stays_on_course(
    first: Store,
    local_db: LocalPath<Seq<char>>,
    peer_db: LocalPath<Seq<char>>,
    now: Store,
    merge: Merge<Seq<char>, Seq<Seq<char>>>,
    fault: Option<Seq<char>>,
)
    requires
        first.at_rest(),
        on_course(first, local_db, peer_db, now, merge),
    ensures
        ({
            let after = exchange(now, merge, fault);
            on_course(first, local_db, peer_db, after.0, after.1)
        }),
{
    lemma_rows_of(first.peer);
    lemma_absorbing_counts(first.local, rows_of(first.peer));
    match merge.stage {
        MergeStage::Attaching { peer } => {
            lemma_statements_differ(peer);
        },
        _ => {
            lemma_statements_differ(Seq::empty());
        },
    }
    assert(first.closed() =~= first);
    assert(Store { open: Some(first.local), ..first }.closed() =~= first);
    assert(Store { open: Some(absorbed(first.local, rows_of(first.peer))), ..first }.closed() =~= first);
}

proof fn lemma_course(
    first: Store,
    local_db: LocalPath<Seq<char>>,
    peer_db: LocalPath<Seq<char>>,
    faults: Seq<Option<Seq<char>>>,
)
    requires
        first.at_rest(),
    ensures
        ({
            let (now, merge) = course(first, Merge::start(local_db, peer_db), faults);
            on_course(first, local_db, peer_db, now, merge)
        }),
    decreases faults.len(),
{
    if faults.len() > 0 {
        lemma_course(first, local_db, peer_db, faults.drop_last());
        let (now, merge) = course(first, Merge::start(local_db, peer_db), faults.drop_last());
        lemma_stays_on_course(first, local_db, peer_db, now, merge, faults.last());
    }
}

/// A merge that succeeds, whatever failed on its way, has made the local index
/// the union of both sides, has counted right, and has left search in step with
/// the rows if it was before. The peer's database is untouched.
pub proof fn lemma_merge_unites(
    store: Store,
    local_db: LocalPath<Seq<char>>,
    peer_db: LocalPath<Seq<char>>,
    faults: Seq<Option<Seq<char>>>,
)
    requires
        store.at_rest(),
        course(store, Merge::start(local_db, peer_db), faults).1.stage is Finished,
        course(store, Merge::start(local_db, peer_db), faults).1.stage->result is Ok,
    ensures
        ({
            let (now, merge) = course(store, Merge::start(local_db, peer_db), faults);
            let stats = merge.stage->result->Ok_0;
            &&& now.local == absorbed(store.local, rows_of(store.peer))
            &&& now.peer == store.peer
            &&& now.open is None
            &&& stats.local_before == store.local.len()
            &&& stats.peer_total == store.peer.len()
            &&& stats.local_after == now.local.len()
            &&& stats.local_after - stats.local_before == rows_of(store.peer).dom().difference(
                store.local.dom(),
            ).len()
            &&& store.searchable == store.local ==> now.searchable == now.local
        }),
{
    lemma_course(store, local_db, peer_db, faults);
    lemma_rows_of(store.peer);
    lemma_absorbing_counts(store.local, rows_of(store.peer));
}

/// A merge that fails, whatever failed on its way, has left the local rows as
/// they were, or else has committed the union of both sides and failed only
/// behind that. No part of the peer's rows is ever there without the rest.
pub proof fn lemma_failed_merge_is_all_or_nothing(
    store: Store,
    local_db: LocalPath<Seq<char>>,
    peer_db: LocalPath<Seq<char>>,
    faults: Seq<Option<Seq<char>>>,
)
    requires
        store.at_rest(),
        course(store, Merge::start(local_db, peer_db), faults).1.stage is Finished,
        course(store, Merge::start(local_db, peer_db), faults).1.stage->result is Err,
    ensures
        ({
            let now = course(store, Merge::start(local_db, peer_db), faults).0.closed();
            &&& now.local == store.local || now.local == absorbed(store.local, rows_of(store.peer))
            &&& now.peer == store.peer
            &&& !store.mergeable() ==> now == store
        }),
{
    lemma_course(store, local_db, peer_db, faults);
}

/// How many requests a merge still makes at most.
spec fn left(stage: MergeStage<Seq<char>, Seq<Seq<char>>>) -> int {
    match stage {
        MergeStage::Opening => 14,
        MergeStage::Tuning => 13,
        MergeStage::Attaching { peer } => 12,
        MergeStage::ReadingLocal => 11,
        MergeStage::ReadingPeer { local } => 10,
        MergeStage::ReadingIndexes => 9,
        MergeStage::CountingLocal => 8,
        MergeStage::CountingPeer { local_before } => 7,
        MergeStage::Beginning { local_before, peer_total } => 6,
        MergeStage::Inserting { local_before, peer_total } => 5,
        MergeStage::Committing { local_before, peer_total, inserted } => 4,
        MergeStage::Recounting { local_before, peer_total, inserted } => 3,
        MergeStage::Rebuilding { stats } => 2,
        MergeStage::Detaching { stats } => 1,
        MergeStage::Finished { result } => 0,
    }
}

/// No request fails.
pub open spec fn no_faults(n: nat) -> Seq<Option<Seq<char>>> {
    Seq::new(n, |i: int| None)
}

/// The number of requests within which a merge ends.
pub const MERGE_REQUESTS: usize = 14;

proof fn lemma_no_faults(n: nat)
    requires
        n > 0,
    ensures
        no_faults(n).drop_last() == no_faults((n - 1) as nat),
        no_faults(n).last() == None::<Seq<char>>,
{
    assert(no_faults(n).drop_last() =~= no_faults((n - 1) as nat));
}

proof fn lemma_merge_proceeds(
    store: Store,
    local_db: LocalPath<Seq<char>>,
    peer_db: LocalPath<Seq<char>>,
    n: nat,
)
    requires
        store.at_rest(),
    ensures
        ({
            let (now, merge) = course(store, Merge::start(local_db, peer_db), no_faults(n));
            &&& on_course(store, local_db, peer_db, now, merge)
            &&& left(merge.stage) <= if n <= 14 { 14 - n } else { 0 }
            &&& merge.stage matches MergeStage::Finished { result: Err(e) } ==> {
                &&& now == store
                &&& e == reason(store, peer_db)
                &&& !(store.mergeable() && peer_db.text is Some)
            }
        }),
    decreases n,
{
    if n > 0 {
        let less = (n - 1) as nat;
        lemma_merge_proceeds(store, local_db, peer_db, less);
        lemma_no_faults(n);
        let (now, merge) = course(store, Merge::start(local_db, peer_db), no_faults(less));
        lemma_stays_on_course(store, local_db, peer_db, now, merge, None);
        match merge.stage {
            MergeStage::Attaching { peer } => {
                lemma_statements_differ(peer);
            },
            _ => {
                lemma_statements_differ(Seq::empty());
            },
        }
    }
}

/// Why a merge in which no request fails is turned down.
pub open spec fn reason(store: Store, peer_db: LocalPath<Seq<char>>) -> MergeError<
    Seq<char>,
    Seq<Seq<char>>,
> {
    if peer_db.text is None {
        MergeError::PeerPathNotUtf8
    } else {
        MergeError::Schema {
            problem: match columns_verdict("main"@, "insights"@, store.local_columns) {
                Err(p) => p,
                Ok(_) => match columns_verdict("peer"@, "insights"@, store.peer_columns) {
                    Err(p) => p,
                    Ok(_) => match schema_verdict(store.local_columns, store.peer_columns) {
                        Err(p) => p,
                        Ok(_) => SchemaProblem::NoDedupIndex,
                    },
                },
            },
        }
    }
}

/// A merge in which no request fails ends. It succeeds where the schemas allow
/// it, and then the local index is the union of both sides.
pub proof fn lemma_merge_succeeds(
    store: Store,
    local_db: LocalPath<Seq<char>>,
    peer_db: LocalPath<Seq<char>>,
)
    requires
        store.at_rest(),
        store.mergeable(),
        peer_db.text is Some,
    ensures
        ({
            let (now, merge) = course(
                store,
                Merge::start(local_db, peer_db),
                no_faults(MERGE_REQUESTS as nat),
            );
            &&& merge.stage == (
                MergeStage::<Seq<char>, Seq<Seq<char>>>::Finished { result: Ok(counts(store)) })
            &&& now == merged(store)
        }),
{
    lemma_merge_proceeds(store, local_db, peer_db, MERGE_REQUESTS as nat);
}

/// A merge that the schemas do not allow is turned down with the problem, and
/// writes nothing: unequal columns, columns that are missing, and a local index
/// without its dedup index.
pub proof fn lemma_merge_refused(
    store: Store,
    local_db: LocalPath<Seq<char>>,
    peer_db: LocalPath<Seq<char>>,
)
    requires
        store.at_rest(),
        !store.mergeable() || peer_db.text is None,
    ensures
        ({
            let (now, merge) = course(
                store,
                Merge::start(local_db, peer_db),
                no_faults(MERGE_REQUESTS as nat),
            );
            &&& merge.stage == (
                MergeStage::<Seq<char>, Seq<Seq<char>>>::Finished {
                    result: Err(reason(store, peer_db)),
                })
            &&& now == store
        }),
{
    lemma_merge_proceeds(store, local_db, peer_db, MERGE_REQUESTS as nat);
}

/// Merging the same peer again adds nothing and changes nothing.
pub proof fn lemma_merge_idempotent(
    store: Store,
    local_db: LocalPath<Seq<char>>,
    peer_db: LocalPath<Seq<char>>,
)
    requires
        store.at_rest(),
        store.mergeable(),
        peer_db.text is Some,
    ensures
        ({
            let start = Merge::start(local_db, peer_db);
            let once = course(store, start, no_faults(MERGE_REQUESTS as nat)).0;
            let (twice, merge) = course(once, start, no_faults(MERGE_REQUESTS as nat));
            &&& twice == once
            &&& merge.stage matches MergeStage::Finished { result: Ok(stats) }
            &&& stats.local_after == stats.local_before
        }),
{
    lemma_merge_succeeds(store, local_db, peer_db);
    lemma_rows_of(store.peer);
    lemma_absorbing_counts(store.local, rows_of(store.peer));
    lemma_absorbing_idempotent(store.local, rows_of(store.peer));
    lemma_merge_succeeds(merged(store), local_db, peer_db);
    assert(merged(merged(store)) =~= merged(store));
}

// ---------------------------------------------------------------------------
// A mesh
// ---------------------------------------------------------------------------

/// The indexes of a machine, by repo.
pub type Node = Map<Seq<char>, Corpus>;

/// Whether a machine has a repo.
pub open spec fn holds(node: Node, repo: Seq<char>) -> bool {
    node.contains_key(repo)
}

/// Whether a machine has an insight of a repo.
pub open spec fn knows(node: Node, repo: Seq<char>, k: InsightKey) -> bool {
    holds(node, repo) && node[repo].contains_key(k)
}

/// A machine behind its work with a peer.
pub open spec fn visiting(node: Node, peer: Node) -> Node {
    Map::new(
        |r: Seq<char>| holds(node, r) || holds(peer, r),
        |r: Seq<char>|
            match action_for(holds(node, r), holds(peer, r)) {
                RepoAction::Merge => absorbed(node[r], peer[r]),
                RepoAction::PullInit => peer[r],
                RepoAction::PushSeed => node[r],
            },
    )
}

/// A peer behind the work of a machine with it.
pub open spec fn visited(node: Node, peer: Node) -> Node {
    Map::new(
        |r: Seq<char>| holds(node, r) || holds(peer, r),
        |r: Seq<char>|
            match action_for(holds(node, r), holds(peer, r)) {
                RepoAction::Merge => peer[r],
                RepoAction::PullInit => peer[r],
                RepoAction::PushSeed => node[r],
            },
    )
}

/// A visit loses nothing on either side and makes nothing up; behind it the
/// visitor has what either side had, and a repo that the peer had stays as it
/// was there.
pub proof fn lemma_visit(node: Node, peer: Node, repo: Seq<char>, k: InsightKey)
    ensures
        holds(visiting(node, peer), repo) <==> holds(node, repo) || holds(peer, repo),
        knows(visiting(node, peer), repo, k) <==> knows(node, repo, k) || knows(peer, repo, k),
        holds(visited(node, peer), repo) <==> holds(node, repo) || holds(peer, repo),
        holds(peer, repo) ==> visited(node, peer)[repo] == peer[repo],
        knows(peer, repo, k) ==> knows(visited(node, peer), repo, k),
        knows(visited(node, peer), repo, k) ==> knows(node, repo, k) || knows(peer, repo, k),
{
}

// ---------------------------------------------------------------------------
// A visit, step by step
// ---------------------------------------------------------------------------

/// A merge in which no request fails, of a repo that both sides have, gives the
/// visitor what the visit makes of that repo.
pub proof fn lemma_merge_is_visit(
    store: Store,
    local_db: LocalPath<Seq<char>>,
    peer_db: LocalPath<Seq<char>>,
    node: Node,
    peer: Node,
    repo: Seq<char>,
)
    requires
        holds(node, repo),
        holds(peer, repo),
        store.local == node[repo],
        rows_of(store.peer) == peer[repo],
    ensures
        merged(store).local == visiting(node, peer)[repo],
        store.at_rest() && store.mergeable() && peer_db.text is Some ==> course(
            store,
            Merge::start(local_db, peer_db),
            no_faults(MERGE_REQUESTS as nat),
        ).0.local == visiting(node, peer)[repo],
{
    if store.at_rest() && store.mergeable() && peer_db.text is Some {
        lemma_merge_succeeds(store, local_db, peer_db);
    }
}

/// Two machines in the course of a visit, with the files in the staging directory.
pub struct Sides {
    pub node: Node,
    pub peer: Node,
    pub staged: Map<Seq<char>, Corpus>,
}

impl Sides {
    /// The two machines behind a request in the work on a repo.
    pub open spec fn after(self, key: Seq<char>, q: JobRequest<Seq<char>>) -> Sides {
        match q {
            JobRequest::Snapshot { to } => Sides {
                staged: self.staged.insert(to, self.peer[key]),
                ..self
            },
            JobRequest::LocalSnapshot { to } => Sides {
                staged: self.staged.insert(to, self.node[key]),
                ..self
            },
            JobRequest::Merge { target: MergeTarget::Live, from } => Sides {
                node: self.node.insert(key, absorbed(self.node[key], self.staged[from])),
                ..self
            },
            JobRequest::Merge { target: MergeTarget::Copy { name }, from } => Sides {
                staged: self.staged.insert(
                    name,
                    absorbed(self.staged[name], self.staged[from]),
                ),
                ..self
            },
            JobRequest::Record { local_after } => self,
            JobRequest::MakeDir => self,
            JobRequest::Install { from } => Sides {
                node: self.node.insert(key, self.staged[from]),
                ..self
            },
            JobRequest::Push { from } => Sides {
                peer: self.peer.insert(key, self.staged[from]),
                ..self
            },
        }
    }
}

/// The reply to a request in the work on a repo that is done.
pub open spec fn done_reply(q: JobRequest<Seq<char>>, stats: MergeStats) -> JobReply<Seq<char>> {
    match q {
        JobRequest::Merge { target, from } => JobReply::Merged { stats },
        _ => JobReply::Done,
    }
}

/// The work on a repo in which every request is done, `steps` requests on.
pub open spec fn job_course(
    sides: Sides,
    job: Job<Seq<char>>,
    stats: MergeStats,
    steps: nat,
) -> (Sides, Job<Seq<char>>)
    decreases steps,
{
    match job.pending() {
        Some(q) if steps > 0 => job_course(
            sides.after(job.key, q),
            job.next(done_reply(q, stats)),
            stats,
            (steps - 1) as nat,
        ),
        _ => (sides, job),
    }
}

/// The work on a repo in which every request is done ends well. On both sides it
/// leaves of the repo what the visit makes of it, and no other repo is touched: the
/// merged index, the installed snapshot or the pushed seed, by who had the repo.
pub proof fn lemma_job_is_visit(sides: Sides, host: Seq<char>, key: Seq<char>, stats: MergeStats)
    requires
        holds(sides.node, key) || holds(sides.peer, key),
    ensures
        ({
            let action = action_for(holds(sides.node, key), holds(sides.peer, key));
            let (after, job) = job_course(
                sides,
                Job::start(host, key, action, false),
                stats,
                JOB_REQUESTS as nat,
            );
            &&& job.stage matches JobStage::Finished { result: Ok(_) }
            &&& after.node == sides.node.insert(key, visiting(sides.node, sides.peer)[key])
            &&& after.peer == sides.peer.insert(key, visited(sides.node, sides.peer)[key])
        }),
{
    reveal_with_fuel(job_course, 4);
    let action = action_for(holds(sides.node, key), holds(sides.peer, key));
    let (after, job) = job_course(
        sides,
        Job::start(host, key, action, false),
        stats,
        JOB_REQUESTS as nat,
    );
    assert(after.node =~= sides.node.insert(key, visiting(sides.node, sides.peer)[key]));
    assert(after.peer =~= sides.peer.insert(key, visited(sides.node, sides.peer)[key]));
}

/// Dry work on a repo in which every request is done ends well and leaves both
/// machines as they were.
pub proof fn lemma_dry_job_visits_nothing(
    sides: Sides,
    host: Seq<char>,
    key: Seq<char>,
    action: RepoAction,
    stats: MergeStats,
)
    ensures
        ({
            let (after, job) = job_course(
                sides,
                Job::start(host, key, action, true),
                stats,
                JOB_REQUESTS as nat,
            );
            &&& job.stage matches JobStage::Finished { result: Ok(_) }
            &&& after.node == sides.node
            &&& after.peer == sides.peer
        }),
{
    reveal_with_fuel(job_course, 4);
}

/// The two machines behind the work on the first `n` repos of a plan, in which every
/// request is done.
pub open spec fn plan_course(
    sides: Sides,
    host: Seq<char>,
    plan: Seq<PlannedRepo<Seq<char>>>,
    stats: spec_fn(int) -> MergeStats,
    n: nat,
) -> Sides
    decreases n,
{
    if n == 0 {
        sides
    } else {
        let repo = plan[n - 1];
        job_course(
            plan_course(sides, host, plan, stats, (n - 1) as nat),
            Job::start(host, repo.key, repo.action, false),
            stats(n - 1),
            JOB_REQUESTS as nat,
        ).0
    }
}

/// The work on all the repos that two machines have, as it is planned from what they
/// list, makes of the two what a visit does.
pub proof fn lemma_plan_is_visit(
    sides: Sides,
    host: Seq<char>,
    local: Seq<Seq<char>>,
    remote: Seq<Seq<char>>,
    stats: spec_fn(int) -> MergeStats,
)
    requires
        forall|k: Seq<char>| #[trigger] local.contains(k) <==> holds(sides.node, k),
        forall|k: Seq<char>| #[trigger] remote.contains(k) <==> holds(sides.peer, k),
    ensures
        ({
            let plan = planned(local, remote);
            let after = plan_course(sides, host, plan, stats, plan.len());
            &&& after.node == visiting(sides.node, sides.peer)
            &&& after.peer == visited(sides.node, sides.peer)
        }),
{
    let plan = planned(local, remote);
    let after = plan_course(sides, host, plan, stats, plan.len());
    lemma_plan_covers_both_sides(local, remote);
    lemma_plan_part_is_visit(sides, host, local, remote, stats, plan.len());
    let node = visiting(sides.node, sides.peer);
    let peer = visited(sides.node, sides.peer);
    assert forall|k: Seq<char>| #[trigger]
        among(plan, plan.len() as int, k) <==> holds(sides.node, k) || holds(sides.peer, k) by {
        assert((local.contains(k) || remote.contains(k)) <==> exists|i: int|
            0 <= i < plan.len() && (#[trigger] plan[i]).key == k);
    }
    assert forall|k: Seq<char>| #[trigger] after.node.contains_key(k) <==> node.contains_key(k) by {
        assert(among(plan, plan.len() as int, k) <==> holds(sides.node, k) || holds(sides.peer, k));
    }
    assert forall|k: Seq<char>| #[trigger] after.peer.contains_key(k) <==> peer.contains_key(k) by {
        assert(among(plan, plan.len() as int, k) <==> holds(sides.node, k) || holds(sides.peer, k));
    }
    assert forall|k: Seq<char>| #[trigger] node.contains_key(k) implies after.node[k] == node[k]
        by {
        assert(among(plan, plan.len() as int, k));
    }
    assert forall|k: Seq<char>| #[trigger] peer.contains_key(k) implies after.peer[k] == peer[k]
        by {
        assert(among(plan, plan.len() as int, k));
    }
    assert(after.node =~= node);
    assert(after.peer =~= peer);
}

/// Whether a repo is one of the first `n` of a plan.
spec fn among(plan: Seq<PlannedRepo<Seq<char>>>, n: int, key: Seq<char>) -> bool {
    exists|i: int| 0 <= i < n && (#[trigger] plan[i]).key == key
}

proof fn lemma_plan_part_is_visit(
    sides: Sides,
    host: Seq<char>,
    local: Seq<Seq<char>>,
    remote: Seq<Seq<char>>,
    stats: spec_fn(int) -> MergeStats,
    n: nat,
)
    requires
        forall|k: Seq<char>| #[trigger] local.contains(k) <==> holds(sides.node, k),
        forall|k: Seq<char>| #[trigger] remote.contains(k) <==> holds(sides.peer, k),
        n <= planned(local, remote).len(),
    ensures
        ({
            let plan = planned(local, remote);
            let now = plan_course(sides, host, plan, stats, n);
            &&& forall|k: Seq<char>| #[trigger]
                now.node.contains_key(k) <==> among(plan, n as int, k) || holds(sides.node, k)
            &&& forall|k: Seq<char>| #[trigger]
                now.peer.contains_key(k) <==> among(plan, n as int, k) || holds(sides.peer, k)
            &&& forall|k: Seq<char>| #[trigger]
                now.node[k] == if among(plan, n as int, k) {
                    visiting(sides.node, sides.peer)[k]
                } else {
                    sides.node[k]
                }
            &&& forall|k: Seq<char>| #[trigger]
                now.peer[k] == if among(plan, n as int, k) {
                    visited(sides.node, sides.peer)[k]
                } else {
                    sides.peer[k]
                }
        }),
    decreases n,
{
    let plan = planned(local, remote);
    if n > 0 {
        let less = (n - 1) as nat;
        lemma_plan_part_is_visit(sides, host, local, remote, stats, less);
        lemma_plan_covers_both_sides(local, remote);
        let before = plan_course(sides, host, plan, stats, less);
        let repo = plan[n - 1];
        let key = repo.key;
        assert(!among(plan, less as int, key)) by {
            if among(plan, less as int, key) {
                let i = choose|i: int| 0 <= i < less && (#[trigger] plan[i]).key == key;
                assert(plan[i].key != plan[n - 1].key);
            }
        }
        assert(local.contains(key) || remote.contains(key));
        assert(holds(before.node, key) == holds(sides.node, key));
        assert(holds(before.peer, key) == holds(sides.peer, key));
        lemma_job_is_visit(before, host, key, stats(n - 1));
        assert(repo.action == action_for(local.contains(key), remote.contains(key)));
        assert forall|k: Seq<char>| #[trigger]
            among(plan, n as int, k) <==> among(plan, less as int, k) || k == key by {
            if among(plan, n as int, k) {
                let i = choose|i: int| 0 <= i < n && (#[trigger] plan[i]).key == k;
                if i < less {
                    assert(plan[i].key == k);
                }
            }
            if among(plan, less as int, k) {
                let i = choose|i: int| 0 <= i < less && (#[trigger] plan[i]).key == k;
                assert(plan[i].key == k);
            }
            if k == key {
                assert(plan[n - 1].key == k);
            }
        }
    }
}

// ---------------------------------------------------------------------------
// Many visits
// ---------------------------------------------------------------------------

/// A mesh behind the visit of machine `i` to machine `j`.
pub open spec fn visit(mesh: Seq<Node>, i: int, j: int) -> Seq<Node> {
    if i == j {
        mesh
    } else {
        mesh.update(i, visiting(mesh[i], mesh[j])).update(j, visited(mesh[i], mesh[j]))
    }
}

/// A mesh behind a series of visits, each of one machine to another.
pub open spec fn visits(mesh: Seq<Node>, series: Seq<(int, int)>) -> Seq<Node>
    decreases series.len(),
{
    if series.len() == 0 {
        mesh
    } else {
        visit(visits(mesh, series.drop_last()), series.last().0, series.last().1)
    }
}

/// Every visit of a series is between machines of the mesh.
pub open spec fn within(mesh: Seq<Node>, series: Seq<(int, int)>) -> bool {
    forall|m: int|
        0 <= m < series.len() ==> 0 <= (#[trigger] series[m]).0 < mesh.len() && 0 <= series[m].1
            < mesh.len()
}

/// Every machine visits every other.
pub open spec fn all_visit_all(mesh: Seq<Node>, series: Seq<(int, int)>) -> bool {
    forall|i: int, j: int|
        0 <= i < mesh.len() && 0 <= j < mesh.len() && i != j ==> #[trigger] series.contains((i, j))
}

/// Whether some machine has a repo.
pub open spec fn held(mesh: Seq<Node>, repo: Seq<char>) -> bool {
    exists|i: int| 0 <= i < mesh.len() && holds(#[trigger] mesh[i], repo)
}

/// Whether some machine has an insight of a repo.
pub open spec fn known(mesh: Seq<Node>, repo: Seq<char>, k: InsightKey) -> bool {
    exists|i: int| 0 <= i < mesh.len() && knows(#[trigger] mesh[i], repo, k)
}

/// What one mesh has over another: no machine has lost anything, and no machine
/// has anything that none had.
spec fn grown(a: Seq<Node>, b: Seq<Node>, repo: Seq<char>, k: InsightKey) -> bool {
    &&& a.len() == b.len()
    &&& forall|i: int| 0 <= i < a.len() && holds(#[trigger] a[i], repo) ==> holds(b[i], repo)
    &&& forall|i: int|
        0 <= i < a.len() && knows(#[trigger] a[i], repo, k) ==> knows(b[i], repo, k)
    &&& forall|i: int| 0 <= i < b.len() && holds(#[trigger] b[i], repo) ==> held(a, repo)
    &&& forall|i: int| 0 <= i < b.len() && knows(#[trigger] b[i], repo, k) ==> known(a, repo, k)
}

proof fn lemma_grown_transitive(
    a: Seq<Node>,
    b: Seq<Node>,
    c: Seq<Node>,
    repo: Seq<char>,
    k: InsightKey,
)
    requires
        grown(a, b, repo, k),
        grown(b, c, repo, k),
    ensures
        grown(a, c, repo, k),
{
    assert forall|i: int| 0 <= i < a.len() && holds(#[trigger] a[i], repo) implies holds(
        c[i],
        repo,
    ) by {
        assert(holds(b[i], repo));
    }
    assert forall|i: int| 0 <= i < a.len() && knows(#[trigger] a[i], repo, k) implies knows(
        c[i],
        repo,
        k,
    ) by {
        assert(knows(b[i], repo, k));
    }
}

proof fn lemma_visit_grows(mesh: Seq<Node>, i: int, j: int, repo: Seq<char>, k: InsightKey)
    requires
        0 <= i < mesh.len(),
        0 <= j < mesh.len(),
    ensures
        grown(mesh, visit(mesh, i, j), repo, k),
        holds(mesh[j], repo) ==> holds(visit(mesh, i, j)[i], repo),
        knows(mesh[j], repo, k) ==> knows(visit(mesh, i, j)[i], repo, k),
{
    lemma_visit(mesh[i], mesh[j], repo, k);
    let after = visit(mesh, i, j);
    if i != j {
        assert forall|m: int| 0 <= m < after.len() && holds(#[trigger] after[m], repo) implies held(
            mesh,
            repo,
        ) by {
            if m == i || m == j {
                assert(holds(mesh[i], repo) || holds(mesh[j], repo));
            } else {
                assert(holds(mesh[m], repo));
            }
        }
        assert forall|m: int| 0 <= m < after.len() && knows(#[trigger] after[m], repo, k) implies
            known(mesh, repo, k) by {
            if m == i || m == j {
                assert(knows(mesh[i], repo, k) || knows(mesh[j], repo, k));
            } else {
                assert(knows(mesh[m], repo, k));
            }
        }
    }
}

proof fn lemma_visits_grow(
    mesh: Seq<Node>,
    series: Seq<(int, int)>,
    repo: Seq<char>,
    k: InsightKey,
)
    requires
        within(mesh, series),
    ensures
        grown(mesh, visits(mesh, series), repo, k),
        forall|i: int, j: int| #[trigger]
            series.contains((i, j)) && holds(mesh[j], repo) ==> holds(
                visits(mesh, series)[i],
                repo,
            ),
        forall|i: int, j: int| #[trigger]
            series.contains((i, j)) && knows(mesh[j], repo, k) ==> knows(
                visits(mesh, series)[i],
                repo,
                k,
            ),
    decreases series.len(),
{
    if series.len() > 0 {
        let less = series.drop_last();
        let last = series.last();
        assert(series[series.len() - 1] == last);
        assert forall|m: int| 0 <= m < less.len() implies 0 <= (#[trigger] less[m]).0 < mesh.len()
            && 0 <= less[m].1 < mesh.len() by {
            assert(less[m] == series[m]);
        }
        lemma_visits_grow(mesh, less, repo, k);
        let before = visits(mesh, less);
        let after = visits(mesh, series);
        lemma_visit_grows(before, last.0, last.1, repo, k);
        lemma_grown_transitive(mesh, before, after, repo, k);
        assert forall|i: int, j: int| #[trigger] series.contains((i, j)) implies (holds(
            mesh[j],
            repo,
        ) ==> holds(after[i], repo)) && (knows(mesh[j], repo, k) ==> knows(after[i], repo, k)) by {
            let m = choose|m: int| 0 <= m < series.len() && series[m] == (i, j);
            if m < less.len() {
                assert(less[m] == (i, j));
                assert(less.contains((i, j)));
                assert(holds(mesh[j], repo) ==> holds(before[i], repo));
                assert(knows(mesh[j], repo, k) ==> knows(before[i], repo, k));
            } else {
                assert(holds(mesh[j], repo) ==> holds(before[j], repo));
                assert(knows(mesh[j], repo, k) ==> knows(before[j], repo, k));
            }
        }
    }
}

/// Once every machine has visited every other, in whatever order and however the
/// runs are interleaved, every machine has every repo and every insight that any
/// had, and nothing else: the mesh has converged to the union.
pub proof fn lemma_mesh_converges(
    mesh: Seq<Node>,
    series: Seq<(int, int)>,
    i: int,
    repo: Seq<char>,
    k: InsightKey,
)
    requires
        within(mesh, series),
        all_visit_all(mesh, series),
        0 <= i < mesh.len(),
    ensures
        visits(mesh, series).len() == mesh.len(),
        holds(visits(mesh, series)[i], repo) <==> held(mesh, repo),
        knows(visits(mesh, series)[i], repo, k) <==> known(mesh, repo, k),
{
    lemma_visits_grow(mesh, series, repo, k);
    if held(mesh, repo) {
        let j = choose|j: int| 0 <= j < mesh.len() && holds(#[trigger] mesh[j], repo);
        if i != j {
            assert(series.contains((i, j)));
        }
    }
    if known(mesh, repo, k) {
        let j = choose|j: int| 0 <= j < mesh.len() && knows(#[trigger] mesh[j], repo, k);
        if i != j {
            assert(series.contains((i, j)));
        }
    }
}

// ---------------------------------------------------------------------------
// What a merge comes to
// ---------------------------------------------------------------------------

/// What a list of rows comes to: a key is there just when a row of the list has it,
/// and with the other columns of the first such row.
pub proof fn lemma_rows_of_list(list: Seq<(InsightKey, Seq<Seq<char>>)>, k: InsightKey)
    ensures
        rows_of(list).contains_key(k) <==> exists|i: int|
            0 <= i < list.len() && (#[trigger] list[i]).0 == k,
        forall|i: int|
            0 <= i < list.len() && (#[trigger] list[i]).0 == k && (forall|j: int|
                0 <= j < i ==> (#[trigger] list[j]).0 != k) ==> rows_of(list)[k] == list[i].1,
    decreases list.len(),
{
    if list.len() > 0 {
        let less = list.drop_last();
        lemma_rows_of_list(less, k);
        lemma_rows_of_list(less, list.last().0);
        assert(forall|i: int| 0 <= i < less.len() ==> #[trigger] less[i] == list[i]);
        if exists|i: int| 0 <= i < less.len() && (#[trigger] less[i]).0 == k {
            let i = choose|i: int| 0 <= i < less.len() && (#[trigger] less[i]).0 == k;
            assert(list[i].0 == k);
        }
        if exists|i: int| 0 <= i < list.len() && (#[trigger] list[i]).0 == k {
            let i = choose|i: int| 0 <= i < list.len() && (#[trigger] list[i]).0 == k;
            if i < less.len() {
                assert(less[i].0 == k);
            }
        }
        if list.last().0 == k {
            assert(list[list.len() - 1].0 == k);
        }
        assert forall|i: int|
            0 <= i < list.len() && (#[trigger] list[i]).0 == k && (forall|j: int|
                0 <= j < i ==> (#[trigger] list[j]).0 != k) implies rows_of(list)[k]
            == list[i].1 by {
            if i < less.len() {
                assert(less[i].0 == k);
                assert forall|j: int| 0 <= j < i implies (#[trigger] less[j]).0 != k by {
                    assert(list[j].0 != k);
                }
                assert(rows_of(less)[k] == less[i].1);
            } else {
                assert forall|j: int| 0 <= j < less.len() implies (#[trigger] less[j]).0 != k by {
                    assert(list[j].0 != k);
                }
                assert(!rows_of(less).contains_key(k));
            }
        }
    }
}

/// Whenever the columns of two sides differ, in whatever way, a merge is refused as a
/// mismatch that tells both, and nothing is changed.
pub proof fn lemma_differing_columns_refused(
    store: Store,
    local_db: LocalPath<Seq<char>>,
    peer_db: LocalPath<Seq<char>>,
)
    requires
        store.at_rest(),
        peer_db.text is Some,
        store.local_columns.len() > 0,
        store.peer_columns.len() > 0,
        store.local_columns != store.peer_columns,
    ensures
        ({
            let (now, merge) = course(
                store,
                Merge::start(local_db, peer_db),
                no_faults(MERGE_REQUESTS as nat),
            );
            &&& now == store
            &&& merge.stage matches MergeStage::Finished { result: Err(e) }
            &&& e matches MergeError::Schema { problem: SchemaProblem::Mismatch { local, peer } }
            &&& local == store.local_columns
            &&& peer == store.peer_columns
        }),
{
    lemma_schema_verdict(store.local_columns, store.peer_columns, Seq::empty());
    lemma_merge_refused(store, local_db, peer_db);
}

/// Two sides that agree in their columns but lack one that is copied are refused, and
/// nothing is changed; the columns that are missing are told.
pub proof fn lemma_missing_columns_refused(
    store: Store,
    local_db: LocalPath<Seq<char>>,
    peer_db: LocalPath<Seq<char>>,
    c: Seq<char>,
)
    requires
        store.at_rest(),
        peer_db.text is Some,
        store.local_columns.len() > 0,
        store.local_columns == store.peer_columns,
        c == "commit_sha"@ || c == "commit_date"@ || c == "category"@ || c == "title"@ || c
            == "body"@ || c == "files"@ || c == "tags"@ || c == "source_type"@ || c == "pr_number"@
            || c == "embedding"@ || c == "created_at"@,
        !store.local_columns.contains(c),
    ensures
        ({
            let (now, merge) = course(
                store,
                Merge::start(local_db, peer_db),
                no_faults(MERGE_REQUESTS as nat),
            );
            &&& now == store
            &&& merge.stage matches MergeStage::Finished { result: Err(e) }
            &&& e matches MergeError::Schema { problem: SchemaProblem::MissingColumns { missing } }
            &&& missing.contains(c)
        }),
{
    lemma_schema_verdict(store.local_columns, store.peer_columns, c);
    lemma_merge_refused(store, local_db, peer_db);
}

/// A local index in which no unique index over all rows is over `commit_sha`,
/// `title` and `source_type` alone is refused, and nothing is changed.
pub proof fn lemma_unindexed_refused(
    store: Store,
    local_db: LocalPath<Seq<char>>,
    peer_db: LocalPath<Seq<char>>,
)
    requires
        store.at_rest(),
        peer_db.text is Some,
        forall|i: int|
            0 <= i < store.local_indexes.len() ==> !((#[trigger] store.local_indexes[i]).unique
                && !store.local_indexes[i].partial && store.local_indexes[i].columns.len() == 3
                && store.local_indexes[i].columns.contains(Some("commit_sha"@))
                && store.local_indexes[i].columns.contains(Some("title"@))
                && store.local_indexes[i].columns.contains(Some("source_type"@))),
    ensures
        ({
            let (now, merge) = course(
                store,
                Merge::start(local_db, peer_db),
                no_faults(MERGE_REQUESTS as nat),
            );
            &&& now == store
            &&& merge.stage matches MergeStage::Finished { result: Err(_) }
        }),
{
    lemma_dedup_verdict(store.local_indexes);
    lemma_merge_refused(store, local_db, peer_db);
}

/// A merge of two sides with the same columns, all that are copied among them, into a
/// local index with its dedup index, in which no request fails, succeeds. A row is
/// then there just when either side had it, the local rows are as they were, a row of
/// the peer alone is as the peer has it first, and the counts are those of the rows.
pub proof fn lemma_fitting_sides_merge(
    store: Store,
    local_db: LocalPath<Seq<char>>,
    peer_db: LocalPath<Seq<char>>,
    index: int,
    k: InsightKey,
)
    requires
        store.at_rest(),
        peer_db.text is Some,
        store.local_columns == store.peer_columns,
        store.local_columns.contains("commit_sha"@),
        store.local_columns.contains("commit_date"@),
        store.local_columns.contains("category"@),
        store.local_columns.contains("title"@),
        store.local_columns.contains("body"@),
        store.local_columns.contains("files"@),
        store.local_columns.contains("tags"@),
        store.local_columns.contains("source_type"@),
        store.local_columns.contains("pr_number"@),
        store.local_columns.contains("embedding"@),
        store.local_columns.contains("created_at"@),
        0 <= index < store.local_indexes.len(),
        store.local_indexes[index].unique,
        !store.local_indexes[index].partial,
        store.local_indexes[index].columns.len() == 3,
        store.local_indexes[index].columns.contains(Some("commit_sha"@)),
        store.local_indexes[index].columns.contains(Some("title"@)),
        store.local_indexes[index].columns.contains(Some("source_type"@)),
    ensures
        ({
            let (now, merge) = course(
                store,
                Merge::start(local_db, peer_db),
                no_faults(MERGE_REQUESTS as nat),
            );
            &&& merge.stage matches MergeStage::Finished { result: Ok(stats) }
            &&& stats.local_before == store.local.len()
            &&& stats.peer_total == store.peer.len()
            &&& stats.local_after == now.local.len()
            &&& now.local.contains_key(k) <==> store.local.contains_key(k) || exists|i: int|
                0 <= i < store.peer.len() && (#[trigger] store.peer[i]).0 == k
            &&& store.local.contains_key(k) ==> now.local[k] == store.local[k]
            &&& forall|i: int|
                !store.local.contains_key(k) && 0 <= i < store.peer.len() && (
                #[trigger] store.peer[i]).0 == k && (forall|j: int|
                    0 <= j < i ==> (#[trigger] store.peer[j]).0 != k) ==> now.local[k]
                    == store.peer[i].1
            &&& store.searchable == store.local ==> now.searchable == now.local
            &&& now.peer == store.peer
        }),
{
    lemma_schema_verdict(store.local_columns, store.peer_columns, Seq::empty());
    lemma_dedup_verdict(store.local_indexes);
    assert(store.local_columns.len() > 0) by {
        let i = choose|i: int|
            0 <= i < store.local_columns.len() && store.local_columns[i] == "title"@;
        assert(0 <= i < store.local_columns.len());
    }
    lemma_merge_succeeds(store, local_db, peer_db);
    lemma_merge_unites(store, local_db, peer_db, no_faults(MERGE_REQUESTS as nat));
    lemma_rows_of_list(store.peer, k);
    lemma_absorbing_unites(store.local, rows_of(store.peer));
}

} // verus!
