//! What is remembered of earlier runs.

use vstd::prelude::*;

use crate::text;
use crate::text::{digit, trimmed, two_digits, year_form};

verus! {

// ---------------------------------------------------------------------------
// A table with text keys
// ---------------------------------------------------------------------------

/// A table from text to values. No key occurs twice.
#[derive(Debug)]
pub struct Table<V> {
    entries: Vec<(String, V)>,
}

/// The value that a list of entries holds for a key.
spec fn lookup<V>(entries: Seq<(String, V)>) -> Map<Seq<char>, V> {
    Map::new(
        |k: Seq<char>| exists|i: int| 0 <= i < entries.len() && #[trigger] entries[i].0@ == k,
        |k: Seq<char>|
            entries[choose|i: int| 0 <= i < entries.len() && #[trigger] entries[i].0@ == k].1,
    )
}

/// No key occurs twice.
spec fn keys_differ<V>(entries: Seq<(String, V)>) -> bool {
    forall|i: int, j: int|
        0 <= i < j < entries.len() ==> (#[trigger] entries[i]).0@ != (#[trigger] entries[j]).0@
}

impl<V> View for Table<V> {
    type V = Map<Seq<char>, V>;

    closed spec fn view(&self) -> Map<Seq<char>, V> {
        lookup(self.entries@)
    }
}

proof fn lemma_lookup<V>(entries: Seq<(String, V)>, i: int)
    requires
        keys_differ(entries),
        0 <= i < entries.len(),
    ensures
        lookup(entries).contains_key(entries[i].0@),
        lookup(entries)[entries[i].0@] == entries[i].1,
{
    let k = entries[i].0@;
    assert(entries[i].0@ == k);
    let j = choose|j: int| 0 <= j < entries.len() && #[trigger] entries[j].0@ == k;
    assert(entries[j].0@ == k);
}

impl<V> Table<V> {
    #[verifier::type_invariant]
    spec fn inv(self) -> bool {
        keys_differ(self.entries@)
    }

    /// An empty table.
    pub fn new() -> (r: Self)
        ensures
            r@ == Map::<Seq<char>, V>::empty(),
    {
        let r = Table { entries: Vec::new() };
        assert(r@ =~= Map::<Seq<char>, V>::empty());
        r
    }

    fn position(&self, key: &str) -> (r: Option<usize>)
        ensures
            match r {
                Some(i) => i < self.entries@.len() && self.entries@[i as int].0@ == key@,
                None => !self@.contains_key(key@),
            },
    {
        for i in 0..self.entries.len()
            invariant
                forall|j: int| 0 <= j < i ==> (#[trigger] self.entries@[j]).0@ != key@,
        {
            if text::same(self.entries[i].0.as_str(), key) {
                return Some(i);
            }
        }
        None
    }

    /// The value for a key.
    pub fn get(&self, key: &str) -> (r: Option<&V>)
        ensures
            match r {
                Some(v) => self@.contains_key(key@) && *v == self@[key@],
                None => !self@.contains_key(key@),
            },
    {
        proof {
            use_type_invariant(self);
        }
        match self.position(key) {
            Some(i) => {
                proof {
                    lemma_lookup(self.entries@, i as int);
                }
                Some(&self.entries[i].1)
            },
            None => None,
        }
    }

    /// Takes the value for a key out of the table.
    pub fn remove(&mut self, key: &str) -> (r: Option<V>)
        ensures
            final(self)@ == old(self)@.remove(key@),
            match r {
                Some(v) => old(self)@.contains_key(key@) && v == old(self)@[key@],
                None => !old(self)@.contains_key(key@),
            },
    {
        proof {
            use_type_invariant(&*self);
        }
        match self.position(key) {
            Some(i) => {
                let ghost was = self.entries@;
                let mut entries: Vec<(String, V)> = Vec::new();
                core::mem::swap(&mut entries, &mut self.entries);
                let entry = entries.remove(i);
                proof {
                    let now = was.remove(i as int);
                    lemma_lookup(was, i as int);
                    assert forall|a: int, b: int| 0 <= a < b < now.len() implies (
                    #[trigger] now[a]).0@ != (#[trigger] now[b]).0@ by {
                        let a0 = if a < i { a } else { a + 1 };
                        let b0 = if b < i { b } else { b + 1 };
                        assert(was[a0].0@ != was[b0].0@);
                    }
                    assert forall|k: Seq<char>| lookup(now).contains_key(k) <==> #[trigger] lookup(
                        was,
                    ).remove(key@).contains_key(k) by {
                        if lookup(now).contains_key(k) {
                            let a = choose|a: int| 0 <= a < now.len() && #[trigger] now[a].0@ == k;
                            let a0 = if a < i { a } else { a + 1 };
                            assert(now[a] == was[a0]);
                            assert(was[a0].0@ == k);
                            assert(was[i as int].0@ != was[a0].0@);
                        }
                        if lookup(was).remove(key@).contains_key(k) {
                            let a = choose|a: int| 0 <= a < was.len() && #[trigger] was[a].0@ == k;
                            assert(a != i);
                            let a1 = if a < i { a } else { a - 1 };
                            assert(now[a1] == was[a]);
                            assert(now[a1].0@ == k);
                        }
                    }
                    assert forall|k: Seq<char>| #[trigger]
                        lookup(now).contains_key(k) implies lookup(now)[k] == lookup(was)[k] by {
                        let a = choose|a: int| 0 <= a < now.len() && #[trigger] now[a].0@ == k;
                        let a0 = if a < i { a } else { a + 1 };
                        assert(now[a] == was[a0]);
                        lemma_lookup(now, a);
                        lemma_lookup(was, a0);
                    }
                    assert(lookup(now) =~= lookup(was).remove(key@));
                }
                self.entries = entries;
                Some(entry.1)
            },
            None => {
                assert(self@.remove(key@) =~= self@);
                None
            },
        }
    }

    /// Sets the value for a key.
    pub fn insert(&mut self, key: &str, value: V)
        ensures
            final(self)@ == old(self)@.insert(key@, value),
    {
        let ghost first = self@;
        let _old = self.remove(key);
        proof {
            use_type_invariant(&*self);
        }
        let ghost was = self.entries@;
        assert(lookup(was) == first.remove(key@));
        let mut entries: Vec<(String, V)> = Vec::new();
        core::mem::swap(&mut entries, &mut self.entries);
        entries.push((key.to_owned(), value));
        proof {
            let now = entries@;
            let last = now.len() - 1;
            assert(now.take(last) =~= was);
            assert forall|a: int, b: int| 0 <= a < b < now.len() implies (#[trigger] now[a]).0@ != (
            #[trigger] now[b]).0@ by {
                assert(now[a] == was[a]);
                if b < last {
                    assert(now[b] == was[b]);
                } else {
                    assert(lookup(was).contains_key(was[a].0@)) by {
                        lemma_lookup(was, a);
                    }
                }
            }
            lemma_lookup(now, last);
            assert forall|k: Seq<char>| lookup(now).contains_key(k) <==> #[trigger] first.insert(
                key@,
                value,
            ).contains_key(k) by {
                if lookup(now).contains_key(k) {
                    let a = choose|a: int| 0 <= a < now.len() && #[trigger] now[a].0@ == k;
                    if a < last {
                        assert(now[a] == was[a]);
                        lemma_lookup(was, a);
                    }
                }
                if lookup(was).contains_key(k) {
                    let a = choose|a: int| 0 <= a < was.len() && #[trigger] was[a].0@ == k;
                    assert(now[a] == was[a]);
                    assert(now[a].0@ == k);
                }
                if first.contains_key(k) && k != key@ {
                    assert(lookup(was).contains_key(k));
                }
            }
            assert forall|k: Seq<char>| #[trigger] lookup(now).contains_key(k) implies lookup(
                now,
            )[k] == first.insert(key@, value)[k] by {
                let a = choose|a: int| 0 <= a < now.len() && #[trigger] now[a].0@ == k;
                lemma_lookup(now, a);
                if a < last {
                    assert(now[a] == was[a]);
                    lemma_lookup(was, a);
                }
            }
            assert(lookup(now) =~= first.insert(key@, value));
        }
        self.entries = entries;
    }

    /// The number of entries. Each key of the table is at one index below it.
    pub fn len(&self) -> (r: usize)
        ensures
            r == self.count(),
            forall|k: Seq<char>| #[trigger]
                self@.contains_key(k) ==> exists|i: int| 0 <= i < r && self.key_at(i) == k,
            forall|i: int, j: int| 0 <= i < j < r ==> self.key_at(i) != self.key_at(j),
    {
        proof {
            use_type_invariant(self);
            assert forall|k: Seq<char>| #[trigger] self@.contains_key(k) implies exists|i: int|
                0 <= i < self.count() && self.key_at(i) == k by {
                let i = choose|i: int|
                    0 <= i < self.entries@.len() && #[trigger] self.entries@[i].0@ == k;
                assert(self.key_at(i) == k);
            }
        }
        self.entries.len()
    }

    /// The number of entries.
    pub closed spec fn count(&self) -> nat {
        self.entries@.len()
    }

    /// The key of the `i`th entry.
    pub closed spec fn key_at(&self, i: int) -> Seq<char> {
        self.entries@[i].0@
    }

    /// The `i`th entry.
    pub fn entry(&self, i: usize) -> (r: (&str, &V))
        requires
            i < self.count(),
        ensures
            r.0@ == self.key_at(i as int),
            self@.contains_key(r.0@),
            *r.1 == self@[r.0@],
    {
        proof {
            use_type_invariant(self);
            lemma_lookup(self.entries@, i as int);
        }
        (self.entries[i].0.as_str(), &self.entries[i].1)
    }
}

// ---------------------------------------------------------------------------
// Bookkeeping
// ---------------------------------------------------------------------------

/// What is remembered of one repo of one peer.
#[derive(Debug)]
pub struct RepoState<S = String> {
    /// When the repo was last merged from the peer, in RFC 3339 form.
    pub last_merged_at: Option<S>,
    /// How many rows the local index had behind that merge.
    pub last_local_after: Option<i64>,
}

impl View for RepoState {
    type V = RepoState<Seq<char>>;

    open spec fn view(&self) -> RepoState<Seq<char>> {
        RepoState {
            last_merged_at: match self.last_merged_at {
                Some(t) => Some(t@),
                None => None,
            },
            last_local_after: self.last_local_after,
        }
    }
}

impl Default for RepoState {
    fn default() -> (r: RepoState)
        ensures
            r.last_merged_at is None,
            r.last_local_after is None,
    {
        RepoState { last_merged_at: None, last_local_after: None }
    }
}

/// What is remembered of one peer, by repo.
#[derive(Debug)]
pub struct PeerState {
    pub repos: Table<RepoState>,
}

impl View for PeerState {
    type V = Map<Seq<char>, RepoState<Seq<char>>>;

    open spec fn view(&self) -> Map<Seq<char>, RepoState<Seq<char>>> {
        self.repos@.map_values(|r: RepoState| r@)
    }
}

impl Default for PeerState {
    fn default() -> (r: PeerState)
        ensures
            r@ == Map::<Seq<char>, RepoState<Seq<char>>>::empty(),
    {
        let r = PeerState { repos: Table::new() };
        assert(r@ =~= Map::<Seq<char>, RepoState<Seq<char>>>::empty());
        r
    }
}

/// Bookkeeping by peer and repo. It serves to tell, in logs, when a repo was last
/// touched; every run merges every repo all the same.
#[derive(Debug)]
pub struct State {
    pub peers: Table<PeerState>,
}

impl View for State {
    type V = Map<Seq<char>, Map<Seq<char>, RepoState<Seq<char>>>>;

    open spec fn view(&self) -> Map<Seq<char>, Map<Seq<char>, RepoState<Seq<char>>>> {
        self.peers@.map_values(|p: PeerState| p@)
    }
}

impl Default for State {
    fn default() -> (r: State)
        ensures
            r@ == Map::<Seq<char>, Map<Seq<char>, RepoState<Seq<char>>>>::empty(),
    {
        let r = State { peers: Table::new() };
        assert(r@ =~= Map::<Seq<char>, Map<Seq<char>, RepoState<Seq<char>>>>::empty());
        r
    }
}

/// What is remembered, by peer and repo.
pub type Bookkeeping = Map<Seq<char>, Map<Seq<char>, RepoState<Seq<char>>>>;

/// What is remembered of the repos of a peer: nothing of a peer not seen yet.
pub open spec fn repos_of(
    state: Bookkeeping,
    peer: Seq<char>,
) -> Map<Seq<char>, RepoState<Seq<char>>> {
    if state.contains_key(peer) {
        state[peer]
    } else {
        Map::empty()
    }
}

/// The bookkeeping with a merge at `now` that left `local_after` rows.
pub open spec fn recorded(
    state: Bookkeeping,
    peer: Seq<char>,
    repo: Seq<char>,
    local_after: i64,
    now: Seq<char>,
) -> Bookkeeping {
    state.insert(
        peer,
        repos_of(state, peer).insert(
            repo,
            RepoState { last_merged_at: Some(now), last_local_after: Some(local_after) },
        ),
    )
}

/// The part of a second that a time shows: nothing, or a point and three, six or
/// nine digits.
pub open spec fn fraction_form(s: Seq<char>) -> bool {
    s.len() == 0 || {
        &&& s.len() == 4 || s.len() == 7 || s.len() == 10
        &&& s[0] == '.'
        &&& forall|i: int| 1 <= i < s.len() ==> digit(#[trigger] s[i])
    }
}

/// A time of UTC in RFC 3339 form, of which the first `year` characters are the
/// year: date, `T`, time, the part of a second, and the offset `+00:00`.
pub open spec fn utc_form_with(s: Seq<char>, year: int) -> bool {
    &&& 4 <= year
    &&& year + 21 <= s.len()
    &&& year_form(s.take(year))
    &&& s[year] == '-'
    &&& two_digits(s, year + 1, 1, 12)
    &&& s[year + 3] == '-'
    &&& two_digits(s, year + 4, 1, 31)
    &&& s[year + 6] == 'T'
    &&& two_digits(s, year + 7, 0, 23)
    &&& s[year + 9] == ':'
    &&& two_digits(s, year + 10, 0, 59)
    &&& s[year + 12] == ':'
    &&& two_digits(s, year + 13, 0, 60)
    &&& fraction_form(s.subrange(year + 15, s.len() - 6))
    &&& s.skip(s.len() - 6) == "+00:00"@
}

/// A time of UTC in RFC 3339 form.
pub open spec fn utc_form(s: Seq<char>) -> bool {
    exists|year: int| utc_form_with(s, year)
}

/// Trusted: `chrono::Utc::now`, written by its `to_rfc3339`, is a time of UTC in RFC
/// 3339 form. What time it is is not stated.
#[verifier::external_body]
fn utc_now() -> (r: String)
    ensures
        utc_form(r@),
{
    chrono::Utc::now().to_rfc3339()
}

impl State {
    /// The state that the text of a state file stands for without parsing: the
    /// empty one for a missing file and for one of white space alone. Any other
    /// text has to be parsed.
    pub fn load(raw: Option<&str>) -> (r: Option<State>)
        ensures
            r is None <==> (raw matches Some(t) && trimmed(t@).len() > 0),
            r matches Some(s) ==> s@ == Map::<
                Seq<char>,
                Map<Seq<char>, RepoState<Seq<char>>>,
            >::empty(),
    {
        match raw {
            Some(t) if !text::trim(t).as_str().is_empty() => None,
            _ => Some(State::default()),
        }
    }

    /// Records a merge that ended at `now`.
    pub fn record_at(&mut self, peer: &str, repo: &str, local_after: i64, now: String)
        ensures
            final(self)@ == recorded(old(self)@, peer@, repo@, local_after, now@),
    {
        let ghost was = self.peers@;
        let mut p = match self.peers.remove(peer) {
            Some(p) => p,
            None => PeerState::default(),
        };
        assert(p@ =~= repos_of(old(self)@, peer@));
        let ghost before = p.repos@;
        let entry = RepoState { last_merged_at: Some(now), last_local_after: Some(local_after) };
        p.repos.insert(repo, entry);
        assert(p@ =~= repos_of(old(self)@, peer@).insert(repo@, entry@));
        self.peers.insert(peer, p);
        assert(self.peers@ =~= was.insert(peer@, p));
        assert(self@ =~= recorded(old(self)@, peer@, repo@, local_after, entry.last_merged_at->0@));
    }

    /// Records a merge that ended just now.
    pub fn record(&mut self, peer: &str, repo: &str, local_after: i64)
        ensures
            exists|now: Seq<char>|
                utc_form(now) && final(self)@ == #[trigger] recorded(
                    old(self)@,
                    peer@,
                    repo@,
                    local_after,
                    now,
                ),
    {
        self.record_at(peer, repo, local_after, utc_now());
    }
}

/// A record is found again under its peer and repo, and every other entry stays
/// as it was.
pub proof fn lemma_record_read_back(
    state: Bookkeeping,
    peer: Seq<char>,
    repo: Seq<char>,
    local_after: i64,
    now: Seq<char>,
    other_peer: Seq<char>,
    other_repo: Seq<char>,
)
    ensures
        ({
            let after = recorded(state, peer, repo, local_after, now);
            &&& repos_of(after, peer).contains_key(repo)
            &&& repos_of(after, peer)[repo] == (
                RepoState { last_merged_at: Some(now), last_local_after: Some(local_after) })
            &&& (other_peer != peer || other_repo != repo) ==> {
                &&& repos_of(after, other_peer).contains_key(other_repo) == repos_of(
                    state,
                    other_peer,
                ).contains_key(other_repo)
                &&& repos_of(after, other_peer)[other_repo] == repos_of(
                    state,
                    other_peer,
                )[other_repo] || !repos_of(state, other_peer).contains_key(other_repo)
            }
        }),
{
}

/// Of two records of one repo the later one stays.
pub proof fn lemma_record_last_wins(
    state: Bookkeeping,
    peer: Seq<char>,
    repo: Seq<char>,
    first: i64,
    first_at: Seq<char>,
    second: i64,
    second_at: Seq<char>,
)
    ensures
        recorded(
            recorded(state, peer, repo, first, first_at),
            peer,
            repo,
            second,
            second_at,
        ) == recorded(state, peer, repo, second, second_at),
{
    let once = recorded(state, peer, repo, first, first_at);
    let twice = recorded(once, peer, repo, second, second_at);
    assert(repos_of(twice, peer) =~= repos_of(
        recorded(state, peer, repo, second, second_at),
        peer,
    ));
    assert(twice =~= recorded(state, peer, repo, second, second_at));
}

// ---------------------------------------------------------------------------
// Saving
// ---------------------------------------------------------------------------

/// The extension of the file beside the state file that is written first.
pub const ASIDE_EXTENSION: &'static str = "json.tmp";

/// What is asked for while the bookkeeping is saved.
#[derive(Debug, Clone, Copy, PartialEq, Eq, Structural)]
pub enum SaveRequest {
    /// Make the directory of the state file.
    MakeDir,
    /// Write the text of the bookkeeping to a file beside the state file.
    WriteAside,
    /// Give that file the name of the state file.
    Rename,
}

/// What came of a request.
#[derive(Debug)]
pub enum SaveReply<S = String> {
    Done,
    Failed { cause: S },
}

impl View for SaveReply {
    type V = SaveReply<Seq<char>>;

    open spec fn view(&self) -> SaveReply<Seq<char>> {
        match *self {
            SaveReply::Done => SaveReply::Done,
            SaveReply::Failed { cause } => SaveReply::Failed { cause: cause@ },
        }
    }
}

/// How far the saving of the bookkeeping has come.
#[derive(Debug)]
pub enum Save<S = String> {
    MakingDir,
    WritingAside,
    Renaming,
    Finished { result: Result<(), S> },
}

impl View for Save {
    type V = Save<Seq<char>>;

    open spec fn view(&self) -> Save<Seq<char>> {
        match *self {
            Save::MakingDir => Save::MakingDir,
            Save::WritingAside => Save::WritingAside,
            Save::Renaming => Save::Renaming,
            Save::Finished { result } => Save::Finished {
                result: match result {
                    Ok(_) => Ok(()),
                    Err(cause) => Err(cause@),
                },
            },
        }
    }
}

impl Save<Seq<char>> {
    /// What is to be done now.
    pub open spec fn pending(self) -> Option<SaveRequest> {
        match self {
            Save::MakingDir => Some(SaveRequest::MakeDir),
            Save::WritingAside => Some(SaveRequest::WriteAside),
            Save::Renaming => Some(SaveRequest::Rename),
            Save::Finished { result } => None,
        }
    }

    /// The saving behind a reply.
    pub open spec fn next(self, reply: SaveReply<Seq<char>>) -> Self {
        match (self, reply) {
            (Save::Finished { result }, _) => self,
            (_, SaveReply::Failed { cause }) => Save::Finished { result: Err(cause) },
            (Save::MakingDir, _) => Save::WritingAside,
            (Save::WritingAside, _) => Save::Renaming,
            (Save::Renaming, _) => Save::Finished { result: Ok(()) },
        }
    }
}

impl Save {
    /// What is to be done now; nothing once the saving is finished.
    pub fn request(&self) -> (r: Option<SaveRequest>)
        ensures
            r == self@.pending(),
    {
        match self {
            Save::MakingDir => Some(SaveRequest::MakeDir),
            Save::WritingAside => Some(SaveRequest::WriteAside),
            Save::Renaming => Some(SaveRequest::Rename),
            Save::Finished { result } => None,
        }
    }

    /// Takes the reply to the request, and goes on.
    pub fn advance(self, reply: SaveReply) -> (r: Save)
        ensures
            r@ == self@.next(reply@),
    {
        match (self, reply) {
            (Save::Finished { result }, _) => Save::Finished { result },
            (_, SaveReply::Failed { cause }) => Save::Finished { result: Err(cause) },
            (Save::MakingDir, _) => Save::WritingAside,
            (Save::WritingAside, _) => Save::Renaming,
            (Save::Renaming, _) => Save::Finished { result: Ok(()) },
        }
    }

    /// How the saving ended; nothing before it is finished.
    pub fn into_result(self) -> (r: Option<Result<(), String>>)
        ensures
            match self@ {
                Save::Finished { result } => match result {
                    Ok(_) => r matches Some(Ok(_)),
                    Err(cause) => r matches Some(Err(c)) && c@ == cause,
                },
                _ => r is None,
            },
    {
        match self {
            Save::Finished { result } => Some(result),
            _ => None,
        }
    }
}

impl State {
    /// Begins to save the bookkeeping. It is written to a file beside the state
    /// file, which then takes the place of the state file.
    pub fn save() -> (r: Save)
        ensures
            r@ is MakingDir,
    {
        Save::MakingDir
    }
}

/// The state file and the file beside it, where they exist.
pub struct SavedFiles {
    pub state: Option<Seq<char>>,
    pub aside: Option<Seq<char>>,
}

impl SavedFiles {
    /// The files behind a request to save `body`. One that fails may leave
    /// anything beside the state file.
    pub open spec fn after(
        self,
        q: SaveRequest,
        body: Seq<char>,
        fault: Option<Option<Seq<char>>>,
    ) -> SavedFiles {
        match (q, fault) {
            (SaveRequest::MakeDir, _) => self,
            (SaveRequest::WriteAside, None) => SavedFiles { aside: Some(body), ..self },
            (SaveRequest::WriteAside, Some(left)) => SavedFiles { aside: left, ..self },
            (SaveRequest::Rename, None) => SavedFiles { state: self.aside, aside: None },
            (SaveRequest::Rename, Some(_)) => self,
        }
    }
}

/// A saving of `body`, request by request. `faults` tells which requests fail, and
/// what they leave behind.
pub open spec fn saving(
    files: SavedFiles,
    body: Seq<char>,
    faults: Seq<Option<Option<Seq<char>>>>,
) -> (SavedFiles, Save<Seq<char>>)
    decreases faults.len(),
{
    if faults.len() == 0 {
        (files, Save::MakingDir)
    } else {
        let (now, save) = saving(files, body, faults.drop_last());
        match save.pending() {
            None => (now, save),
            Some(q) => (
                now.after(q, body, faults.last()),
                save.next(
                    match faults.last() {
                        None => SaveReply::Done,
                        Some(_) => SaveReply::Failed { cause: Seq::empty() },
                    },
                ),
            ),
        }
    }
}

/// Wherever a saving stops and whatever fails in it, the state file is the old one
/// or the new one, whole. Once the saving has succeeded it is the new one, with no
/// file left beside it; until then, and where the saving failed, it is the old one.
pub proof fn lemma_save_is_all_or_nothing(
    files: SavedFiles,
    body: Seq<char>,
    faults: Seq<Option<Option<Seq<char>>>>,
)
    ensures
        ({
            let (now, save) = saving(files, body, faults);
            &&& now.state == files.state || now.state == Some(body)
            &&& match save {
                Save::Finished { result: Ok(_) } => now.state == Some(body) && now.aside is None,
                _ => now.state == files.state,
            }
        }),
{
    lemma_saving_stages(files, body, faults);
}

proof fn lemma_saving_stages(
    files: SavedFiles,
    body: Seq<char>,
    faults: Seq<Option<Option<Seq<char>>>>,
)
    ensures
        ({
            let (now, save) = saving(files, body, faults);
            match save {
                Save::Renaming => now.state == files.state && now.aside == Some(body),
                Save::Finished { result: Ok(_) } => now.state == Some(body) && now.aside is None,
                _ => now.state == files.state,
            }
        }),
    decreases faults.len(),
{
    if faults.len() > 0 {
        lemma_saving_stages(files, body, faults.drop_last());
    }
}

/// A saving in which nothing fails succeeds within three requests.
pub proof fn lemma_save_succeeds(files: SavedFiles, body: Seq<char>)
    ensures
        saving(files, body, seq![None, None, None]).1 matches Save::Finished { result: Ok(_) },
{
    let none: Option<Option<Seq<char>>> = None;
    let three = seq![none, none, none];
    assert(three.drop_last() =~= seq![none, none]);
    assert(seq![none, none].drop_last() =~= seq![none]);
    assert(seq![none].drop_last() =~= Seq::empty());
    reveal_with_fuel(saving, 4);
}

/// A state file stands for empty bookkeeping, without parsing, just when it holds
/// nothing but white space.
pub proof fn lemma_blank_state(raw: Seq<char>)
    ensures
        trimmed(raw).len() == 0 <==> forall|i: int|
            0 <= i < raw.len() ==> text::white_space(#[trigger] raw[i]),
{
    text::lemma_trim_cuts_ends(raw);
}

/// What fails in a saving ends it, and is told as it is.
pub proof fn lemma_failed_request_ends_save(save: Save<Seq<char>>, cause: Seq<char>)
    requires
        save.pending() is Some,
    ensures
        save.next(SaveReply::Failed { cause }) == (Save::<Seq<char>>::Finished {
            result: Err(cause),
        }),
        save.next(SaveReply::Failed { cause }).pending() is None,
{
}

/// What a record changes: the repo's entry under the peer, and nothing else, neither
/// of that peer nor of any other.
pub proof fn lemma_record_changes_one(
    state: Bookkeeping,
    peer: Seq<char>,
    repo: Seq<char>,
    local_after: i64,
    now: Seq<char>,
)
    ensures
        ({
            let after = recorded(state, peer, repo, local_after, now);
            &&& after.contains_key(peer)
            &&& after[peer].contains_key(repo)
            &&& after[peer][repo].last_merged_at == Some(now)
            &&& after[peer][repo].last_local_after == Some(local_after)
            &&& after.remove(peer) == state.remove(peer)
            &&& state.contains_key(peer) ==> after[peer].remove(repo) == state[peer].remove(repo)
            &&& !state.contains_key(peer) ==> after[peer].dom() == set![repo]
        }),
{
    let after = recorded(state, peer, repo, local_after, now);
    assert(after.remove(peer) =~= state.remove(peer));
    if state.contains_key(peer) {
        assert(after[peer].remove(repo) =~= state[peer].remove(repo));
    } else {
        assert(after[peer].dom() =~= set![repo]);
    }
}

/// What is remembered of a repo, of a peer and of all is seen as it is, part for part.
pub proof fn lemma_seen_as_they_are(r: RepoState, p: PeerState, s: State, k: Seq<char>)
    ensures
        r@.last_local_after == r.last_local_after,
        r.last_merged_at is None ==> r@.last_merged_at is None,
        r.last_merged_at matches Some(t) ==> r@.last_merged_at == Some(t@),
        p@.contains_key(k) <==> p.repos@.contains_key(k),
        p@.contains_key(k) ==> p@[k] == p.repos@[k]@,
        s@.contains_key(k) <==> s.peers@.contains_key(k),
        s@.contains_key(k) ==> s@[k] == s.peers@[k]@,
{
}

} // verus!
