//! Merging a snapshot of a peer's index into the local one.
//!
//! A merge is a series of requests to the local database. Each request is decided
//! here from the replies to those before it; the caller performs it and hands the
//! reply back.

use vstd::prelude::*;

use crate::command::LocalPath;
use crate::text;
use crate::text::{quoted_list, replaced, separated, sorted, texts};

verus! {

// ---------------------------------------------------------------------------
// Statistics
// ---------------------------------------------------------------------------

/// Row counts around a merge.
#[derive(Debug, Clone, Copy, PartialEq, Eq, Structural)]
pub struct MergeStats {
    pub local_before: i64,
    pub peer_total: i64,
    pub local_after: i64,
}

impl MergeStats {
    /// How many rows the merge added.
    pub fn added(&self) -> (r: i64)
        requires
            i64::MIN <= self.local_after - self.local_before <= i64::MAX,
        ensures
            r == self.local_after - self.local_before,
    {
        self.local_after - self.local_before
    }
}

// ---------------------------------------------------------------------------
// SQL text
// ---------------------------------------------------------------------------

/// The columns of `insights` that are copied from peer to local. `id` is given
/// out by the receiving side.
pub open spec fn insight_columns() -> Seq<Seq<char>> {
    seq![
        "commit_sha"@,
        "commit_date"@,
        "category"@,
        "title"@,
        "body"@,
        "files"@,
        "tags"@,
        "source_type"@,
        "pr_number"@,
        "embedding"@,
        "created_at"@,
    ]
}

/// The columns that tell one insight from another.
pub open spec fn dedup_columns() -> Seq<Seq<char>> {
    seq!["commit_sha"@, "title"@, "source_type"@]
}

/// The columns of `insights` that are copied from peer to local.
pub fn insight_cols() -> (r: Vec<String>)
    ensures
        texts(r@) == insight_columns(),
{
    let mut v: Vec<String> = Vec::new();
    v.push("commit_sha".to_owned());
    v.push("commit_date".to_owned());
    v.push("category".to_owned());
    v.push("title".to_owned());
    v.push("body".to_owned());
    v.push("files".to_owned());
    v.push("tags".to_owned());
    v.push("source_type".to_owned());
    v.push("pr_number".to_owned());
    v.push("embedding".to_owned());
    v.push("created_at".to_owned());
    assert(texts(v@) =~= insight_columns());
    v
}

/// The columns that tell one insight from another.
pub fn dedup_cols() -> (r: Vec<String>)
    ensures
        texts(r@) == dedup_columns(),
{
    let mut v: Vec<String> = Vec::new();
    v.push("commit_sha".to_owned());
    v.push("title".to_owned());
    v.push("source_type".to_owned());
    assert(texts(v@) =~= dedup_columns());
    v
}

/// Text between the quotes of an SQL string: every quote is doubled.
pub open spec fn sql_escaped(s: Seq<char>) -> Seq<char> {
    replaced(s, '\'', "''"@)
}

/// Escapes text for an SQL string.
pub fn escape_sql(s: &str) -> (r: String)
    ensures
        r@ == sql_escaped(s@),
{
    text::replace(s, '\'', "''")
}

/// The text that SQL reads between an opening quote, which is left out, and the
/// closing quote at the very end; `None` where the string ends elsewhere.
pub open spec fn sql_string(s: Seq<char>) -> Option<Seq<char>>
    decreases s.len(),
{
    if s.len() == 0 {
        None
    } else if s[0] != '\'' {
        match sql_string(s.drop_first()) {
            Some(rest) => Some(seq![s[0]] + rest),
            None => None,
        }
    } else if s.len() == 1 {
        Some(Seq::empty())
    } else if s[1] == '\'' {
        match sql_string(s.skip(2)) {
            Some(rest) => Some(seq!['\''] + rest),
            None => None,
        }
    } else {
        None
    }
}

/// Escaping is undone by SQL: whatever the text, SQL reads the escaped form
/// between quotes back as that text.
pub proof fn lemma_escape_read_back(s: Seq<char>)
    ensures
        sql_string(sql_escaped(s) + "'"@) == Some(s),
    decreases s.len(),
{
    reveal_strlit("'");
    reveal_strlit("''");
    let w = sql_escaped(s) + "'"@;
    if s.len() == 0 {
        assert(w =~= seq!['\'']);
        assert(s =~= Seq::<char>::empty());
    } else {
        let rest = sql_escaped(s.drop_first());
        lemma_escape_read_back(s.drop_first());
        assert(s =~= seq![s[0]] + s.drop_first());
        if s[0] == '\'' {
            assert(w.skip(2) =~= rest + "'"@);
            assert(w[0] == '\'' && w[1] == '\'');
        } else {
            assert(w.drop_first() =~= rest + "'"@);
            assert(w[0] == s[0]);
        }
    }
}

/// The statement that copies the rows of the peer that the local index lacks.
pub open spec fn insert_statement() -> Seq<char> {
    "INSERT OR IGNORE INTO insights ("@ + separated(insight_columns(), ", "@) + ") SELECT "@
        + separated(insight_columns(), ", "@) + " FROM peer.insights"@
}

/// The statement that copies the rows of the peer that the local index lacks.
pub fn insert_sql() -> (r: String)
    ensures
        r@ == insert_statement(),
{
    let cols = text::separate(&insight_cols(), ", ");
    let mut s = text::joined("INSERT OR IGNORE INTO insights (", cols.as_str());
    s.append(") SELECT ");
    s.append(cols.as_str());
    s.append(" FROM peer.insights");
    s
}

/// The statement that attaches the database at a path under the name `peer`.
pub open spec fn attach_statement(path: Seq<char>) -> Seq<char> {
    "ATTACH DATABASE '"@ + sql_escaped(path) + "' AS peer;"@
}

/// The statement that attaches the database at a path under the name `peer`.
pub fn attach_sql(path: &str) -> (r: String)
    ensures
        r@ == attach_statement(path@),
{
    let mut s = text::joined("ATTACH DATABASE '", escape_sql(path).as_str());
    s.append("' AS peer;");
    s
}

/// The statement that lists the columns of an index. Its third column is the
/// name of the indexed column.
pub open spec fn index_columns_statement(index: Seq<char>) -> Seq<char> {
    "PRAGMA main.index_info('"@ + sql_escaped(index) + "')"@
}

/// The statement that lists the columns of an index.
pub fn index_columns_sql(index: &str) -> (r: String)
    ensures
        r@ == index_columns_statement(index@),
{
    let mut s = text::joined("PRAGMA main.index_info('", escape_sql(index).as_str());
    s.append("')");
    s
}

// ---------------------------------------------------------------------------
// Schema
// ---------------------------------------------------------------------------

/// Why two databases cannot be merged.
#[derive(Debug)]
pub enum SchemaProblem<S = String, L = Vec<String>> {
    /// The schema could not be read.
    Unreadable { cause: S },
    SchemaName { schema: S },
    TableName { table: S },
    NoTable { schema: S, table: S },
    /// The two sides have different columns.
    Mismatch { local: L, peer: L },
    /// Columns that are copied do not exist.
    MissingColumns { missing: L },
    /// Nothing keeps the local side from taking a row twice.
    NoDedupIndex,
}

impl View for SchemaProblem {
    type V = SchemaProblem<Seq<char>, Seq<Seq<char>>>;

    open spec fn view(&self) -> SchemaProblem<Seq<char>, Seq<Seq<char>>> {
        match *self {
            SchemaProblem::Unreadable { cause } => SchemaProblem::Unreadable { cause: cause@ },
            SchemaProblem::SchemaName { schema } => SchemaProblem::SchemaName { schema: schema@ },
            SchemaProblem::TableName { table } => SchemaProblem::TableName { table: table@ },
            SchemaProblem::NoTable { schema, table } => SchemaProblem::NoTable {
                schema: schema@,
                table: table@,
            },
            SchemaProblem::Mismatch { local, peer } => SchemaProblem::Mismatch {
                local: texts(local@),
                peer: texts(peer@),
            },
            SchemaProblem::MissingColumns { missing } => SchemaProblem::MissingColumns {
                missing: texts(missing@),
            },
            SchemaProblem::NoDedupIndex => SchemaProblem::NoDedupIndex,
        }
    }
}

impl SchemaProblem<Seq<char>, Seq<Seq<char>>> {
    /// The problem in words.
    pub open spec fn text(self) -> Seq<char> {
        match self {
            SchemaProblem::Unreadable { cause } => cause,
            SchemaProblem::SchemaName { schema } => "invalid schema identifier: "@ + schema,
            SchemaProblem::TableName { table } => "invalid table identifier: "@ + table,
            SchemaProblem::NoTable { schema, table } => "table `"@ + schema + "."@ + table
                + "` not found or empty schema"@,
            SchemaProblem::Mismatch { local, peer } => "schema mismatch on `insights`: local="@
                + quoted_list(local) + ", peer="@ + quoted_list(peer),
            SchemaProblem::MissingColumns { missing } =>
                "diwa schema is missing expected columns we copy: "@ + quoted_list(missing)
                    + ". diwa-sync needs an update."@,
            SchemaProblem::NoDedupIndex => NO_DEDUP_INDEX@,
        }
    }
}

/// What is said where the local index lacks its dedup index, and what to run.
pub const NO_DEDUP_INDEX: &'static str =
    "local `insights` has no UNIQUE index over (commit_sha, title, source_type), so peer rows \
     would be appended on every merge; run: CREATE UNIQUE INDEX idx_insights_unique ON insights \
     (commit_sha, title, source_type);";

impl SchemaProblem {
    /// The problem in words.
    pub fn message(&self) -> (r: String)
        ensures
            r@ == self@.text(),
    {
        match self {
            SchemaProblem::Unreadable { cause } => cause.clone(),
            SchemaProblem::SchemaName { schema } => text::joined(
                "invalid schema identifier: ",
                schema.as_str(),
            ),
            SchemaProblem::TableName { table } => text::joined(
                "invalid table identifier: ",
                table.as_str(),
            ),
            SchemaProblem::NoTable { schema, table } => {
                let mut s = text::joined("table `", schema.as_str());
                s.append(".");
                s.append(table.as_str());
                s.append("` not found or empty schema");
                s
            },
            SchemaProblem::Mismatch { local, peer } => {
                let mut s = text::joined(
                    "schema mismatch on `insights`: local=",
                    text::quote_list(local).as_str(),
                );
                s.append(", peer=");
                s.append(text::quote_list(peer).as_str());
                s
            },
            SchemaProblem::MissingColumns { missing } => {
                let mut s = text::joined(
                    "diwa schema is missing expected columns we copy: ",
                    text::quote_list(missing).as_str(),
                );
                s.append(". diwa-sync needs an update.");
                s
            },
            SchemaProblem::NoDedupIndex => NO_DEDUP_INDEX.to_owned(),
        }
    }
}

/// Letters, digits and underscores alone.
pub open spec fn identifier(s: Seq<char>) -> bool {
    forall|i: int| 0 <= i < s.len() ==> identifier_character(#[trigger] s[i])
}

/// A letter, a digit or an underscore.
pub open spec fn identifier_character(c: char) -> bool {
    ||| 'a' <= c <= 'z'
    ||| 'A' <= c <= 'Z'
    ||| '0' <= c <= '9'
    ||| c == '_'
}

fn is_identifier(s: &str) -> (r: bool)
    ensures
        r == identifier(s@),
{
    let chars = text::chars_of(s);
    for i in 0..chars.len()
        invariant
            chars@ == s@,
            forall|j: int| 0 <= j < i ==> identifier_character(#[trigger] s@[j]),
    {
        let c = chars[i];
        let good = ('a' <= c && c <= 'z') || ('A' <= c && c <= 'Z') || ('0' <= c && c <= '9') || c
            == '_';
        if !good {
            assert(!identifier_character(s@[i as int]));
            return false;
        }
    }
    true
}

/// The statement that lists the columns of a table, or why there is none. Its
/// second column is the name.
pub open spec fn columns_statement(schema: Seq<char>, table: Seq<char>) -> Result<
    Seq<char>,
    SchemaProblem<Seq<char>, Seq<Seq<char>>>,
> {
    if !identifier(schema) {
        Err(SchemaProblem::SchemaName { schema })
    } else if !identifier(table) {
        Err(SchemaProblem::TableName { table })
    } else {
        Ok("PRAGMA "@ + schema + ".table_info("@ + table + ")"@)
    }
}

/// The statement that lists the columns of a table. The plain pragma honours the
/// schema qualifier, which its table-valued form does not in all builds.
pub fn table_columns_sql(schema: &str, table: &str) -> (r: Result<String, SchemaProblem>)
    ensures
        match columns_statement(schema@, table@) {
            Ok(sql) => r matches Ok(s) && s@ == sql,
            Err(p) => r matches Err(q) && q@ == p,
        },
{
    if !is_identifier(schema) {
        return Err(SchemaProblem::SchemaName { schema: schema.to_owned() });
    }
    if !is_identifier(table) {
        return Err(SchemaProblem::TableName { table: table.to_owned() });
    }
    let mut s = text::joined("PRAGMA ", schema);
    s.append(".table_info(");
    s.append(table);
    s.append(")");
    Ok(s)
}

/// Whether a table with these columns exists.
pub open spec fn columns_verdict(
    schema: Seq<char>,
    table: Seq<char>,
    cols: Seq<Seq<char>>,
) -> Result<(), SchemaProblem<Seq<char>, Seq<Seq<char>>>> {
    if cols.len() == 0 {
        Err(SchemaProblem::NoTable { schema, table })
    } else {
        Ok(())
    }
}

/// The columns that were found for a table; a table without columns is none.
pub fn table_columns(schema: &str, table: &str, cols: Vec<String>) -> (r: Result<
    Vec<String>,
    SchemaProblem,
>)
    ensures
        match columns_verdict(schema@, table@, texts(cols@)) {
            Ok(_) => r == Ok::<Vec<String>, SchemaProblem>(cols),
            Err(p) => r matches Err(q) && q@ == p,
        },
{
    if cols.is_empty() {
        return Err(SchemaProblem::NoTable { schema: schema.to_owned(), table: table.to_owned() });
    }
    Ok(cols)
}

/// The columns that are copied and that `cols` lacks, in order.
pub open spec fn missing_columns(cols: Seq<Seq<char>>) -> Seq<Seq<char>> {
    sorted(insight_columns().filter(|c: Seq<char>| !cols.contains(c)))
}

/// Whether rows can be copied between two sides with these columns.
pub open spec fn schema_verdict(local: Seq<Seq<char>>, peer: Seq<Seq<char>>) -> Result<
    (),
    SchemaProblem<Seq<char>, Seq<Seq<char>>>,
> {
    if local != peer {
        Err(SchemaProblem::Mismatch { local, peer })
    } else if exists|i: int|
        0 <= i < insight_columns().len() && !local.contains(#[trigger] insight_columns()[i]) {
        Err(SchemaProblem::MissingColumns { missing: missing_columns(local) })
    } else {
        Ok(())
    }
}

/// A verdict on a schema, by its view.
pub open spec fn problem_view(r: Result<(), SchemaProblem>) -> Result<
    (),
    SchemaProblem<Seq<char>, Seq<Seq<char>>>,
> {
    match r {
        Ok(_) => Ok(()),
        Err(p) => Err(p@),
    }
}

fn same_list(a: &Vec<String>, b: &Vec<String>) -> (r: bool)
    ensures
        r == (texts(a@) == texts(b@)),
{
    if a.len() != b.len() {
        assert(texts(a@).len() != texts(b@).len());
        return false;
    }
    for i in 0..a.len()
        invariant
            a@.len() == b@.len(),
            forall|j: int| 0 <= j < i ==> texts(a@)[j] == texts(b@)[j],
    {
        if !text::same(a[i].as_str(), b[i].as_str()) {
            assert(texts(a@)[i as int] != texts(b@)[i as int]);
            return false;
        }
    }
    assert(texts(a@) =~= texts(b@));
    true
}

/// Verifies that local and peer have the same `insights` columns, and that those
/// which are copied are among them. A divergent set of columns would silently
/// drop data, so it is refused.
pub fn schema_compatible(local_cols: &Vec<String>, peer_cols: &Vec<String>) -> (r: Result<
    (),
    SchemaProblem,
>)
    ensures
        problem_view(r) == schema_verdict(texts(local_cols@), texts(peer_cols@)),
{
    if !same_list(local_cols, peer_cols) {
        return Err(
            SchemaProblem::Mismatch {
                local: text::copy_list(local_cols),
                peer: text::copy_list(peer_cols),
            },
        );
    }
    let expected = insight_cols();
    let ghost have = texts(local_cols@);
    let ghost want = insight_columns();
    let ghost lacks = |c: Seq<char>| !have.contains(c);
    let mut missing: Vec<String> = Vec::new();
    assert(want.take(0).filter(lacks) =~= Seq::<Seq<char>>::empty()) by {
        reveal(Seq::filter);
    }
    for i in 0..expected.len()
        invariant
            texts(expected@) == want,
            want == insight_columns(),
            have == texts(local_cols@),
            lacks == (|c: Seq<char>| !have.contains(c)),
            texts(missing@) =~= want.take(i as int).filter(lacks),
            missing@.len() > 0 <==> exists|j: int|
                0 <= j < i && !have.contains(#[trigger] want[j]),
    {
        let ghost sofar = want.take(i + 1);
        let ghost was = texts(missing@);
        assert(sofar.drop_last() =~= want.take(i as int));
        assert(sofar.last() == want[i as int]);
        assert(texts(expected@)[i as int] == expected@[i as int]@);
        reveal(Seq::filter);
        if !text::has(local_cols, expected[i].as_str()) {
            missing.push(expected[i].clone());
            assert(texts(missing@) =~= was.push(want[i as int]));
            assert(!have.contains(want[i as int]));
        }
    }
    assert(want.take(want.len() as int) =~= want);
    if !missing.is_empty() {
        return Err(SchemaProblem::MissingColumns { missing: text::sort(missing) });
    }
    Ok(())
}

/// An index of a table: whether it is unique, whether it leaves rows out, and
/// its columns. A column that is an expression has no name.
#[derive(Debug)]
pub struct IndexShape<L = Vec<Option<String>>> {
    pub unique: bool,
    pub partial: bool,
    pub columns: L,
}

/// Column names by their views.
pub open spec fn names_view(v: Seq<Option<String>>) -> Seq<Option<Seq<char>>> {
    v.map_values(
        |n: Option<String>|
            match n {
                Some(s) => Some(s@),
                None => None,
            },
    )
}

impl View for IndexShape {
    type V = IndexShape<Seq<Option<Seq<char>>>>;

    open spec fn view(&self) -> IndexShape<Seq<Option<Seq<char>>>> {
        IndexShape {
            unique: self.unique,
            partial: self.partial,
            columns: names_view(self.columns@),
        }
    }
}

/// Indexes by their views.
pub open spec fn shapes_view(v: Seq<IndexShape>) -> Seq<IndexShape<Seq<Option<Seq<char>>>>> {
    v.map_values(|s: IndexShape| s@)
}

/// An index that keeps a row from being taken twice: it is unique, leaves no row
/// out, and is over the dedup columns in some order.
pub open spec fn dedups(index: IndexShape<Seq<Option<Seq<char>>>>) -> bool {
    &&& index.unique
    &&& !index.partial
    &&& index.columns.len() == dedup_columns().len()
    &&& forall|i: int|
        0 <= i < dedup_columns().len() ==> index.columns.contains(
            Some(#[trigger] dedup_columns()[i]),
        )
}

/// Whether one of the indexes keeps a row from being taken twice.
pub open spec fn has_dedup_index(indexes: Seq<IndexShape<Seq<Option<Seq<char>>>>>) -> bool {
    exists|i: int| 0 <= i < indexes.len() && dedups(#[trigger] indexes[i])
}

/// Whether a table with these indexes can take rows without taking one twice.
pub open spec fn dedup_verdict(indexes: Seq<IndexShape<Seq<Option<Seq<char>>>>>) -> Result<
    (),
    SchemaProblem<Seq<char>, Seq<Seq<char>>>,
> {
    if has_dedup_index(indexes) {
        Ok(())
    } else {
        Err(SchemaProblem::NoDedupIndex)
    }
}

fn has_column(columns: &Vec<Option<String>>, name: &str) -> (r: bool)
    ensures
        r == names_view(columns@).contains(Some(name@)),
{
    for i in 0..columns.len()
        invariant
            forall|j: int| 0 <= j < i ==> #[trigger] names_view(columns@)[j] != Some(name@),
    {
        assert(names_view(columns@)[i as int] == match columns@[i as int] {
            Some(s) => Some(s@),
            None => None,
        });
        if let Some(s) = &columns[i] {
            if text::same(s.as_str(), name) {
                return true;
            }
        }
    }
    false
}

fn is_dedup_index(index: &IndexShape) -> (r: bool)
    ensures
        r == dedups(index@),
{
    if !index.unique || index.partial || index.columns.len() != 3 {
        return false;
    }
    let wanted = dedup_cols();
    for i in 0..wanted.len()
        invariant
            texts(wanted@) == dedup_columns(),
            forall|j: int|
                0 <= j < i ==> index@.columns.contains(Some(#[trigger] dedup_columns()[j])),
    {
        assert(texts(wanted@)[i as int] == wanted@[i as int]@);
        if !has_column(&index.columns, wanted[i].as_str()) {
            assert(!index@.columns.contains(Some(dedup_columns()[i as int])));
            return false;
        }
    }
    true
}

/// Verifies that the local `insights` has a unique index over the dedup columns.
/// Without one there is nothing to deduplicate against, and every merge would
/// append the peer's rows again.
pub fn dedup_index(indexes: &Vec<IndexShape>) -> (r: Result<(), SchemaProblem>)
    ensures
        problem_view(r) == dedup_verdict(shapes_view(indexes@)),
{
    for i in 0..indexes.len()
        invariant
            forall|j: int| 0 <= j < i ==> !dedups(#[trigger] shapes_view(indexes@)[j]),
    {
        assert(shapes_view(indexes@)[i as int] == indexes@[i as int]@);
        if is_dedup_index(&indexes[i]) {
            return Ok(());
        }
    }
    Err(SchemaProblem::NoDedupIndex)
}

// ---------------------------------------------------------------------------
// The course of a merge
// ---------------------------------------------------------------------------

/// Why a merge failed.
#[derive(Debug)]
pub enum MergeError<S = String, L = Vec<String>> {
    Open { path: S, cause: S },
    PeerPathNotUtf8,
    Attach { cause: S },
    Schema { problem: SchemaProblem<S, L> },
    Statement { cause: S },
    Rebuild { cause: S },
}

impl View for MergeError {
    type V = MergeError<Seq<char>, Seq<Seq<char>>>;

    open spec fn view(&self) -> MergeError<Seq<char>, Seq<Seq<char>>> {
        match *self {
            MergeError::Open { path, cause } => MergeError::Open { path: path@, cause: cause@ },
            MergeError::PeerPathNotUtf8 => MergeError::PeerPathNotUtf8,
            MergeError::Attach { cause } => MergeError::Attach { cause: cause@ },
            MergeError::Schema { problem } => MergeError::Schema { problem: problem@ },
            MergeError::Statement { cause } => MergeError::Statement { cause: cause@ },
            MergeError::Rebuild { cause } => MergeError::Rebuild { cause: cause@ },
        }
    }
}

impl MergeError<Seq<char>, Seq<Seq<char>>> {
    /// The error in words.
    pub open spec fn text(self) -> Seq<char> {
        match self {
            MergeError::Open { path, cause } => "open local db "@ + path + ": "@ + cause,
            MergeError::PeerPathNotUtf8 => "peer db path is not valid UTF-8"@,
            MergeError::Attach { cause } => "ATTACH peer database: "@ + cause,
            MergeError::Schema { problem } => "schema compatibility check: "@ + problem.text(),
            MergeError::Statement { cause } => cause,
            MergeError::Rebuild { cause } => "rebuild FTS: "@ + cause,
        }
    }
}

impl MergeError {
    /// The error in words.
    pub fn message(&self) -> (r: String)
        ensures
            r@ == self@.text(),
    {
        match self {
            MergeError::Open { path, cause } => {
                let mut s = text::joined("open local db ", path.as_str());
                s.append(": ");
                s.append(cause.as_str());
                s
            },
            MergeError::PeerPathNotUtf8 => "peer db path is not valid UTF-8".to_owned(),
            MergeError::Attach { cause } => text::joined("ATTACH peer database: ", cause.as_str()),
            MergeError::Schema { problem } => text::joined(
                "schema compatibility check: ",
                problem.message().as_str(),
            ),
            MergeError::Statement { cause } => cause.clone(),
            MergeError::Rebuild { cause } => text::joined("rebuild FTS: ", cause.as_str()),
        }
    }
}

/// What is asked of the local database.
#[derive(Debug)]
pub enum MergeRequest<S = String> {
    /// Open the local database.
    Open,
    /// Wait this long for locks that others hold.
    BusyTimeout { seconds: u64 },
    /// Run a statement.
    Batch { sql: S },
    /// Run a query and read the second column of each row.
    Columns { sql: S },
    /// Run a query whose rows name an index in the second column, say whether it
    /// is unique in the third and whether it is partial in the fifth, and read
    /// the columns of each index with `index_columns_sql`.
    Indexes { sql: S },
    /// Run a query and read the single number that it returns.
    Count { sql: S },
    /// Run a statement and count the rows that it changed.
    Execute { sql: S },
}

impl View for MergeRequest {
    type V = MergeRequest<Seq<char>>;

    open spec fn view(&self) -> MergeRequest<Seq<char>> {
        match *self {
            MergeRequest::Open => MergeRequest::Open,
            MergeRequest::BusyTimeout { seconds } => MergeRequest::BusyTimeout { seconds },
            MergeRequest::Batch { sql } => MergeRequest::Batch { sql: sql@ },
            MergeRequest::Columns { sql } => MergeRequest::Columns { sql: sql@ },
            MergeRequest::Indexes { sql } => MergeRequest::Indexes { sql: sql@ },
            MergeRequest::Count { sql } => MergeRequest::Count { sql: sql@ },
            MergeRequest::Execute { sql } => MergeRequest::Execute { sql: sql@ },
        }
    }
}

/// A request that may be absent, by its view.
pub open spec fn request_view(r: Option<MergeRequest>) -> Option<MergeRequest<Seq<char>>> {
    match r {
        Some(q) => Some(q@),
        None => None,
    }
}

/// What the local database answered.
#[derive(Debug)]
pub enum MergeReply<S = String, L = Vec<String>, I = Vec<IndexShape>> {
    /// Opened, set or run.
    Done,
    /// The request failed.
    Failed { cause: S },
    Columns { names: L },
    Indexes { indexes: I },
    Count { rows: i64 },
    Changed { changed: u64 },
}

impl View for MergeReply {
    type V = MergeReply<Seq<char>, Seq<Seq<char>>, Seq<IndexShape<Seq<Option<Seq<char>>>>>>;

    open spec fn view(&self) -> Self::V {
        match *self {
            MergeReply::Done => MergeReply::Done,
            MergeReply::Failed { cause } => MergeReply::Failed { cause: cause@ },
            MergeReply::Columns { names } => MergeReply::Columns { names: texts(names@) },
            MergeReply::Indexes { indexes } => MergeReply::Indexes {
                indexes: shapes_view(indexes@),
            },
            MergeReply::Count { rows } => MergeReply::Count { rows },
            MergeReply::Changed { changed } => MergeReply::Changed { changed },
        }
    }
}

/// How far a merge has come.
#[derive(Debug)]
pub enum MergeStage<S = String, L = Vec<String>> {
    Opening,
    Tuning,
    Attaching { peer: S },
    ReadingLocal,
    ReadingPeer { local: L },
    ReadingIndexes,
    CountingLocal,
    CountingPeer { local_before: i64 },
    Beginning { local_before: i64, peer_total: i64 },
    Inserting { local_before: i64, peer_total: i64 },
    Committing { local_before: i64, peer_total: i64, inserted: u64 },
    Recounting { local_before: i64, peer_total: i64, inserted: u64 },
    Rebuilding { stats: MergeStats },
    /// Letting go of the peer's database; how that ends changes nothing.
    Detaching { stats: MergeStats },
    Finished { result: Result<MergeStats, MergeError<S, L>> },
}

/// A merge result by its view.
pub open spec fn result_view(r: Result<MergeStats, MergeError>) -> Result<
    MergeStats,
    MergeError<Seq<char>, Seq<Seq<char>>>,
> {
    match r {
        Ok(stats) => Ok(stats),
        Err(e) => Err(e@),
    }
}

impl View for MergeStage {
    type V = MergeStage<Seq<char>, Seq<Seq<char>>>;

    open spec fn view(&self) -> MergeStage<Seq<char>, Seq<Seq<char>>> {
        match *self {
            MergeStage::Opening => MergeStage::Opening,
            MergeStage::Tuning => MergeStage::Tuning,
            MergeStage::Attaching { peer } => MergeStage::Attaching { peer: peer@ },
            MergeStage::ReadingLocal => MergeStage::ReadingLocal,
            MergeStage::ReadingPeer { local } => MergeStage::ReadingPeer { local: texts(local@) },
            MergeStage::ReadingIndexes => MergeStage::ReadingIndexes,
            MergeStage::CountingLocal => MergeStage::CountingLocal,
            MergeStage::CountingPeer { local_before } => MergeStage::CountingPeer { local_before },
            MergeStage::Beginning { local_before, peer_total } => MergeStage::Beginning {
                local_before,
                peer_total,
            },
            MergeStage::Inserting { local_before, peer_total } => MergeStage::Inserting {
                local_before,
                peer_total,
            },
            MergeStage::Committing { local_before, peer_total, inserted } =>
                MergeStage::Committing { local_before, peer_total, inserted },
            MergeStage::Recounting { local_before, peer_total, inserted } =>
                MergeStage::Recounting { local_before, peer_total, inserted },
            MergeStage::Rebuilding { stats } => MergeStage::Rebuilding { stats },
            MergeStage::Detaching { stats } => MergeStage::Detaching { stats },
            MergeStage::Finished { result } => MergeStage::Finished {
                result: result_view(result),
            },
        }
    }
}

/// A merge of a snapshot of a peer's index into the local index.
///
/// It is safe while others write to the local index: the write lock is taken
/// before anything is written, and a merge that does not get it within the busy
/// timeout fails and writes nothing.
#[derive(Debug)]
pub struct Merge<S = String, L = Vec<String>> {
    pub local_db: LocalPath<S>,
    pub peer_db: LocalPath<S>,
    pub stage: MergeStage<S, L>,
}

impl View for Merge {
    type V = Merge<Seq<char>, Seq<Seq<char>>>;

    open spec fn view(&self) -> Merge<Seq<char>, Seq<Seq<char>>> {
        Merge { local_db: self.local_db@, peer_db: self.peer_db@, stage: self.stage@ }
    }
}

/// A merge that ends with an error.
pub open spec fn failed(e: MergeError<Seq<char>, Seq<Seq<char>>>) -> MergeStage<
    Seq<char>,
    Seq<Seq<char>>,
> {
    MergeStage::Finished { result: Err(e) }
}

/// A merge that ends because the schemas do not allow it.
pub open spec fn refused(problem: SchemaProblem<Seq<char>, Seq<Seq<char>>>) -> MergeStage<
    Seq<char>,
    Seq<Seq<char>>,
> {
    failed(MergeError::Schema { problem })
}

impl Merge<Seq<char>, Seq<Seq<char>>> {
    /// A merge at its beginning.
    pub open spec fn start(local_db: LocalPath<Seq<char>>, peer_db: LocalPath<Seq<char>>) -> Self {
        Merge { local_db, peer_db, stage: MergeStage::Opening }
    }

    /// What is asked of the local database now.
    pub open spec fn pending(self) -> Option<MergeRequest<Seq<char>>> {
        match self.stage {
            MergeStage::Opening => Some(MergeRequest::Open),
            MergeStage::Tuning => Some(MergeRequest::BusyTimeout { seconds: 30 }),
            MergeStage::Attaching { peer } => Some(
                MergeRequest::Batch { sql: attach_statement(peer) },
            ),
            MergeStage::ReadingLocal => Some(
                MergeRequest::Columns { sql: "PRAGMA main.table_info(insights)"@ },
            ),
            MergeStage::ReadingPeer { local } => Some(
                MergeRequest::Columns { sql: "PRAGMA peer.table_info(insights)"@ },
            ),
            MergeStage::ReadingIndexes => Some(
                MergeRequest::Indexes { sql: "PRAGMA main.index_list(insights)"@ },
            ),
            MergeStage::CountingLocal => Some(
                MergeRequest::Count { sql: "SELECT count(*) FROM insights"@ },
            ),
            MergeStage::CountingPeer { local_before } => Some(
                MergeRequest::Count { sql: "SELECT count(*) FROM peer.insights"@ },
            ),
            MergeStage::Beginning { local_before, peer_total } => Some(
                MergeRequest::Batch { sql: "BEGIN IMMEDIATE;"@ },
            ),
            MergeStage::Inserting { local_before, peer_total } => Some(
                MergeRequest::Execute { sql: insert_statement() },
            ),
            MergeStage::Committing { local_before, peer_total, inserted } => Some(
                MergeRequest::Batch { sql: "COMMIT;"@ },
            ),
            MergeStage::Recounting { local_before, peer_total, inserted } => Some(
                MergeRequest::Count { sql: "SELECT count(*) FROM insights"@ },
            ),
            MergeStage::Rebuilding { stats } => Some(
                MergeRequest::Batch {
                    sql: "INSERT INTO insights_fts(insights_fts) VALUES('rebuild');"@,
                },
            ),
            MergeStage::Detaching { stats } => Some(
                MergeRequest::Batch { sql: "DETACH DATABASE peer;"@ },
            ),
            MergeStage::Finished { result } => None,
        }
    }

    /// The stage behind a request that failed.
    pub open spec fn stage_failed(self, cause: Seq<char>) -> MergeStage<
        Seq<char>,
        Seq<Seq<char>>,
    > {
        match self.stage {
            MergeStage::Opening => failed(MergeError::Open { path: self.local_db.shown, cause }),
            MergeStage::Attaching { peer } => failed(MergeError::Attach { cause }),
            MergeStage::ReadingLocal => refused(SchemaProblem::Unreadable { cause }),
            MergeStage::ReadingPeer { local } => refused(SchemaProblem::Unreadable { cause }),
            MergeStage::ReadingIndexes => refused(SchemaProblem::Unreadable { cause }),
            MergeStage::Rebuilding { stats } => failed(MergeError::Rebuild { cause }),
            MergeStage::Detaching { stats } => MergeStage::Finished { result: Ok(stats) },
            MergeStage::Finished { result } => self.stage,
            _ => failed(MergeError::Statement { cause }),
        }
    }

    /// The stage behind a request that was met.
    pub open spec fn stage_met(
        self,
        reply: MergeReply<
            Seq<char>,
            Seq<Seq<char>>,
            Seq<IndexShape<Seq<Option<Seq<char>>>>>,
        >,
    ) -> MergeStage<Seq<char>, Seq<Seq<char>>> {
        match (self.stage, reply) {
            (MergeStage::Opening, MergeReply::Done) => MergeStage::Tuning,
            (MergeStage::Tuning, MergeReply::Done) => match self.peer_db.text {
                Some(peer) => MergeStage::Attaching { peer },
                None => failed(MergeError::PeerPathNotUtf8),
            },
            (MergeStage::Attaching { peer }, MergeReply::Done) => MergeStage::ReadingLocal,
            (MergeStage::ReadingLocal, MergeReply::Columns { names }) => match columns_verdict(
                "main"@,
                "insights"@,
                names,
            ) {
                Ok(_) => MergeStage::ReadingPeer { local: names },
                Err(p) => refused(p),
            },
            (MergeStage::ReadingPeer { local }, MergeReply::Columns { names }) => {
                match columns_verdict("peer"@, "insights"@, names) {
                    Ok(_) => match schema_verdict(local, names) {
                        Ok(_) => MergeStage::ReadingIndexes,
                        Err(p) => refused(p),
                    },
                    Err(p) => refused(p),
                }
            },
            (MergeStage::ReadingIndexes, MergeReply::Indexes { indexes }) => match dedup_verdict(
                indexes,
            ) {
                Ok(_) => MergeStage::CountingLocal,
                Err(p) => refused(p),
            },
            (MergeStage::CountingLocal, MergeReply::Count { rows }) => MergeStage::CountingPeer {
                local_before: rows,
            },
            (MergeStage::CountingPeer { local_before }, MergeReply::Count { rows }) =>
                MergeStage::Beginning { local_before, peer_total: rows },
            (MergeStage::Beginning { local_before, peer_total }, MergeReply::Done) =>
                MergeStage::Inserting { local_before, peer_total },
            (MergeStage::Inserting { local_before, peer_total }, MergeReply::Changed { changed }) =>
                MergeStage::Committing { local_before, peer_total, inserted: changed },
            (MergeStage::Committing { local_before, peer_total, inserted }, MergeReply::Done) =>
                MergeStage::Recounting { local_before, peer_total, inserted },
            (
                MergeStage::Recounting { local_before, peer_total, inserted },
                MergeReply::Count { rows },
            ) => {
                let stats = MergeStats { local_before, peer_total, local_after: rows };
                if inserted > 0 {
                    MergeStage::Rebuilding { stats }
                } else {
                    MergeStage::Detaching { stats }
                }
            },
            (MergeStage::Rebuilding { stats }, MergeReply::Done) => MergeStage::Detaching { stats },
            (MergeStage::Detaching { stats }, MergeReply::Done) => MergeStage::Finished {
                result: Ok(stats),
            },
            _ => self.stage,
        }
    }

    /// The merge behind a reply. A reply that does not belong to the request
    /// leaves the merge where it is.
    pub open spec fn next(
        self,
        reply: MergeReply<
            Seq<char>,
            Seq<Seq<char>>,
            Seq<IndexShape<Seq<Option<Seq<char>>>>>,
        >,
    ) -> Self {
        Merge {
            stage: match reply {
                MergeReply::Failed { cause } => self.stage_failed(cause),
                _ => self.stage_met(reply),
            },
            ..self
        }
    }
}

/// Begins to merge `peer_db`, a snapshot of a peer's index, into `local_db`.
pub fn merge_into(local_db: LocalPath, peer_db: LocalPath) -> (r: Merge)
    ensures
        r@ == Merge::start(local_db@, peer_db@),
{
    Merge { local_db, peer_db, stage: MergeStage::Opening }
}

impl Merge {
    /// What is asked of the local database now; nothing once the merge is
    /// finished.
    pub fn request(&self) -> (r: Option<MergeRequest>)
        ensures
            request_view(r) == self@.pending(),
    {
        match &self.stage {
            MergeStage::Opening => Some(MergeRequest::Open),
            MergeStage::Tuning => Some(MergeRequest::BusyTimeout { seconds: 30 }),
            MergeStage::Attaching { peer } => Some(
                MergeRequest::Batch { sql: attach_sql(peer.as_str()) },
            ),
            MergeStage::ReadingLocal => Some(MergeRequest::Columns { sql: columns_of("main") }),
            MergeStage::ReadingPeer { local } => Some(
                MergeRequest::Columns { sql: columns_of("peer") },
            ),
            MergeStage::ReadingIndexes => Some(
                MergeRequest::Indexes { sql: "PRAGMA main.index_list(insights)".to_owned() },
            ),
            MergeStage::CountingLocal => Some(
                MergeRequest::Count { sql: "SELECT count(*) FROM insights".to_owned() },
            ),
            MergeStage::CountingPeer { local_before } => Some(
                MergeRequest::Count { sql: "SELECT count(*) FROM peer.insights".to_owned() },
            ),
            MergeStage::Beginning { local_before, peer_total } => Some(
                MergeRequest::Batch { sql: "BEGIN IMMEDIATE;".to_owned() },
            ),
            MergeStage::Inserting { local_before, peer_total } => Some(
                MergeRequest::Execute { sql: insert_sql() },
            ),
            MergeStage::Committing { local_before, peer_total, inserted } => Some(
                MergeRequest::Batch { sql: "COMMIT;".to_owned() },
            ),
            MergeStage::Recounting { local_before, peer_total, inserted } => Some(
                MergeRequest::Count { sql: "SELECT count(*) FROM insights".to_owned() },
            ),
            MergeStage::Rebuilding { stats } => Some(
                MergeRequest::Batch {
                    sql: "INSERT INTO insights_fts(insights_fts) VALUES('rebuild');".to_owned(),
                },
            ),
            MergeStage::Detaching { stats } => Some(
                MergeRequest::Batch { sql: "DETACH DATABASE peer;".to_owned() },
            ),
            MergeStage::Finished { result } => None,
        }
    }

    fn met(self, reply: MergeReply) -> (r: Merge)
        ensures
            r@ == (Merge { stage: self@.stage_met(reply@), ..self@ }),
    {
        let stage = match (self.stage, reply) {
            (MergeStage::Opening, MergeReply::Done) => MergeStage::Tuning,
            (MergeStage::Tuning, MergeReply::Done) => match &self.peer_db.text {
                Some(peer) => MergeStage::Attaching { peer: peer.clone() },
                None => MergeStage::Finished { result: Err(MergeError::PeerPathNotUtf8) },
            },
            (MergeStage::Attaching { peer }, MergeReply::Done) => MergeStage::ReadingLocal,
            (MergeStage::ReadingLocal, MergeReply::Columns { names }) => match table_columns(
                "main",
                "insights",
                names,
            ) {
                Ok(local) => MergeStage::ReadingPeer { local },
                Err(problem) => MergeStage::Finished {
                    result: Err(MergeError::Schema { problem }),
                },
            },
            (MergeStage::ReadingPeer { local }, MergeReply::Columns { names }) =>
                match table_columns("peer", "insights", names) {
                    Ok(peer) => match schema_compatible(&local, &peer) {
                        Ok(_) => MergeStage::ReadingIndexes,
                        Err(problem) => MergeStage::Finished {
                            result: Err(MergeError::Schema { problem }),
                        },
                    },
                    Err(problem) => MergeStage::Finished {
                        result: Err(MergeError::Schema { problem }),
                    },
                },
            (MergeStage::ReadingIndexes, MergeReply::Indexes { indexes }) => match dedup_index(
                &indexes,
            ) {
                Ok(_) => MergeStage::CountingLocal,
                Err(problem) => MergeStage::Finished {
                    result: Err(MergeError::Schema { problem }),
                },
            },
            (MergeStage::CountingLocal, MergeReply::Count { rows }) => MergeStage::CountingPeer {
                local_before: rows,
            },
            (MergeStage::CountingPeer { local_before }, MergeReply::Count { rows }) =>
                MergeStage::Beginning { local_before, peer_total: rows },
            (MergeStage::Beginning { local_before, peer_total }, MergeReply::Done) =>
                MergeStage::Inserting { local_before, peer_total },
            (MergeStage::Inserting { local_before, peer_total }, MergeReply::Changed { changed }) =>
                MergeStage::Committing { local_before, peer_total, inserted: changed },
            (MergeStage::Committing { local_before, peer_total, inserted }, MergeReply::Done) =>
                MergeStage::Recounting { local_before, peer_total, inserted },
            (
                MergeStage::Recounting { local_before, peer_total, inserted },
                MergeReply::Count { rows },
            ) => {
                let stats = MergeStats { local_before, peer_total, local_after: rows };
                if inserted > 0 {
                    MergeStage::Rebuilding { stats }
                } else {
                    MergeStage::Detaching { stats }
                }
            },
            (MergeStage::Rebuilding { stats }, MergeReply::Done) => MergeStage::Detaching { stats },
            (MergeStage::Detaching { stats }, MergeReply::Done) => MergeStage::Finished {
                result: Ok(stats),
            },
            (stage, _) => stage,
        };
        Merge { local_db: self.local_db, peer_db: self.peer_db, stage }
    }

    /// Takes the reply to the request, and goes on. A reply that does not belong
    /// to the request leaves the merge where it is.
    pub fn advance(self, reply: MergeReply) -> (r: Merge)
        ensures
            r@ == self@.next(reply@),
    {
        let cause = match reply {
            MergeReply::Failed { cause } => cause,
            reply => return self.met(reply),
        };
        let result = match self.stage {
            MergeStage::Opening => Err(
                MergeError::Open { path: self.local_db.shown.clone(), cause },
            ),
            MergeStage::Attaching { peer } => Err(MergeError::Attach { cause }),
            MergeStage::ReadingLocal => Err(
                MergeError::Schema { problem: SchemaProblem::Unreadable { cause } },
            ),
            MergeStage::ReadingPeer { local } => Err(
                MergeError::Schema { problem: SchemaProblem::Unreadable { cause } },
            ),
            MergeStage::ReadingIndexes => Err(
                MergeError::Schema { problem: SchemaProblem::Unreadable { cause } },
            ),
            MergeStage::Rebuilding { stats } => Err(MergeError::Rebuild { cause }),
            MergeStage::Detaching { stats } => Ok(stats),
            MergeStage::Finished { result } => result,
            _ => Err(MergeError::Statement { cause }),
        };
        Merge {
            local_db: self.local_db,
            peer_db: self.peer_db,
            stage: MergeStage::Finished { result },
        }
    }

    /// How the merge ended; nothing before it is finished.
    pub fn into_result(self) -> (r: Option<Result<MergeStats, MergeError>>)
        ensures
            match self@.stage {
                MergeStage::Finished { result } => r matches Some(v) && result_view(v) == result,
                _ => r is None,
            },
    {
        match self.stage {
            MergeStage::Finished { result } => Some(result),
            _ => None,
        }
    }
}

/// A merge behind a series of replies.
pub open spec fn merge_after(
    merge: Merge<Seq<char>, Seq<Seq<char>>>,
    replies: Seq<
        MergeReply<Seq<char>, Seq<Seq<char>>, Seq<IndexShape<Seq<Option<Seq<char>>>>>>,
    >,
) -> Merge<Seq<char>, Seq<Seq<char>>>
    decreases replies.len(),
{
    if replies.len() == 0 {
        merge
    } else {
        merge_after(merge, replies.drop_last()).next(replies.last())
    }
}

/// A request that only reads: the columns of `insights` on either side, the local
/// indexes of it, and the number of its rows on either side.
pub open spec fn reads_only(q: MergeRequest<Seq<char>>) -> bool {
    match q {
        MergeRequest::Columns { sql } => sql == "PRAGMA main.table_info(insights)"@ || sql
            == "PRAGMA peer.table_info(insights)"@,
        MergeRequest::Indexes { sql } => sql == "PRAGMA main.index_list(insights)"@,
        MergeRequest::Count { sql } => sql == "SELECT count(*) FROM insights"@ || sql
            == "SELECT count(*) FROM peer.insights"@,
        _ => false,
    }
}

/// Whatever the local database answers, a merge writes to `insights` and its search
/// table alone. The one statement that puts rows anywhere is the insertion, which
/// names its columns, and `id` is none of them. Besides, the merge attaches the
/// peer's database, begins and commits its transaction, rebuilds search and lets go
/// of the peer's database; everything else only reads.
pub proof fn lemma_merge_statements(
    local_db: LocalPath<Seq<char>>,
    peer_db: LocalPath<Seq<char>>,
    replies: Seq<
        MergeReply<Seq<char>, Seq<Seq<char>>, Seq<IndexShape<Seq<Option<Seq<char>>>>>>,
    >,
)
    ensures
        match merge_after(Merge::start(local_db, peer_db), replies).pending() {
            None => true,
            Some(MergeRequest::Open) => true,
            Some(MergeRequest::BusyTimeout { seconds }) => true,
            Some(MergeRequest::Execute { sql }) => sql == insert_statement(),
            Some(MergeRequest::Batch { sql }) => {
                ||| peer_db.text matches Some(path) && sql == attach_statement(path)
                ||| sql == "BEGIN IMMEDIATE;"@
                ||| sql == "COMMIT;"@
                ||| sql == "INSERT INTO insights_fts(insights_fts) VALUES('rebuild');"@
                ||| sql == "DETACH DATABASE peer;"@
            },
            Some(q) => reads_only(q),
        },
        !insight_columns().contains("id"@),
{
    lemma_merge_paths(local_db, peer_db, replies);
    reveal_strlit("id");
    reveal_strlit("commit_sha");
    reveal_strlit("commit_date");
    reveal_strlit("category");
    reveal_strlit("title");
    reveal_strlit("body");
    reveal_strlit("files");
    reveal_strlit("tags");
    reveal_strlit("source_type");
    reveal_strlit("pr_number");
    reveal_strlit("embedding");
    reveal_strlit("created_at");
    assert forall|i: int| 0 <= i < insight_columns().len() implies (
    #[trigger] insight_columns()[i]).len() > 2 by {
        assert(i == 0 || i == 1 || i == 2 || i == 3 || i == 4 || i == 5 || i == 6 || i == 7 || i
            == 8 || i == 9 || i == 10);
    }
    assert("id"@.len() == 2);
}

proof fn lemma_merge_paths(
    local_db: LocalPath<Seq<char>>,
    peer_db: LocalPath<Seq<char>>,
    replies: Seq<
        MergeReply<Seq<char>, Seq<Seq<char>>, Seq<IndexShape<Seq<Option<Seq<char>>>>>>,
    >,
)
    ensures
        ({
            let now = merge_after(Merge::start(local_db, peer_db), replies);
            &&& now.peer_db == peer_db
            &&& now.stage matches MergeStage::Attaching { peer } ==> peer_db.text == Some(peer)
        }),
    decreases replies.len(),
{
    if replies.len() > 0 {
        lemma_merge_paths(local_db, peer_db, replies.drop_last());
    }
}

fn columns_of(schema: &str) -> (r: String)
    requires
        schema@ == "main"@ || schema@ == "peer"@,
    ensures
        schema@ == "main"@ ==> r@ == "PRAGMA main.table_info(insights)"@,
        schema@ == "peer"@ ==> r@ == "PRAGMA peer.table_info(insights)"@,
{
    proof {
        reveal_strlit("main");
        reveal_strlit("peer");
        reveal_strlit("insights");
        reveal_strlit("PRAGMA ");
        reveal_strlit(".table_info(");
        reveal_strlit(")");
        reveal_strlit("PRAGMA main.table_info(insights)");
        reveal_strlit("PRAGMA peer.table_info(insights)");
        assert(identifier(schema@));
        assert(identifier("insights"@));
        assert("PRAGMA "@ + "main"@ + ".table_info("@ + "insights"@ + ")"@
            =~= "PRAGMA main.table_info(insights)"@);
        assert("PRAGMA "@ + "peer"@ + ".table_info("@ + "insights"@ + ")"@
            =~= "PRAGMA peer.table_info(insights)"@);
    }
    match table_columns_sql(schema, "insights") {
        Ok(sql) => sql,
        Err(_) => {
            assert(false);
            String::new()
        },
    }
}

// ---------------------------------------------------------------------------
// What the checks and the statements come to
// ---------------------------------------------------------------------------

/// Which columns allow a merge. Two sides that differ in them in any way, be it one
/// column more, one less, another name or another order, are refused as a mismatch
/// that tells both. Two sides that agree are allowed just when they have every column
/// that is copied, and else those that are missing are told, all of them, in order.
pub proof fn lemma_schema_verdict(local: Seq<Seq<char>>, peer: Seq<Seq<char>>, c: Seq<char>)
    ensures
        local != peer ==> schema_verdict(local, peer) == (Err::<
            (),
            SchemaProblem<Seq<char>, Seq<Seq<char>>>,
        >(SchemaProblem::Mismatch { local, peer })),
        local == peer ==> (schema_verdict(local, peer) is Ok <==> {
            &&& local.contains("commit_sha"@)
            &&& local.contains("commit_date"@)
            &&& local.contains("category"@)
            &&& local.contains("title"@)
            &&& local.contains("body"@)
            &&& local.contains("files"@)
            &&& local.contains("tags"@)
            &&& local.contains("source_type"@)
            &&& local.contains("pr_number"@)
            &&& local.contains("embedding"@)
            &&& local.contains("created_at"@)
        }),
        local == peer && schema_verdict(local, peer) is Err ==> {
            &&& schema_verdict(local, peer)->Err_0 matches SchemaProblem::MissingColumns { missing }
            &&& missing.contains(c) <==> !local.contains(c) && (c == "commit_sha"@ || c
                == "commit_date"@ || c == "category"@ || c == "title"@ || c == "body"@ || c
                == "files"@ || c == "tags"@ || c == "source_type"@ || c == "pr_number"@ || c
                == "embedding"@ || c == "created_at"@)
            &&& forall|i: int, j: int|
                0 <= i < j < missing.len() ==> !text::before(
                    #[trigger] missing[j],
                    #[trigger] missing[i],
                )
        },
{
    let want = insight_columns();
    assert(want[0] == "commit_sha"@ && want[1] == "commit_date"@ && want[2] == "category"@);
    assert(want[3] == "title"@ && want[4] == "body"@ && want[5] == "files"@);
    assert(want[6] == "tags"@ && want[7] == "source_type"@ && want[8] == "pr_number"@);
    assert(want[9] == "embedding"@ && want[10] == "created_at"@);
    if local == peer && schema_verdict(local, peer) is Err {
        let lacks = |x: Seq<char>| !local.contains(x);
        let missing = want.filter(lacks);
        text::lemma_sorted(missing);
        if missing.contains(c) {
            let i = choose|i: int| 0 <= i < missing.len() && missing[i] == c;
            want.lemma_filter_pred(lacks, i);
            want.lemma_filter_contains_rev(lacks, c);
            let k = choose|k: int| 0 <= k < want.len() && want[k] == c;
            assert(k == 0 || k == 1 || k == 2 || k == 3 || k == 4 || k == 5 || k == 6 || k == 7 || k
                == 8 || k == 9 || k == 10);
        }
        if want.contains(c) && !local.contains(c) {
            let i = choose|i: int| 0 <= i < want.len() && want[i] == c;
            want.lemma_filter_contains(lacks, i);
        }
        assert(want.contains(want[0]) && want.contains(want[1]) && want.contains(want[2]));
        assert(want.contains(want[3]) && want.contains(want[4]) && want.contains(want[5]));
        assert(want.contains(want[6]) && want.contains(want[7]) && want.contains(want[8]));
        assert(want.contains(want[9]) && want.contains(want[10]));
    }
}

/// A table exists just when it has a column; one that does not is told.
pub proof fn lemma_columns_verdict(schema: Seq<char>, table: Seq<char>, cols: Seq<Seq<char>>)
    ensures
        cols.len() > 0 ==> columns_verdict(schema, table, cols) is Ok,
        cols.len() == 0 ==> columns_verdict(schema, table, cols) == (Err::<
            (),
            SchemaProblem<Seq<char>, Seq<Seq<char>>>,
        >(SchemaProblem::NoTable { schema, table })),
{
}

/// Which indexes allow a merge: there is one that is unique, leaves no row out, and
/// is over `commit_sha`, `title` and `source_type`, in any order, and nothing else.
pub proof fn lemma_dedup_verdict(indexes: Seq<IndexShape<Seq<Option<Seq<char>>>>>)
    ensures
        dedup_verdict(indexes) is Ok <==> exists|i: int|
            0 <= i < indexes.len() && (#[trigger] indexes[i]).unique && !indexes[i].partial
                && indexes[i].columns.len() == 3 && indexes[i].columns.contains(
                Some("commit_sha"@),
            ) && indexes[i].columns.contains(Some("title"@)) && indexes[i].columns.contains(
                Some("source_type"@),
            ),
        dedup_verdict(indexes) is Err ==> dedup_verdict(indexes)->Err_0 is NoDedupIndex,
{
    let wanted = dedup_columns();
    assert(wanted[0] == "commit_sha"@ && wanted[1] == "title"@ && wanted[2] == "source_type"@);
    assert forall|i: int| 0 <= i < indexes.len() implies (dedups(#[trigger] indexes[i]) <==> {
        &&& indexes[i].unique
        &&& !indexes[i].partial
        &&& indexes[i].columns.len() == 3
        &&& indexes[i].columns.contains(Some("commit_sha"@))
        &&& indexes[i].columns.contains(Some("title"@))
        &&& indexes[i].columns.contains(Some("source_type"@))
    }) by {
        let index = indexes[i];
        if dedups(index) {
            assert(index.columns.contains(Some(wanted[0])));
            assert(index.columns.contains(Some(wanted[1])));
            assert(index.columns.contains(Some(wanted[2])));
        }
    }
}

/// Which names are put into a statement as they are: those of ASCII digits, ASCII
/// letters and underscores alone. Any other is refused and told.
pub proof fn lemma_columns_statement(schema: Seq<char>, table: Seq<char>)
    ensures
        ({
            let plain = |s: Seq<char>|
                forall|i: int|
                    0 <= i < s.len() ==> ({
                        let u = #[trigger] s[i] as int;
                        0x30 <= u <= 0x39 || 0x41 <= u <= 0x5a || 0x61 <= u <= 0x7a || u == 0x5f
                    });
            let r = columns_statement(schema, table);
            &&& plain(schema) && plain(table) ==> (r matches Ok(sql) && sql == "PRAGMA "@ + schema
                + ".table_info("@ + table + ")"@)
            &&& !plain(schema) ==> (r matches Err(SchemaProblem::SchemaName { schema: told })
                && told == schema)
            &&& plain(schema) && !plain(table) ==> (r matches Err(
                SchemaProblem::TableName { table: told },
            ) && told == table)
        }),
{
    assert forall|s: Seq<char>| #[trigger]
        identifier(s) <==> forall|i: int|
            0 <= i < s.len() ==> ({
                let u = #[trigger] s[i] as int;
                0x30 <= u <= 0x39 || 0x41 <= u <= 0x5a || 0x61 <= u <= 0x7a || u == 0x5f
            }) by {
        if identifier(s) {
            assert forall|i: int| 0 <= i < s.len() implies ({
                let u = #[trigger] s[i] as int;
                0x30 <= u <= 0x39 || 0x41 <= u <= 0x5a || 0x61 <= u <= 0x7a || u == 0x5f
            }) by {
                assert(identifier_character(s[i]));
            }
        }
    }
}

/// The statements that hold a text hold it as a string that SQL reads back as that
/// text, whatever it is: the path that is attached, and the name of an index.
pub proof fn lemma_statements_hold_text(s: Seq<char>) -> (r: Seq<char>)
    ensures
        sql_string(r) == Some(s),
        attach_statement(s) == "ATTACH DATABASE '"@ + r + " AS peer;"@,
        index_columns_statement(s) == "PRAGMA main.index_info('"@ + r + ")"@,
{
    reveal_strlit("' AS peer;");
    reveal_strlit(" AS peer;");
    reveal_strlit("')");
    reveal_strlit(")");
    reveal_strlit("'");
    lemma_escape_read_back(s);
    let r = sql_escaped(s) + "'"@;
    assert(attach_statement(s) =~= "ATTACH DATABASE '"@ + r + " AS peer;"@);
    assert(index_columns_statement(s) =~= "PRAGMA main.index_info('"@ + r + ")"@);
    r
}

/// A request that fails ends a merge, and the error says why, with the cause as it
/// was given at its end. Only letting go of the peer's database may fail: the merge
/// has then succeeded all the same.
pub proof fn lemma_failed_request_ends_merge(
    merge: Merge<Seq<char>, Seq<Seq<char>>>,
    cause: Seq<char>,
) -> (r: Seq<char>)
    requires
        merge.pending() is Some,
    ensures
        merge.next(MergeReply::Failed { cause }).pending() is None,
        merge.stage matches MergeStage::Detaching { stats } ==> merge.next(
            MergeReply::Failed { cause },
        ).stage == (MergeStage::<Seq<char>, Seq<Seq<char>>>::Finished { result: Ok(stats) }),
        merge.stage !is Detaching ==> {
            &&& merge.next(MergeReply::Failed { cause }).stage matches MergeStage::Finished {
                result: Err(e),
            }
            &&& e.text() == r + cause
        },
        merge.stage is Opening ==> r == "open local db "@ + merge.local_db.shown + ": "@,
        merge.stage is Attaching ==> r == "ATTACH peer database: "@,
        merge.stage is ReadingLocal || merge.stage is ReadingPeer || merge.stage is ReadingIndexes
            ==> r == "schema compatibility check: "@,
        merge.stage is Rebuilding ==> r == "rebuild FTS: "@,
        !(merge.stage is Opening || merge.stage is Attaching || merge.stage is ReadingLocal
            || merge.stage is ReadingPeer || merge.stage is ReadingIndexes
            || merge.stage is Rebuilding) ==> r == Seq::<char>::empty(),
{
    let none = Seq::<char>::empty();
    assert(none + cause =~= cause);
    match merge.stage {
        MergeStage::Opening => "open local db "@ + merge.local_db.shown + ": "@,
        MergeStage::Attaching { peer } => "ATTACH peer database: "@,
        MergeStage::ReadingLocal => "schema compatibility check: "@,
        MergeStage::ReadingPeer { local } => "schema compatibility check: "@,
        MergeStage::ReadingIndexes => "schema compatibility check: "@,
        MergeStage::Rebuilding { stats } => "rebuild FTS: "@,
        _ => none,
    }
}

/// What an error says: each tells everything that it holds, as it holds it.
pub proof fn lemma_merge_errors_told(
    a: Seq<char>,
    b: Seq<char>,
    local: Seq<Seq<char>>,
    peer: Seq<Seq<char>>,
    problem: SchemaProblem<Seq<char>, Seq<Seq<char>>>,
)
    ensures
        (SchemaProblem::<Seq<char>, Seq<Seq<char>>>::SchemaName { schema: a }).text()
            == "invalid schema identifier: "@ + a,
        (SchemaProblem::<Seq<char>, Seq<Seq<char>>>::TableName { table: a }).text()
            == "invalid table identifier: "@ + a,
        (SchemaProblem::<Seq<char>, Seq<Seq<char>>>::NoTable { schema: a, table: b }).text()
            == "table `"@ + a + "."@ + b + "` not found or empty schema"@,
        (SchemaProblem::<Seq<char>, Seq<Seq<char>>>::Mismatch { local, peer }).text()
            == "schema mismatch on `insights`: local="@ + quoted_list(local) + ", peer="@
            + quoted_list(peer),
        (SchemaProblem::<Seq<char>, Seq<Seq<char>>>::MissingColumns { missing: local }).text()
            == "diwa schema is missing expected columns we copy: "@ + quoted_list(local)
            + ". diwa-sync needs an update."@,
        (MergeError::<Seq<char>, Seq<Seq<char>>>::Schema { problem }).text()
            == "schema compatibility check: "@ + problem.text(),
        (MergeError::<Seq<char>, Seq<Seq<char>>>::Open { path: a, cause: b }).text()
            == "open local db "@ + a + ": "@ + b,
        (MergeError::<Seq<char>, Seq<Seq<char>>>::PeerPathNotUtf8).text()
            == "peer db path is not valid UTF-8"@,
{
}

/// Where the local index lacks its dedup index, the message says so and tells the
/// statement to run.
pub proof fn lemma_remedy_told() -> (r: Seq<char>)
    ensures
        (SchemaProblem::<Seq<char>, Seq<Seq<char>>>::NoDedupIndex).text() == r
            + "CREATE UNIQUE INDEX idx_insights_unique ON insights (commit_sha, title, source_type);"@,
{
    reveal_strlit(
        "local `insights` has no UNIQUE index over (commit_sha, title, source_type), so peer rows \
     would be appended on every merge; run: CREATE UNIQUE INDEX idx_insights_unique ON insights \
     (commit_sha, title, source_type);",
    );
    reveal_strlit(
        "CREATE UNIQUE INDEX idx_insights_unique ON insights (commit_sha, title, source_type);",
    );
    let remedy =
        "CREATE UNIQUE INDEX idx_insights_unique ON insights (commit_sha, title, source_type);"@;
    let r = NO_DEDUP_INDEX@.take(NO_DEDUP_INDEX@.len() - remedy.len());
    assert(NO_DEDUP_INDEX@ =~= r + remedy);
    r
}

/// A reply of another kind than the request asks for changes nothing, and neither does
/// any reply once the merge is finished.
pub proof fn lemma_stray_replies_ignored(
    merge: Merge<Seq<char>, Seq<Seq<char>>>,
    reply: MergeReply<Seq<char>, Seq<Seq<char>>, Seq<IndexShape<Seq<Option<Seq<char>>>>>>,
)
    requires
        match merge.pending() {
            None => true,
            Some(MergeRequest::Columns { sql }) => !(reply is Columns || reply is Failed),
            Some(MergeRequest::Indexes { sql }) => !(reply is Indexes || reply is Failed),
            Some(MergeRequest::Count { sql }) => !(reply is Count || reply is Failed),
            Some(MergeRequest::Execute { sql }) => !(reply is Changed || reply is Failed),
            Some(_) => !(reply is Done || reply is Failed),
        },
    ensures
        merge.next(reply) == merge,
{
}

/// The counts that a merge tells are those that the database gave, whatever they are:
/// local rows before, rows of the peer, local rows after. Search is rebuilt just when
/// the insertion changed a row, and a transaction is open for the insertion alone.
pub proof fn lemma_merge_counts(
    merge: Merge<Seq<char>, Seq<Seq<char>>>,
    before: i64,
    total: i64,
    changed: u64,
    after: i64,
)
    requires
        merge.stage is CountingLocal,
    ensures
        ({
            let a = merge.next(MergeReply::Count { rows: before });
            let b = a.next(MergeReply::Count { rows: total });
            let c = b.next(MergeReply::Done);
            let d = c.next(MergeReply::Changed { changed });
            let e = d.next(MergeReply::Done);
            let f = e.next(MergeReply::Count { rows: after });
            let g = if changed > 0 {
                f.next(MergeReply::Done)
            } else {
                f
            };
            let end = g.next(MergeReply::Done);
            &&& b.pending() == Some(MergeRequest::Batch { sql: "BEGIN IMMEDIATE;"@ })
            &&& c.pending() == Some(MergeRequest::Execute { sql: insert_statement() })
            &&& d.pending() == Some(MergeRequest::Batch { sql: "COMMIT;"@ })
            &&& e.pending() == Some(MergeRequest::Count { sql: "SELECT count(*) FROM insights"@ })
            &&& changed > 0 ==> f.pending() == Some(
                MergeRequest::Batch {
                    sql: "INSERT INTO insights_fts(insights_fts) VALUES('rebuild');"@,
                },
            )
            &&& g.pending() == Some(MergeRequest::Batch { sql: "DETACH DATABASE peer;"@ })
            &&& end.stage matches MergeStage::Finished { result: Ok(stats) }
            &&& stats.local_before == before
            &&& stats.peer_total == total
            &&& stats.local_after == after
        }),
{
}

/// What is reasoned about is what is there: a reply and an index are seen as they are,
/// part for part.
pub proof fn lemma_seen_as_they_are(r: MergeReply, index: IndexShape, n: int)
    ensures
        r is Done <==> r@ is Done,
        r matches MergeReply::Failed { cause } ==> (r@ matches MergeReply::Failed { cause: c } && c
            == cause@),
        r matches MergeReply::Columns { names } ==> (r@ matches MergeReply::Columns { names: v } && v
            == texts(names@)),
        r matches MergeReply::Indexes { indexes } ==> (r@ matches MergeReply::Indexes {
            indexes: v,
        } && v.len() == indexes@.len() && (0 <= n < v.len() ==> v[n] == indexes@[n]@)),
        r matches MergeReply::Count { rows } ==> (r@ matches MergeReply::Count { rows: c } && c
            == rows),
        r matches MergeReply::Changed { changed } ==> (r@ matches MergeReply::Changed { changed: c }
            && c == changed),
        index@.unique == index.unique,
        index@.partial == index.partial,
        index@.columns.len() == index.columns@.len(),
        0 <= n < index.columns@.len() ==> (index@.columns[n] is None <==> index.columns@[n] is None),
        0 <= n < index.columns@.len() && index.columns@[n] is Some ==> index@.columns[n] == Some(
            index.columns@[n]->0@,
        ),
{
}

} // verus!
