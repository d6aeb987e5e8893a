use diwa_sync::command::LocalPath;
use diwa_sync::merge::{
    attach_sql, dedup_index, escape_sql, index_columns_sql, insert_sql, insight_cols, schema_compatible,
    table_columns, table_columns_sql, IndexShape, Merge, MergeError, MergeReply, MergeRequest, MergeStage,
    MergeStats, SchemaProblem,
};
use rusqlite::Connection;
use std::path::Path;
use tempfile::TempDir;

const DIWA_SCHEMA: &str = r#"
CREATE TABLE insights (
    id          INTEGER PRIMARY KEY,
    commit_sha  TEXT NOT NULL,
    commit_date TEXT NOT NULL,
    category    TEXT NOT NULL,
    title       TEXT NOT NULL,
    body        TEXT NOT NULL,
    files       TEXT NOT NULL DEFAULT '[]',
    tags        TEXT NOT NULL DEFAULT '',
    source_type TEXT NOT NULL DEFAULT 'git',
    pr_number   INTEGER,
    embedding   BLOB,
    created_at  TEXT NOT NULL
);
CREATE UNIQUE INDEX idx_insights_unique ON insights (commit_sha, title, source_type);
CREATE TABLE meta (
    key   TEXT PRIMARY KEY,
    value TEXT NOT NULL
);
CREATE VIRTUAL TABLE insights_fts USING fts5(
    title, body, tags,
    content=insights, content_rowid=id
);
"#;

const NO_INDEX_SCHEMA: &str = r#"
    CREATE TABLE insights (
        id          INTEGER PRIMARY KEY,
        commit_sha  TEXT NOT NULL,
        commit_date TEXT NOT NULL,
        category    TEXT NOT NULL,
        title       TEXT NOT NULL,
        body        TEXT NOT NULL,
        files       TEXT NOT NULL DEFAULT '[]',
        tags        TEXT NOT NULL DEFAULT '',
        source_type TEXT NOT NULL DEFAULT 'git',
        pr_number   INTEGER,
        embedding   BLOB,
        created_at  TEXT NOT NULL
    );
    CREATE TABLE meta (key TEXT PRIMARY KEY, value TEXT NOT NULL);
    CREATE VIRTUAL TABLE insights_fts USING fts5(
        title, body, tags, content=insights, content_rowid=id
    );
"#;

fn make_db(path: &Path) -> Connection {
    let conn = Connection::open(path).unwrap();
    conn.execute_batch(DIWA_SCHEMA).unwrap();
    conn
}

fn insert(conn: &Connection, sha: &str, title: &str, body: &str) {
    conn.execute(
        "INSERT INTO insights
         (commit_sha, commit_date, category, title, body, files, tags,
          source_type, pr_number, embedding, created_at)
         VALUES (?1, '2026-01-01', 'feat', ?2, ?3, '[]', '', 'git', NULL, NULL, '2026-01-01')",
        [sha, title, body],
    )
    .unwrap();
    let rowid = conn.last_insert_rowid();
    conn.execute(
        "INSERT INTO insights_fts(rowid, title, body, tags) VALUES (?1, ?2, ?3, '')",
        (rowid, title, body),
    )
    .unwrap();
}

fn local_path(p: &Path) -> LocalPath {
    LocalPath {
        text: p.to_str().map(|s| s.to_string()),
        shown: p.display().to_string(),
    }
}

/// The rows of a query, or what went wrong.
fn names(conn: &Connection, sql: &str, column: usize) -> rusqlite::Result<Vec<String>> {
    let mut stmt = conn.prepare(sql)?;
    let rows = stmt.query_map([], |r| r.get::<_, String>(column))?;
    rows.collect()
}

fn index_shapes(conn: &Connection, sql: &str) -> rusqlite::Result<Vec<IndexShape>> {
    let mut stmt = conn.prepare(sql)?;
    let listed: Vec<(String, bool, bool)> = stmt
        .query_map([], |r| Ok((r.get(1)?, r.get(2)?, r.get(4)?)))?
        .collect::<rusqlite::Result<_>>()?;
    let mut shapes = Vec::new();
    for (name, unique, partial) in listed {
        let mut info = conn.prepare(&index_columns_sql(&name))?;
        let columns: Vec<Option<String>> = info
            .query_map([], |r| r.get::<_, Option<String>>(2))?
            .collect::<rusqlite::Result<_>>()?;
        shapes.push(IndexShape { unique, partial, columns });
    }
    Ok(shapes)
}

fn perform(conn: &mut Option<Connection>, local: &Path, request: MergeRequest) -> MergeReply {
    if let MergeRequest::Open = request {
        return match Connection::open(local) {
            Ok(c) => {
                *conn = Some(c);
                MergeReply::Done
            }
            Err(e) => MergeReply::Failed { cause: e.to_string() },
        };
    }
    let c = conn.as_ref().unwrap();
    let reply = match request {
        MergeRequest::Open => unreachable!(),
        MergeRequest::BusyTimeout { seconds } => c
            .busy_timeout(std::time::Duration::from_secs(seconds))
            .map(|_| MergeReply::Done),
        MergeRequest::Batch { sql } => c.execute_batch(&sql).map(|_| MergeReply::Done),
        MergeRequest::Columns { sql } => names(c, &sql, 1).map(|names| MergeReply::Columns { names }),
        MergeRequest::Indexes { sql } => {
            index_shapes(c, &sql).map(|indexes| MergeReply::Indexes { indexes })
        }
        MergeRequest::Count { sql } => c
            .query_row(&sql, [], |r| r.get::<_, i64>(0))
            .map(|rows| MergeReply::Count { rows }),
        MergeRequest::Execute { sql } => c
            .execute(&sql, [])
            .map(|n| MergeReply::Changed { changed: n as u64 }),
    };
    match reply {
        Ok(r) => r,
        Err(e) => MergeReply::Failed { cause: e.to_string() },
    }
}

/// Performs a merge on real databases.
fn merge_into(local: &Path, peer: &Path) -> Result<MergeStats, MergeError> {
    let mut merge = diwa_sync::merge::merge_into(local_path(local), local_path(peer));
    let mut conn: Option<Connection> = None;
    while let Some(request) = merge.request() {
        let reply = perform(&mut conn, local, request);
        merge = merge.advance(reply);
    }
    merge.into_result().unwrap()
}

fn titles(path: &Path) -> Vec<String> {
    let conn = Connection::open(path).unwrap();
    names(&conn, "SELECT title FROM insights ORDER BY commit_sha, title", 0).unwrap()
}

fn hits(path: &Path, word: &str) -> i64 {
    let conn = Connection::open(path).unwrap();
    conn.query_row(
        "SELECT count(*) FROM insights_fts WHERE insights_fts MATCH ?1",
        [word],
        |r| r.get(0),
    )
    .unwrap()
}

#[test]
fn merge_unions_distinct_rows() {
    let tmp = TempDir::new().unwrap();
    let local_path = tmp.path().join("local.db");
    let peer_path = tmp.path().join("peer.db");

    let local = make_db(&local_path);
    let peer = make_db(&peer_path);

    insert(&local, "aaa", "Local-only commit", "bodyalpha");
    insert(&local, "shared", "Shared commit", "bodyshared");
    insert(&peer, "shared", "Shared commit", "bodyshared");
    insert(&peer, "bbb", "Peer-only commit", "bodybeta");

    drop(local);
    drop(peer);

    let stats = merge_into(&local_path, &peer_path).unwrap();

    assert_eq!(stats.local_before, 2);
    assert_eq!(stats.peer_total, 2);
    assert_eq!(stats.local_after, 3, "should be union of both sides");
    assert_eq!(stats.added(), 1);

    let conn = Connection::open(&local_path).unwrap();
    let titles: Vec<String> = conn
        .prepare("SELECT title FROM insights ORDER BY commit_sha")
        .unwrap()
        .query_map([], |r| r.get::<_, String>(0))
        .unwrap()
        .collect::<rusqlite::Result<_>>()
        .unwrap();
    assert_eq!(
        titles,
        vec!["Local-only commit", "Peer-only commit", "Shared commit"]
    );

    // FTS reflects the merged row: a search for the peer-only body hits.
    let hit: i64 = conn
        .query_row(
            "SELECT count(*) FROM insights_fts WHERE insights_fts MATCH 'bodybeta'",
            [],
            |r| r.get(0),
        )
        .unwrap();
    assert_eq!(hit, 1, "FTS rebuilt to include merged peer rows");
}

#[test]
fn merge_idempotent() {
    let tmp = TempDir::new().unwrap();
    let local_path = tmp.path().join("local.db");
    let peer_path = tmp.path().join("peer.db");
    let local = make_db(&local_path);
    let peer = make_db(&peer_path);
    insert(&local, "x", "T", "B");
    insert(&peer, "x", "T", "B");
    drop(local);
    drop(peer);

    let s1 = merge_into(&local_path, &peer_path).unwrap();
    let s2 = merge_into(&local_path, &peer_path).unwrap();
    assert_eq!(s1.added(), 0);
    assert_eq!(s2.added(), 0);
    assert_eq!(s2.local_after, 1);
}

#[test]
fn merge_rejects_missing_dedup_index() {
    // Same columns on both sides, but local has no UNIQUE index: every merge would
    // append the peer's rows again, so it must refuse.
    let tmp = TempDir::new().unwrap();
    let local_path = tmp.path().join("local.db");
    let peer_path = tmp.path().join("peer.db");

    Connection::open(&local_path).unwrap().execute_batch(NO_INDEX_SCHEMA).unwrap();
    let peer = make_db(&peer_path);
    insert(&peer, "x", "T", "B");
    drop(peer);

    let err = merge_into(&local_path, &peer_path).unwrap_err();
    let msg = err.message();
    assert!(
        msg.contains("UNIQUE index"),
        "expected dedup-index error, got: {msg}"
    );
}

#[test]
fn merge_rejects_schema_mismatch() {
    let tmp = TempDir::new().unwrap();
    let local_path = tmp.path().join("local.db");
    let peer_path = tmp.path().join("peer.db");
    make_db(&local_path);

    // Peer has a divergent schema: it lacks the `embedding` column.
    let conn = Connection::open(&peer_path).unwrap();
    conn.execute_batch(
        r#"
        CREATE TABLE insights (
            id          INTEGER PRIMARY KEY,
            commit_sha  TEXT NOT NULL,
            commit_date TEXT NOT NULL,
            category    TEXT NOT NULL,
            title       TEXT NOT NULL,
            body        TEXT NOT NULL,
            files       TEXT NOT NULL DEFAULT '[]',
            tags        TEXT NOT NULL DEFAULT '',
            source_type TEXT NOT NULL DEFAULT 'git',
            pr_number   INTEGER,
            created_at  TEXT NOT NULL
        );
        CREATE UNIQUE INDEX idx_insights_unique ON insights (commit_sha, title, source_type);
        CREATE VIRTUAL TABLE insights_fts USING fts5(title, body, tags, content=insights, content_rowid=id);
        "#,
    )
    .unwrap();
    drop(conn);

    let err = merge_into(&local_path, &peer_path).unwrap_err();
    assert!(
        err.message().contains("schema mismatch"),
        "expected schema mismatch error, got: {}",
        err.message()
    );
}

#[test]
fn refused_merge_names_the_remedy_and_writes_nothing() {
    let tmp = TempDir::new().unwrap();
    let local = tmp.path().join("local.db");
    let peer = tmp.path().join("peer.db");
    Connection::open(&local).unwrap().execute_batch(NO_INDEX_SCHEMA).unwrap();
    let conn = make_db(&peer);
    insert(&conn, "x", "T", "B");
    drop(conn);

    let err = merge_into(&local, &peer).unwrap_err();
    assert!(matches!(
        err,
        MergeError::Schema { problem: SchemaProblem::NoDedupIndex }
    ));
    assert_eq!(
        err.message(),
        "schema compatibility check: local `insights` has no UNIQUE index over (commit_sha, title, \
         source_type), so peer rows would be appended on every merge; run: CREATE UNIQUE INDEX \
         idx_insights_unique ON insights (commit_sha, title, source_type);"
    );
    assert!(titles(&local).is_empty());

    // What the message says to run is the remedy.
    Connection::open(&local)
        .unwrap()
        .execute_batch(
            "CREATE UNIQUE INDEX idx_insights_unique ON insights (commit_sha, title, source_type);",
        )
        .unwrap();
    assert_eq!(merge_into(&local, &peer).unwrap().added(), 1);
}

#[test]
fn dedup_index_in_another_order_counts_and_partial_one_does_not() {
    let tmp = TempDir::new().unwrap();
    let peer = tmp.path().join("peer.db");
    let conn = make_db(&peer);
    insert(&conn, "x", "T", "B");
    drop(conn);

    let turned = tmp.path().join("turned.db");
    let conn = Connection::open(&turned).unwrap();
    conn.execute_batch(NO_INDEX_SCHEMA).unwrap();
    conn.execute_batch("CREATE UNIQUE INDEX u ON insights (source_type, title, commit_sha);")
        .unwrap();
    drop(conn);
    assert_eq!(merge_into(&turned, &peer).unwrap().added(), 1);

    let partial = tmp.path().join("partial.db");
    let conn = Connection::open(&partial).unwrap();
    conn.execute_batch(NO_INDEX_SCHEMA).unwrap();
    conn.execute_batch(
        "CREATE UNIQUE INDEX u ON insights (commit_sha, title, source_type) WHERE title <> '';
         CREATE INDEX plain ON insights (commit_sha, title, source_type);
         CREATE UNIQUE INDEX wide ON insights (commit_sha, title, source_type, body);
         CREATE UNIQUE INDEX expr ON insights (commit_sha, title, lower(source_type));",
    )
    .unwrap();
    drop(conn);
    assert!(matches!(
        merge_into(&partial, &peer).unwrap_err(),
        MergeError::Schema { problem: SchemaProblem::NoDedupIndex }
    ));
}

#[test]
fn merge_keeps_the_local_row_of_a_shared_key() {
    let tmp = TempDir::new().unwrap();
    let local = tmp.path().join("local.db");
    let peer = tmp.path().join("peer.db");
    let conn = make_db(&local);
    insert(&conn, "k", "T", "bodylocal");
    drop(conn);
    let conn = make_db(&peer);
    insert(&conn, "k", "T", "bodypeer");
    insert(&conn, "k", "U", "bodyother");
    drop(conn);

    let stats = merge_into(&local, &peer).unwrap();
    assert_eq!(
        stats,
        MergeStats { local_before: 1, peer_total: 2, local_after: 2 }
    );
    let conn = Connection::open(&local).unwrap();
    assert_eq!(
        names(&conn, "SELECT body FROM insights ORDER BY title", 0).unwrap(),
        vec!["bodylocal", "bodyother"]
    );
    drop(conn);
    assert_eq!(hits(&local, "bodyother"), 1);
    assert_eq!(hits(&local, "bodypeer"), 0);
    // The peer's database is only read.
    assert_eq!(titles(&peer), vec!["T", "U"]);
}

#[test]
fn peer_without_the_dedup_index_gives_its_rows_once() {
    let tmp = TempDir::new().unwrap();
    let local = tmp.path().join("local.db");
    let peer = tmp.path().join("peer.db");
    drop(make_db(&local));
    let conn = Connection::open(&peer).unwrap();
    conn.execute_batch(NO_INDEX_SCHEMA).unwrap();
    insert(&conn, "k", "T", "first");
    insert(&conn, "k", "T", "second");
    drop(conn);

    let stats = merge_into(&local, &peer).unwrap();
    assert_eq!(
        stats,
        MergeStats { local_before: 0, peer_total: 2, local_after: 1 }
    );
    let conn = Connection::open(&local).unwrap();
    assert_eq!(names(&conn, "SELECT body FROM insights", 0).unwrap(), vec!["first"]);
}

#[test]
fn merging_again_after_new_rows_changes_nothing_more() {
    let tmp = TempDir::new().unwrap();
    let local = tmp.path().join("local.db");
    let peer = tmp.path().join("peer.db");
    drop(make_db(&local));
    let conn = make_db(&peer);
    insert(&conn, "a", "A", "one");
    insert(&conn, "b", "B", "two");
    drop(conn);

    assert_eq!(merge_into(&local, &peer).unwrap().added(), 2);
    let once = titles(&local);
    assert_eq!(merge_into(&local, &peer).unwrap().added(), 0);
    assert_eq!(titles(&local), once);
    assert_eq!(hits(&local, "two"), 1);
}

#[test]
fn three_machines_converge_to_the_union() {
    let tmp = TempDir::new().unwrap();
    let paths = [
        tmp.path().join("a.db"),
        tmp.path().join("b.db"),
        tmp.path().join("c.db"),
    ];
    for (i, path) in paths.iter().enumerate() {
        let conn = make_db(path);
        insert(&conn, &format!("own-{i}"), &format!("Own {i}"), "body");
        insert(&conn, "z-shared", "Shared", "body");
    }
    for i in 0..3 {
        for j in 0..3 {
            if i != j {
                merge_into(&paths[i], &paths[j]).unwrap();
            }
        }
    }
    for path in &paths {
        assert_eq!(titles(path), vec!["Own 0", "Own 1", "Own 2", "Shared"]);
    }
}

#[test]
fn peer_path_with_a_quote_is_attached() {
    let tmp = TempDir::new().unwrap();
    let local = tmp.path().join("local.db");
    let peer = tmp.path().join("it's the peer.db");
    drop(make_db(&local));
    let conn = make_db(&peer);
    insert(&conn, "a", "A", "one");
    drop(conn);
    assert_eq!(merge_into(&local, &peer).unwrap().added(), 1);
}

#[test]
fn missing_tables_are_told_by_side() {
    let tmp = TempDir::new().unwrap();
    let full = tmp.path().join("full.db");
    let empty = tmp.path().join("empty.db");
    drop(make_db(&full));
    drop(Connection::open(&empty).unwrap());
    assert_eq!(
        merge_into(&empty, &full).unwrap_err().message(),
        "schema compatibility check: table `main.insights` not found or empty schema"
    );
    assert_eq!(
        merge_into(&full, &empty).unwrap_err().message(),
        "schema compatibility check: table `peer.insights` not found or empty schema"
    );
}

#[test]
fn missing_columns_are_listed_in_order() {
    let tmp = TempDir::new().unwrap();
    let a = tmp.path().join("a.db");
    let b = tmp.path().join("b.db");
    for p in [&a, &b] {
        Connection::open(p)
            .unwrap()
            .execute_batch("CREATE TABLE insights (commit_sha, commit_date, category, title, files, tags, source_type, pr_number, created_at);")
            .unwrap();
    }
    assert_eq!(
        merge_into(&a, &b).unwrap_err().message(),
        "schema compatibility check: diwa schema is missing expected columns we copy: \
         [\"body\", \"embedding\"]. diwa-sync needs an update."
    );
}

#[test]
fn unopenable_local_database_is_told_with_its_path() {
    let tmp = TempDir::new().unwrap();
    let peer = tmp.path().join("peer.db");
    drop(make_db(&peer));
    let nowhere = tmp.path().join("no-such-dir").join("local.db");
    let err = merge_into(&nowhere, &peer).unwrap_err();
    assert!(err
        .message()
        .starts_with(&format!("open local db {}: ", nowhere.display())));
}

#[test]
fn merge_without_search_table_fails_behind_the_commit() {
    let tmp = TempDir::new().unwrap();
    let local = tmp.path().join("local.db");
    let peer = tmp.path().join("peer.db");
    let conn = make_db(&local);
    conn.execute_batch("DROP TABLE insights_fts;").unwrap();
    drop(conn);
    let conn = make_db(&peer);
    insert(&conn, "a", "A", "one");
    conn.execute_batch("DROP TABLE insights_fts;").unwrap();
    drop(conn);
    let err = merge_into(&local, &peer).unwrap_err();
    assert!(matches!(err, MergeError::Rebuild { .. }));
    assert!(err.message().starts_with("rebuild FTS: "));
    assert_eq!(titles(&local), vec!["A"]);
}

fn text(s: &str) -> LocalPath {
    LocalPath { text: Some(s.to_string()), shown: s.to_string() }
}

fn all_columns() -> Vec<String> {
    let mut v = vec!["id".to_string()];
    v.extend(insight_cols());
    v
}

fn dedup_shape() -> IndexShape {
    IndexShape {
        unique: true,
        partial: false,
        columns: vec![
            Some("commit_sha".to_string()),
            Some("title".to_string()),
            Some("source_type".to_string()),
        ],
    }
}

/// A fitting reply to a request, on databases of two and three rows of which two
/// are new.
fn good_reply(merge: &Merge) -> MergeReply {
    match merge.request().unwrap() {
        MergeRequest::Columns { .. } => MergeReply::Columns { names: all_columns() },
        MergeRequest::Indexes { .. } => MergeReply::Indexes { indexes: vec![dedup_shape()] },
        MergeRequest::Count { sql } => MergeReply::Count {
            rows: if sql.contains("peer.") {
                3
            } else if matches!(merge.stage, MergeStage::Recounting { .. }) {
                4
            } else {
                2
            },
        },
        MergeRequest::Execute { .. } => MergeReply::Changed { changed: 2 },
        _ => MergeReply::Done,
    }
}

#[test]
fn requests_come_in_order_with_exact_text() {
    let mut merge = diwa_sync::merge::merge_into(text("/l/index.db"), text("/p/o'k.db"));
    let mut seen: Vec<String> = Vec::new();
    while let Some(request) = merge.request() {
        seen.push(match request {
            MergeRequest::Open => "open".to_string(),
            MergeRequest::BusyTimeout { seconds } => format!("timeout {seconds}"),
            MergeRequest::Batch { sql } => sql,
            MergeRequest::Columns { sql } => sql,
            MergeRequest::Indexes { sql } => sql,
            MergeRequest::Count { sql } => sql,
            MergeRequest::Execute { sql } => sql,
        });
        let reply = good_reply(&merge);
        merge = merge.advance(reply);
    }
    assert_eq!(
        seen,
        vec![
            "open",
            "timeout 30",
            "ATTACH DATABASE '/p/o''k.db' AS peer;",
            "PRAGMA main.table_info(insights)",
            "PRAGMA peer.table_info(insights)",
            "PRAGMA main.index_list(insights)",
            "SELECT count(*) FROM insights",
            "SELECT count(*) FROM peer.insights",
            "BEGIN IMMEDIATE;",
            "INSERT OR IGNORE INTO insights (commit_sha, commit_date, category, title, body, files, \
             tags, source_type, pr_number, embedding, created_at) SELECT commit_sha, commit_date, \
             category, title, body, files, tags, source_type, pr_number, embedding, created_at \
             FROM peer.insights",
            "COMMIT;",
            "SELECT count(*) FROM insights",
            "INSERT INTO insights_fts(insights_fts) VALUES('rebuild');",
            "DETACH DATABASE peer;",
        ]
    );
    let stats = merge.into_result().unwrap().unwrap();
    assert_eq!(
        stats,
        MergeStats { local_before: 2, peer_total: 3, local_after: 4 }
    );
}

#[test]
fn search_is_not_rebuilt_where_nothing_was_added() {
    let mut merge = diwa_sync::merge::merge_into(text("/l"), text("/p"));
    let mut rebuilt = false;
    while let Some(request) = merge.request() {
        if let MergeRequest::Batch { sql } = &request {
            rebuilt = rebuilt || sql.contains("rebuild");
        }
        let reply = match request {
            MergeRequest::Execute { .. } => MergeReply::Changed { changed: 0 },
            _ => good_reply(&merge),
        };
        merge = merge.advance(reply);
    }
    assert!(!rebuilt);
    assert!(merge.into_result().unwrap().is_ok());
}

#[test]
fn each_failing_request_ends_the_merge_in_its_words() {
    let expected = [
        "open local db /l: boom",
        "boom",
        "ATTACH peer database: boom",
        "schema compatibility check: boom",
        "schema compatibility check: boom",
        "schema compatibility check: boom",
        "boom",
        "boom",
        "boom",
        "boom",
        "boom",
        "boom",
        "rebuild FTS: boom",
    ];
    for (n, words) in expected.iter().enumerate() {
        let mut merge = diwa_sync::merge::merge_into(text("/l"), text("/p"));
        for _ in 0..n {
            let reply = good_reply(&merge);
            merge = merge.advance(reply);
        }
        merge = merge.advance(MergeReply::Failed { cause: "boom".to_string() });
        assert!(merge.request().is_none());
        assert_eq!(&merge.into_result().unwrap().unwrap_err().message(), words);
    }
    // Letting go of the peer's database may fail.
    let mut merge = diwa_sync::merge::merge_into(text("/l"), text("/p"));
    for _ in 0..expected.len() {
        let reply = good_reply(&merge);
        merge = merge.advance(reply);
    }
    merge = merge.advance(MergeReply::Failed { cause: "boom".to_string() });
    assert!(merge.into_result().unwrap().is_ok());
}

#[test]
fn peer_path_that_is_not_text_is_refused() {
    let path = LocalPath { text: None, shown: "?".to_string() };
    let merge = diwa_sync::merge::merge_into(text("/l"), path)
        .advance(MergeReply::Done)
        .advance(MergeReply::Done);
    assert_eq!(
        merge.into_result().unwrap().unwrap_err().message(),
        "peer db path is not valid UTF-8"
    );
}

#[test]
fn reply_to_another_request_leaves_the_merge_where_it_is() {
    let merge = diwa_sync::merge::merge_into(text("/l"), text("/p"))
        .advance(MergeReply::Count { rows: 3 });
    assert!(matches!(merge.request(), Some(MergeRequest::Open)));
    assert!(merge.into_result().is_none());
}

#[test]
fn sql_text_helpers() {
    assert_eq!(escape_sql("it's 'so'"), "it''s ''so''");
    assert_eq!(escape_sql("plain"), "plain");
    assert_eq!(attach_sql("/tmp/a'b"), "ATTACH DATABASE '/tmp/a''b' AS peer;");
    assert_eq!(index_columns_sql("i'x"), "PRAGMA main.index_info('i''x')");
    assert!(insert_sql().starts_with("INSERT OR IGNORE INTO insights (commit_sha, "));
    assert_eq!(
        table_columns_sql("main", "insights").unwrap(),
        "PRAGMA main.table_info(insights)"
    );
    assert_eq!(
        table_columns_sql("ma in", "insights").unwrap_err().message(),
        "invalid schema identifier: ma in"
    );
    assert_eq!(
        table_columns_sql("main", "insights;").unwrap_err().message(),
        "invalid table identifier: insights;"
    );
}

#[test]
fn escaped_text_is_read_back_by_sqlite() {
    let conn = Connection::open_in_memory().unwrap();
    for s in ["", "'", "''", "it's", "a'b''c", "\"quoted\"", "\u{e9}'\u{4e2d}"] {
        let back: String = conn
            .query_row(&format!("SELECT '{}'", escape_sql(s)), [], |r| r.get(0))
            .unwrap();
        assert_eq!(back, s);
    }
}

#[test]
fn schema_checks_on_plain_values() {
    let cols = all_columns();
    assert!(schema_compatible(&cols, &cols).is_ok());

    let fewer: Vec<String> = cols.iter().filter(|c| *c != "embedding").cloned().collect();
    let err = schema_compatible(&vec!["a".to_string()], &vec!["b\"".to_string()]).unwrap_err();
    assert_eq!(
        err.message(),
        "schema mismatch on `insights`: local=[\"a\"], peer=[\"b\\\"\"]"
    );
    match schema_compatible(&fewer, &fewer).unwrap_err() {
        SchemaProblem::MissingColumns { missing } => assert_eq!(missing, vec!["embedding"]),
        other => panic!("unexpected: {other:?}"),
    }
    assert_eq!(
        table_columns("peer", "insights", vec![]).unwrap_err().message(),
        "table `peer.insights` not found or empty schema"
    );
    assert_eq!(table_columns("peer", "insights", cols.clone()).unwrap(), cols);
    assert!(dedup_index(&vec![dedup_shape()]).is_ok());
    assert!(dedup_index(&vec![]).is_err());
    assert!(dedup_index(&vec![IndexShape { unique: false, ..dedup_shape() }]).is_err());
    assert!(dedup_index(&vec![IndexShape { partial: true, ..dedup_shape() }]).is_err());
}

#[test]
fn added_is_the_difference_of_the_counts() {
    let stats = MergeStats { local_before: 5, peer_total: 9, local_after: 12 };
    assert_eq!(stats.added(), 7);
}

#[test]
fn merge_copies_no_ids_and_leaves_other_tables() {
    let tmp = TempDir::new().unwrap();
    let local = tmp.path().join("local.db");
    let peer = tmp.path().join("peer.db");
    let conn = make_db(&local);
    insert(&conn, "a", "A", "one");
    conn.execute_batch("INSERT INTO meta VALUES ('k', 'local');").unwrap();
    drop(conn);
    let conn = make_db(&peer);
    insert(&conn, "b", "B", "two");
    conn.execute_batch(
        "UPDATE insights SET id = 70;
         INSERT INTO meta VALUES ('k', 'peer'), ('other', 'peer');",
    )
    .unwrap();
    drop(conn);

    assert_eq!(merge_into(&local, &peer).unwrap().added(), 1);
    let conn = Connection::open(&local).unwrap();
    let id = |sha: &str| -> i64 {
        conn.query_row("SELECT id FROM insights WHERE commit_sha = ?1", [sha], |r| r.get(0))
            .unwrap()
    };
    assert_eq!(id("a"), 1);
    assert_eq!(id("b"), 2);
    assert_eq!(names(&conn, "SELECT value FROM meta ORDER BY key", 0).unwrap(), vec!["local"]);
    assert!(!insight_cols().contains(&"id".to_string()));
}
