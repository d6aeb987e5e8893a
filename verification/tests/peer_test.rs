use diwa_sync::command::{Invocation, LocalPath, Outcome};
use diwa_sync::peer::{
    is_reachable, is_reachable_command, list_repos, list_repos_command, local_snapshot,
    local_snapshot_command, push_seed, remote_rm, shell_quote, snapshot, ssh_args,
    validate_repo_key, PeerError, Seed, Snapshot,
};

fn ended(success: bool, stdout: &[u8], stderr: &[u8]) -> Outcome {
    let status = if success { "exit status: 0" } else { "exit status: 1" };
    Outcome::Ended {
        success,
        status: status.to_string(),
        stdout: stdout.to_vec(),
        stderr: stderr.to_vec(),
    }
}

fn fine() -> Outcome {
    ended(true, b"", b"")
}

fn bad() -> Outcome {
    ended(false, b"", b"")
}

fn not_started() -> Outcome {
    Outcome::NotStarted { cause: "No such file".to_string() }
}

fn at(path: &str) -> LocalPath {
    LocalPath { text: Some(path.to_string()), shown: path.to_string() }
}

fn nowhere() -> LocalPath {
    LocalPath { text: None, shown: "/stage/\u{fffd}".to_string() }
}

const OPTIONS: [&str; 10] = [
    "-o",
    "BatchMode=yes",
    "-o",
    "ConnectTimeout=5",
    "-o",
    "ControlMaster=auto",
    "-o",
    "ControlPersist=60s",
    "-o",
    "ControlPath=~/.ssh/diwa-sync-cm-%C",
];

fn ssh(host: &str, script: &str) -> Vec<String> {
    let mut v: Vec<String> = vec!["/usr/bin/ssh".to_string()];
    v.extend(OPTIONS.iter().map(|s| s.to_string()));
    v.push(host.to_string());
    v.push(script.to_string());
    v
}

fn words(i: Invocation) -> Vec<String> {
    let mut v = vec![i.program];
    v.extend(i.args);
    v
}

fn rsync(from: &str, to: &str) -> Vec<String> {
    ["/usr/bin/rsync", "-a", "--timeout=30", from, to]
        .iter()
        .map(|s| s.to_string())
        .collect()
}

#[test]
fn ssh_options_end_with_the_host() {
    let args = ssh_args("host-a");
    assert_eq!(args.len(), 11);
    assert_eq!(args[..10], OPTIONS);
    assert_eq!(args[10], "host-a");
}

#[test]
fn good_keys_are_accepted() {
    assert!(validate_repo_key("Dorky-Robot--humOS").is_ok());
    assert!(validate_repo_key("a.b_c-9").is_ok());
    assert!(validate_repo_key(&"k".repeat(200)).is_ok());
}

#[test]
fn bad_keys_are_refused_with_the_reason() {
    let empty = validate_repo_key("").unwrap_err();
    assert!(matches!(empty, PeerError::KeyLength { .. }));
    assert_eq!(empty.message(), "invalid repo key length: \"\"");

    let long = "k".repeat(201);
    let err = validate_repo_key(&long).unwrap_err();
    assert_eq!(err.message(), format!("invalid repo key length: {long:?}"));
    // The limit counts bytes.
    let wide = "\u{e9}".repeat(101);
    assert!(matches!(
        validate_repo_key(&wide).unwrap_err(),
        PeerError::KeyLength { .. }
    ));

    for key in ["a b", "a/b", "$(rm)", "a'b", "a\"b", "a;b", "\u{e9}", "a\n", "a\tb"] {
        let err = validate_repo_key(key).unwrap_err();
        assert!(matches!(err, PeerError::KeyCharacters { .. }));
        assert_eq!(
            err.message(),
            format!("invalid characters in repo key: {key:?}")
        );
    }
}

#[test]
fn shell_quoting_escapes_single_quotes() {
    assert_eq!(shell_quote("plain"), "'plain'");
    assert_eq!(shell_quote("it's"), "'it'\\''s'");
    assert_eq!(shell_quote(""), "''");
    assert_eq!(shell_quote("$x `y` \"z\""), "'$x `y` \"z\"'");
}

#[test]
fn reachability_is_success() {
    assert_eq!(words(is_reachable_command("host-a")), ssh("host-a", "true"));
    assert!(is_reachable(&fine()));
    assert!(!is_reachable(&bad()));
    assert!(!is_reachable(&not_started()));
}

#[test]
fn listing_command_finds_indexes() {
    let script = "cd \"$HOME/.diwa\" 2>/dev/null && \\\n           /usr/bin/find . -mindepth 2 \
                  -maxdepth 2 -type f -name index.db -size +0c \\\n             -exec dirname {} \\; \
                  | sed 's|^\\./||'";
    assert_eq!(words(list_repos_command("host-a")), ssh("host-a", script));
}

#[test]
fn listing_is_trimmed_filtered_and_sorted() {
    let out = ended(true, b"zeta\r\n  alpha \n\nbad key\n../up\nBeta\nalpha\n", b"");
    let keys = list_repos("host-a", &out).unwrap();
    assert_eq!(keys, vec!["Beta", "alpha", "alpha", "zeta"]);
    assert!(list_repos("host-a", &fine()).unwrap().is_empty());
}

#[test]
fn listing_of_valid_keys_is_read_back() {
    let keys = vec!["a", "b.c", "d--e"];
    let out = ended(true, format!("{}\n", keys.join("\n")).as_bytes(), b"");
    assert_eq!(list_repos("host-a", &out).unwrap(), keys);
}

#[test]
fn listing_drops_lines_that_are_not_utf8() {
    let out = ended(true, b"good\nb\xffd\n", b"");
    assert_eq!(list_repos("host-a", &out).unwrap(), vec!["good"]);
}

#[test]
fn failed_listing_tells_host_status_and_output() {
    let err = list_repos("host-a", &ended(false, b"", b"denied \xff")).unwrap_err();
    assert_eq!(
        err.message(),
        "ssh list_repos on host-a exited exit status: 1: denied \u{fffd}"
    );
    assert_eq!(
        list_repos("host-a", &not_started()).unwrap_err().message(),
        "ssh list_repos: No such file"
    );
}

#[test]
fn removal_is_refused_outside_the_snapshots() {
    assert_eq!(
        words(remote_rm("host-a", "/tmp/diwa-sync-snap.a'b").unwrap()),
        ssh("host-a", "rm -f '/tmp/diwa-sync-snap.a'\\''b'")
    );
    assert_eq!(
        remote_rm("host-a", "/etc/passwd").unwrap_err().message(),
        "refusing to rm non-snapshot path: /etc/passwd"
    );
}

fn run(mut s: Snapshot, outcomes: Vec<Outcome>) -> (Vec<Vec<String>>, Result<(), PeerError>) {
    let mut seen = Vec::new();
    for outcome in outcomes {
        seen.push(words(s.command().unwrap()));
        s = s.advance(outcome);
    }
    assert!(s.command().is_none());
    (seen, s.into_result().unwrap())
}

fn create_script(key: &str) -> String {
    format!(
        "set -e\ntmp=$(mktemp /tmp/diwa-sync-snap.XXXXXX) || exit 1\ntrap 'rm -f \"$tmp\"' ERR\n\
         sqlite3 -cmd \"PRAGMA busy_timeout=30000\" \"$HOME/.diwa/{key}/index.db\" \".backup \
         '$tmp'\" >/dev/null\necho \"$tmp\"\n"
    )
}

fn made() -> Outcome {
    ended(true, b"/tmp/diwa-sync-snap.Ab12\n", b"")
}

#[test]
fn snapshot_is_made_copied_and_removed() {
    let (seen, result) = run(
        snapshot("host-a", "k", at("/stage/k.db")),
        vec![made(), fine(), fine()],
    );
    assert!(result.is_ok());
    assert_eq!(
        seen,
        vec![
            ssh("host-a", &create_script("k")),
            rsync("host-a:/tmp/diwa-sync-snap.Ab12", "/stage/k.db"),
            ssh("host-a", "rm -f '/tmp/diwa-sync-snap.Ab12'"),
        ]
    );
}

#[test]
fn failed_removal_does_not_fail_the_snapshot() {
    for outcome in [bad(), not_started()] {
        let (_, result) = run(
            snapshot("host-a", "k", at("/stage/k.db")),
            vec![made(), fine(), outcome],
        );
        assert!(result.is_ok());
    }
}

#[test]
fn failed_copy_is_cleaned_up_and_told() {
    let (seen, result) = run(
        snapshot("host-a", "k", at("/stage/k.db")),
        vec![made(), bad(), fine()],
    );
    assert_eq!(seen[2], ssh("host-a", "rm -f '/tmp/diwa-sync-snap.Ab12'"));
    assert_eq!(
        result.unwrap_err().message(),
        "rsync from host-a:/tmp/diwa-sync-snap.Ab12 \u{2192} /stage/k.db failed: exit status: 1"
    );
}

#[test]
fn snapshot_failures_are_told() {
    let start = || snapshot("host-a", "k", at("/stage/k.db"));
    let message = |outcomes| run(start(), outcomes).1.unwrap_err().message();
    assert_eq!(message(vec![not_started()]), "ssh snapshot create: No such file");
    assert_eq!(
        message(vec![ended(false, b"", b"locked")]),
        "snapshot create on host-a:k exited exit status: 1: locked"
    );
    assert_eq!(
        message(vec![ended(true, b"\xff", b"")]),
        "snapshot path not utf8: invalid utf-8 sequence of 1 bytes from index 0"
    );
    assert_eq!(
        message(vec![ended(true, b"/etc/passwd\n", b"")]),
        "unexpected snapshot path from host-a: \"/etc/passwd\""
    );
    assert_eq!(
        message(vec![fine()]),
        "unexpected snapshot path from host-a: \"\""
    );
    assert_eq!(message(vec![made(), not_started()]), "rsync snapshot: No such file");
    assert_eq!(
        run(snapshot("host-a", "k", nowhere()), vec![made()])
            .1
            .unwrap_err()
            .message(),
        "dest path not utf8: /stage/\u{fffd}"
    );
    assert_eq!(
        run(snapshot("host-a", "a b", at("/x")), vec![])
            .1
            .unwrap_err()
            .message(),
        "invalid characters in repo key: \"a b\""
    );
}

#[test]
fn unfinished_snapshot_has_no_result() {
    assert!(snapshot("host-a", "k", at("/x")).into_result().is_none());
}

fn run_seed(mut s: Seed, outcomes: Vec<Outcome>) -> (Vec<Vec<String>>, Result<(), PeerError>) {
    let mut seen = Vec::new();
    for outcome in outcomes {
        seen.push(words(s.command().unwrap()));
        s = s.advance(outcome);
    }
    assert!(s.command().is_none());
    (seen, s.into_result().unwrap())
}

#[test]
fn seed_makes_the_directory_and_copies() {
    let (seen, result) = run_seed(push_seed("host-a", "k", at("/stage/k.db")), vec![fine(), fine()]);
    assert!(result.is_ok());
    assert_eq!(
        seen,
        vec![
            ssh("host-a", "mkdir -p \"$HOME/.diwa/k\""),
            rsync("/stage/k.db", "host-a:.diwa/k/index.db"),
        ]
    );
}

#[test]
fn seed_failures_are_told() {
    let message = |outcomes| {
        run_seed(push_seed("host-a", "k", at("/stage/k.db")), outcomes)
            .1
            .unwrap_err()
            .message()
    };
    assert_eq!(message(vec![not_started()]), "ssh mkdir for push_seed: No such file");
    assert_eq!(message(vec![bad()]), "mkdir on host-a:.diwa/k failed");
    assert_eq!(message(vec![fine(), not_started()]), "rsync push_seed: No such file");
    assert_eq!(
        message(vec![fine(), bad()]),
        "rsync /stage/k.db \u{2192} host-a:.diwa/k/index.db failed: exit status: 1"
    );
    assert_eq!(
        run_seed(push_seed("host-a", "k", nowhere()), vec![fine()])
            .1
            .unwrap_err()
            .message(),
        "src path not utf8: /stage/\u{fffd}"
    );
    assert_eq!(
        run_seed(push_seed("host-a", "", at("/x")), vec![])
            .1
            .unwrap_err()
            .message(),
        "invalid repo key length: \"\""
    );
    assert!(push_seed("host-a", "k", at("/x")).into_result().is_none());
}

#[test]
fn local_backup_command_quotes_the_target() {
    let i = local_snapshot_command(&at("/d/k/index.db"), &at("/stage/it's.db")).unwrap();
    assert_eq!(
        words(i),
        vec![
            "/usr/bin/sqlite3",
            "-cmd",
            "PRAGMA busy_timeout=30000",
            "/d/k/index.db",
            ".backup '/stage/it''s.db'",
        ]
    );
    assert_eq!(
        local_snapshot_command(&nowhere(), &nowhere()).unwrap_err().message(),
        "local db path not utf8: /stage/\u{fffd}"
    );
    assert_eq!(
        local_snapshot_command(&at("/d"), &nowhere()).unwrap_err().message(),
        "dest path not utf8: /stage/\u{fffd}"
    );
}

#[test]
fn local_backup_outcomes() {
    assert!(local_snapshot(fine()).is_ok());
    assert_eq!(
        local_snapshot(bad()).unwrap_err().message(),
        "local sqlite3 .backup failed: exit status: 1"
    );
    assert_eq!(
        local_snapshot(not_started()).unwrap_err().message(),
        "sqlite3 .backup local: No such file"
    );
}
