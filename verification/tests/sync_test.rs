use diwa_sync::config::DEFAULT_BODY;
use diwa_sync::merge::MergeStats;
use diwa_sync::state::State;
use std::collections::{BTreeMap, BTreeSet};
use diwa_sync::sync::{
    acquire_lock, cmd_init, hostname, index_file, init_hint, is_repo_dir, list_local_repos,
    no_config_message, plan, select_peers, Job, JobReply, JobRequest, LocalEntry, LockAttempt,
    MergeTarget, RepoAction, Run, RunEnd, RunReply, RunRequest, Totals,
};

fn owned(list: &[&str]) -> Vec<String> {
    list.iter().map(|s| s.to_string()).collect()
}

fn local_entry(name: &str, is_dir: bool, index_size: Option<u64>) -> LocalEntry {
    LocalEntry { name: name.to_string(), is_dir, index_size }
}

#[test]
fn local_repos_are_directories_with_an_index() {
    let entries = vec![
        local_entry("zeta", true, Some(10)),
        local_entry("queue", true, None),
        local_entry("empty", true, Some(0)),
        local_entry("repos.json", false, Some(5)),
        local_entry("bad key", true, Some(5)),
        local_entry("Alpha", true, Some(1)),
    ];
    assert_eq!(list_local_repos(Some(&entries)), owned(&["Alpha", "zeta"]));
    assert!(list_local_repos(None).is_empty());
    assert!(is_repo_dir("zeta", true));
    assert!(!is_repo_dir("zeta", false));
    assert!(!is_repo_dir("bad key", true));
    assert_eq!(index_file("zeta"), "zeta/index.db");
}

#[test]
fn plan_takes_each_repo_of_either_side_once() {
    let planned: Vec<(String, RepoAction)> = plan(&owned(&["a", "c", "d"]), &owned(&["b", "c"]))
        .into_iter()
        .map(|p| (p.key, p.action))
        .collect();
    assert_eq!(
        planned,
        vec![
            ("a".to_string(), RepoAction::PushSeed),
            ("b".to_string(), RepoAction::PullInit),
            ("c".to_string(), RepoAction::Merge),
            ("d".to_string(), RepoAction::PushSeed),
        ]
    );
    assert!(plan(&vec![], &vec![]).is_empty());
    assert_eq!(plan(&owned(&["a", "a"]), &owned(&["a"])).len(), 1);
}

#[test]
fn peers_are_selected_in_the_order_of_the_configuration() {
    let peers = owned(&["a", "b", "c"]);
    assert_eq!(select_peers(&peers, &vec![]), peers);
    assert_eq!(select_peers(&peers, &owned(&["c", "x", "a"])), owned(&["a", "c"]));
    assert!(select_peers(&peers, &owned(&["x"])).is_empty());
}

fn stats() -> MergeStats {
    MergeStats { local_before: 1, peer_total: 2, local_after: 3 }
}

fn job_text(q: &JobRequest) -> String {
    match q {
        JobRequest::Snapshot { to } => format!("snapshot {to}"),
        JobRequest::LocalSnapshot { to } => format!("backup {to}"),
        JobRequest::Merge { target: MergeTarget::Live, from } => format!("merge live {from}"),
        JobRequest::Merge { target: MergeTarget::Copy { name }, from } => {
            format!("merge {name} {from}")
        }
        JobRequest::Record { local_after } => format!("record {local_after}"),
        JobRequest::MakeDir => "mkdir".to_string(),
        JobRequest::Install { from } => format!("install {from}"),
        JobRequest::Push { from } => format!("push {from}"),
    }
}

/// The requests of a job whose `fails`th request fails.
fn work(action: RepoAction, dry_run: bool, fails: usize) -> (Vec<String>, Result<(), String>) {
    let mut job = Job::new("host", "key", action, dry_run);
    let mut seen = Vec::new();
    while let Some(q) = job.request() {
        let reply = if seen.len() == fails {
            JobReply::Failed { cause: "boom".to_string() }
        } else if matches!(q, JobRequest::Merge { .. }) {
            JobReply::Merged { stats: stats() }
        } else {
            JobReply::Done
        };
        seen.push(job_text(&q));
        job = job.advance(reply);
    }
    (seen, job.into_result().unwrap())
}

const NEVER: usize = 99;

#[test]
fn merge_job_fetches_merges_and_records() {
    let (seen, result) = work(RepoAction::Merge, false, NEVER);
    assert_eq!(
        seen,
        owned(&["snapshot host-key.peer.db", "merge live host-key.peer.db", "record 3"])
    );
    assert_eq!(result, Ok(()));
}

#[test]
fn dry_merge_job_works_on_a_copy() {
    let (seen, result) = work(RepoAction::Merge, true, NEVER);
    assert_eq!(
        seen,
        owned(&[
            "snapshot host-key.peer.db",
            "backup host-key.local.db",
            "merge host-key.local.db host-key.peer.db",
        ])
    );
    assert_eq!(result, Ok(()));
}

#[test]
fn pull_job_installs_the_snapshot() {
    let (seen, result) = work(RepoAction::PullInit, false, NEVER);
    assert_eq!(
        seen,
        owned(&["snapshot host-key.peer.db", "mkdir", "install host-key.peer.db"])
    );
    assert_eq!(result, Ok(()));
}

#[test]
fn push_job_backs_up_and_pushes() {
    let (seen, result) = work(RepoAction::PushSeed, false, NEVER);
    assert_eq!(
        seen,
        owned(&["backup host-key.local-seed.db", "push host-key.local-seed.db"])
    );
    assert_eq!(result, Ok(()));
}

#[test]
fn dry_pull_and_push_jobs_do_nothing() {
    for action in [RepoAction::PullInit, RepoAction::PushSeed] {
        assert_eq!(work(action, true, NEVER), (vec![], Ok(())));
    }
}

#[test]
fn each_failing_step_ends_a_job() {
    for (action, dry_run, steps) in [
        (RepoAction::Merge, false, 3),
        (RepoAction::Merge, true, 3),
        (RepoAction::PullInit, false, 3),
        (RepoAction::PushSeed, false, 2),
    ] {
        for n in 0..steps {
            let (seen, result) = work(action, dry_run, n);
            assert_eq!(seen.len(), n + 1);
            assert_eq!(result, Err("boom".to_string()));
        }
    }
    assert!(Job::new("h", "k", RepoAction::Merge, false).into_result().is_none());
}

fn run_text(q: &RunRequest) -> String {
    match q {
        RunRequest::CheckConfig => "check".to_string(),
        RunRequest::LoadConfig => "config".to_string(),
        RunRequest::Lock => "lock".to_string(),
        RunRequest::LoadState => "state".to_string(),
        RunRequest::MakeStaging => "staging".to_string(),
        RunRequest::Probe { host } => format!("probe {host}"),
        RunRequest::ListLocal => "local".to_string(),
        RunRequest::ListPeer { host } => format!("list {host}"),
        RunRequest::Repo { host, key, action } => format!("{action:?} {host} {key}"),
        RunRequest::SaveState => "save".to_string(),
    }
}

/// A mesh of three peers: `a` answers, `b` is unreachable, and `c` cannot be
/// listed. Work on the repo `two` fails.
fn mesh_reply(q: &RunRequest) -> RunReply {
    let failed = || RunReply::Failed { cause: "boom".to_string() };
    match q {
        RunRequest::CheckConfig => RunReply::Yes,
        RunRequest::LoadConfig => RunReply::Names { names: owned(&["a", "b", "c"]) },
        RunRequest::Probe { host } if host == "b" => RunReply::No,
        RunRequest::Probe { .. } => RunReply::Yes,
        RunRequest::ListLocal => RunReply::Names { names: owned(&["one", "two"]) },
        RunRequest::ListPeer { host } if host == "c" => failed(),
        RunRequest::ListPeer { .. } => RunReply::Names { names: owned(&["three", "two"]) },
        RunRequest::Repo { key, .. } if key == "two" => failed(),
        _ => RunReply::Done,
    }
}

fn drive(
    dry_run: bool,
    only: &[&str],
    reply: impl Fn(&RunRequest) -> RunReply,
) -> (Vec<String>, Totals, RunEnd) {
    let mut run = Run::new(dry_run, owned(only));
    let mut seen = Vec::new();
    while let Some(q) = run.request() {
        seen.push(run_text(&q));
        assert!(run.totals.has_room());
        run = run.advance(reply(&q));
    }
    let totals = run.totals;
    (seen, totals, run.into_end().unwrap())
}

#[test]
fn run_visits_every_peer_and_counts() {
    let (seen, totals, end) = drive(false, &[], mesh_reply);
    assert_eq!(
        seen,
        owned(&[
            "check",
            "config",
            "lock",
            "state",
            "staging",
            "probe a",
            "local",
            "list a",
            "PushSeed a one",
            "PullInit a three",
            "Merge a two",
            "probe b",
            "probe c",
            "local",
            "list c",
            "save",
        ])
    );
    assert_eq!(
        totals,
        Totals { merged: 0, pulled: 1, pushed: 1, peers_skipped: 2, errors: 1 }
    );
    assert!(matches!(end, RunEnd::Completed));
}

#[test]
fn dry_run_does_not_save() {
    let (seen, _, end) = drive(true, &["a"], mesh_reply);
    assert_eq!(seen.last().unwrap(), "Merge a two");
    assert!(!seen.contains(&"save".to_string()));
    assert!(matches!(end, RunEnd::Completed));
}

#[test]
fn run_is_limited_to_the_peers_asked_for() {
    let (seen, totals, _) = drive(false, &["b", "x"], mesh_reply);
    assert_eq!(
        seen,
        owned(&["check", "config", "lock", "state", "staging", "probe b", "save"])
    );
    assert_eq!(totals, Totals { peers_skipped: 1, ..Totals::default() });
}

#[test]
fn run_without_peers_ends_well() {
    let (seen, totals, end) = drive(false, &["x"], mesh_reply);
    assert_eq!(seen, owned(&["check", "config", "lock", "state"]));
    assert_eq!(totals, Totals::default());
    assert!(matches!(end, RunEnd::NoPeers));
}

#[test]
fn run_without_config_is_an_error() {
    let (seen, _, end) = drive(false, &[], |_| RunReply::No);
    assert_eq!(seen, owned(&["check"]));
    assert!(matches!(end, RunEnd::NoConfig));
    assert_eq!(
        no_config_message("/c.toml"),
        "no config at /c.toml; run `diwa-sync init` first"
    );
}

#[test]
fn refused_lock_ends_the_run() {
    let (seen, _, end) = drive(false, &[], |q| match q {
        RunRequest::Lock => RunReply::Failed { cause: "held".to_string() },
        _ => mesh_reply(q),
    });
    assert_eq!(seen, owned(&["check", "config", "lock"]));
    match end {
        RunEnd::Locked { cause } => assert_eq!(cause, "held"),
        other => panic!("unexpected: {other:?}"),
    }
}

#[test]
fn fatal_failures_end_the_run() {
    for fatal in ["config", "state", "staging", "local", "save"] {
        let (seen, _, end) = drive(false, &[], |q| {
            if run_text(q) == fatal {
                RunReply::Failed { cause: "boom".to_string() }
            } else {
                mesh_reply(q)
            }
        });
        assert_eq!(seen.last().unwrap(), fatal);
        match end {
            RunEnd::Failed { cause } => assert_eq!(cause, "boom"),
            other => panic!("unexpected: {other:?}"),
        }
    }
}

#[test]
fn peer_without_repos_is_passed_by() {
    let (seen, totals, end) = drive(false, &["a"], |q| match q {
        RunRequest::ListLocal | RunRequest::ListPeer { .. } => RunReply::Names { names: vec![] },
        _ => mesh_reply(q),
    });
    assert_eq!(seen.last().unwrap(), "save");
    assert_eq!(totals, Totals::default());
    assert!(matches!(end, RunEnd::Completed));
}

#[test]
fn unfitting_reply_leaves_the_run_where_it_is() {
    let run = Run::new(false, vec![]).advance(RunReply::Done);
    assert!(matches!(run.request(), Some(RunRequest::CheckConfig)));
    assert!(run.into_end().is_none());
}

#[test]
fn full_counters_have_no_room() {
    assert!(Totals::default().has_room());
    assert!(!Totals { errors: u32::MAX, ..Totals::default() }.has_room());
}

#[test]
fn init_leaves_a_config_alone() {
    assert_eq!(cmd_init(true), None);
    assert_eq!(cmd_init(false).unwrap(), DEFAULT_BODY);
    assert_eq!(
        init_hint("/c.toml"),
        "next: edit /c.toml to add SSH peer aliases, then run: diwa-sync --dry-run"
    );
}

#[test]
fn lock_is_ours_only_where_we_made_it() {
    assert_eq!(acquire_lock(&LockAttempt::Made, "/l"), Ok(()));
    assert_eq!(
        acquire_lock(&LockAttempt::Exists, "/l"),
        Err("lock /l already held".to_string())
    );
    assert_eq!(
        acquire_lock(&LockAttempt::Failed { cause: "denied".to_string() }, "/l"),
        Err("denied".to_string())
    );
}

#[test]
fn hostname_is_trimmed_or_unknown() {
    assert_eq!(hostname(Some(b"laptop\n".to_vec())), "laptop");
    assert_eq!(hostname(Some(vec![0xff])), "unknown");
    assert_eq!(hostname(Some(vec![])), "");
    assert_eq!(hostname(None), "unknown");
}

/// Does the work on a repo against a state; merges of the repo `two` fail.
fn work_on(state: &mut State, host: &str, key: &str, action: RepoAction, dry_run: bool) -> RunReply {
    let mut job = Job::new(host, key, action, dry_run);
    while let Some(q) = job.request() {
        let reply = match q {
            JobRequest::Merge { .. } if key == "two" => {
                JobReply::Failed { cause: "boom".to_string() }
            }
            JobRequest::Merge { .. } => JobReply::Merged { stats: stats() },
            JobRequest::Record { local_after } => {
                state.record_at(host, key, local_after, "now".to_string());
                JobReply::Done
            }
            _ => JobReply::Done,
        };
        job = job.advance(reply);
    }
    match job.into_result().unwrap() {
        Ok(()) => RunReply::Done,
        Err(cause) => RunReply::Failed { cause },
    }
}

fn remembered(state: &State, peer: &str, repo: &str) -> Option<(String, i64)> {
    let r = state.peers.get(peer)?.repos.get(repo)?;
    Some((r.last_merged_at.clone()?, r.last_local_after?))
}

/// The bookkeeping behind a run, and whether it was saved.
fn keep_books(dry_run: bool) -> (State, bool) {
    let mut state = State::default();
    state.record_at("a", "one", 1, "before".to_string());
    state.record_at("a", "two", 2, "before".to_string());
    let mut saved = false;
    let mut run = Run::new(dry_run, vec![]);
    while let Some(q) = run.request() {
        let reply = match &q {
            RunRequest::LoadConfig => RunReply::Names { names: owned(&["a"]) },
            RunRequest::ListLocal => RunReply::Names { names: owned(&["here", "one", "two"]) },
            RunRequest::ListPeer { .. } => RunReply::Names { names: owned(&["one", "there", "two"]) },
            RunRequest::Repo { host, key, action } => {
                work_on(&mut state, host, key, *action, dry_run)
            }
            RunRequest::SaveState => {
                saved = true;
                RunReply::Done
            }
            _ => mesh_reply(&q),
        };
        run = run.advance(reply);
    }
    (state, saved)
}

#[test]
fn run_records_just_the_merges_that_succeeded() {
    let (state, saved) = keep_books(false);
    assert!(saved);
    assert_eq!(remembered(&state, "a", "one"), Some(("now".to_string(), 3)));
    assert_eq!(remembered(&state, "a", "two"), Some(("before".to_string(), 2)));
    assert_eq!(remembered(&state, "a", "here"), None);
    assert_eq!(remembered(&state, "a", "there"), None);
}

#[test]
fn dry_run_records_nothing() {
    let (state, saved) = keep_books(true);
    assert!(!saved);
    assert_eq!(remembered(&state, "a", "one"), Some(("before".to_string(), 1)));
    assert_eq!(remembered(&state, "a", "two"), Some(("before".to_string(), 2)));
}

type Machine = BTreeMap<String, BTreeSet<u32>>;

fn machine(repos: &[(&str, &[u32])]) -> Machine {
    repos
        .iter()
        .map(|(k, rows)| (k.to_string(), rows.iter().copied().collect()))
        .collect()
}

/// Works on every repo of two machines, as planned.
fn visit(node: &mut Machine, peer: &mut Machine, dry_run: bool) {
    let local: Vec<String> = node.keys().cloned().collect();
    let remote: Vec<String> = peer.keys().cloned().collect();
    let mut staged: Machine = BTreeMap::new();
    for repo in plan(&local, &remote) {
        let mut job = Job::new("host", &repo.key, repo.action, dry_run);
        while let Some(q) = job.request() {
            let mut reply = JobReply::Done;
            match q {
                JobRequest::Snapshot { to } => {
                    staged.insert(to, peer[&repo.key].clone());
                }
                JobRequest::LocalSnapshot { to } => {
                    staged.insert(to, node[&repo.key].clone());
                }
                JobRequest::Merge { target, from } => {
                    let rows = staged[&from].clone();
                    match target {
                        MergeTarget::Live => node.get_mut(&repo.key).unwrap().extend(rows),
                        MergeTarget::Copy { name } => {
                            staged.get_mut(&name).unwrap().extend(rows)
                        }
                    }
                    reply = JobReply::Merged { stats: stats() };
                }
                JobRequest::Install { from } => {
                    node.insert(repo.key.clone(), staged[&from].clone());
                }
                JobRequest::Push { from } => {
                    peer.insert(repo.key.clone(), staged[&from].clone());
                }
                JobRequest::Record { .. } | JobRequest::MakeDir => {}
            }
            job = job.advance(reply);
        }
        assert_eq!(job.into_result().unwrap(), Ok(()));
    }
}

#[test]
fn visit_merges_pulls_and_pushes() {
    let before = machine(&[("both", &[1, 2]), ("here", &[3])]);
    let there = machine(&[("both", &[2, 4]), ("there", &[5])]);
    let (mut node, mut peer) = (before.clone(), there.clone());
    visit(&mut node, &mut peer, true);
    assert_eq!((&node, &peer), (&before, &there));
    visit(&mut node, &mut peer, false);
    assert_eq!(node, machine(&[("both", &[1, 2, 4]), ("here", &[3]), ("there", &[5])]));
    assert_eq!(peer, machine(&[("both", &[2, 4]), ("here", &[3]), ("there", &[5])]));
    visit(&mut peer, &mut node, false);
    assert_eq!(node, peer);
}
