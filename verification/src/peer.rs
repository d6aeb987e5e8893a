//! What is asked of a peer, and what its answers mean.

use vstd::prelude::*;
use vstd::utf8::{decode_utf8, encode_utf8, valid_utf8};

use crate::command::{invocation_view, Invocation, LocalPath, Outcome};
use crate::merge::{lemma_escape_read_back, sql_escaped, sql_string};
use crate::text;
use crate::text::{
    lemma_line_end, lemma_trim_keeps, line_end, lines_of, lossy_text, quoted, replaced, sorted, texts,
    trimmed, utf8_fault, white_space, without_return,
};

verus! {

// ---------------------------------------------------------------------------
// Errors
// ---------------------------------------------------------------------------

/// Why something asked of a peer failed.
#[derive(Debug)]
pub enum PeerError<S = String> {
    KeyLength { key: S },
    KeyCharacters { key: S },
    ListNotStarted { cause: S },
    ListFailed { host: S, status: S, stderr: S },
    SnapshotNotStarted { cause: S },
    SnapshotFailed { host: S, key: S, status: S, stderr: S },
    SnapshotPathNotUtf8 { cause: S },
    SnapshotPathUnexpected { host: S, path: S },
    DestNotUtf8 { shown: S },
    CopyNotStarted { cause: S },
    CopyFailed { from: S, to: S, status: S },
    RemoveRefused { path: S },
    MkdirNotStarted { cause: S },
    MkdirFailed { host: S, key: S },
    SourceNotUtf8 { shown: S },
    SeedNotStarted { cause: S },
    SeedFailed { from: S, to: S, status: S },
    LocalNotUtf8 { shown: S },
    BackupNotStarted { cause: S },
    BackupFailed { status: S },
}

impl View for PeerError {
    type V = PeerError<Seq<char>>;

    open spec fn view(&self) -> PeerError<Seq<char>> {
        match *self {
            PeerError::KeyLength { key } => PeerError::KeyLength { key: key@ },
            PeerError::KeyCharacters { key } => PeerError::KeyCharacters { key: key@ },
            PeerError::ListNotStarted { cause } => PeerError::ListNotStarted { cause: cause@ },
            PeerError::ListFailed { host, status, stderr } => PeerError::ListFailed {
                host: host@,
                status: status@,
                stderr: stderr@,
            },
            PeerError::SnapshotNotStarted { cause } => PeerError::SnapshotNotStarted {
                cause: cause@,
            },
            PeerError::SnapshotFailed { host, key, status, stderr } => PeerError::SnapshotFailed {
                host: host@,
                key: key@,
                status: status@,
                stderr: stderr@,
            },
            PeerError::SnapshotPathNotUtf8 { cause } => PeerError::SnapshotPathNotUtf8 {
                cause: cause@,
            },
            PeerError::SnapshotPathUnexpected { host, path } => PeerError::SnapshotPathUnexpected {
                host: host@,
                path: path@,
            },
            PeerError::DestNotUtf8 { shown } => PeerError::DestNotUtf8 { shown: shown@ },
            PeerError::CopyNotStarted { cause } => PeerError::CopyNotStarted { cause: cause@ },
            PeerError::CopyFailed { from, to, status } => PeerError::CopyFailed {
                from: from@,
                to: to@,
                status: status@,
            },
            PeerError::RemoveRefused { path } => PeerError::RemoveRefused { path: path@ },
            PeerError::MkdirNotStarted { cause } => PeerError::MkdirNotStarted { cause: cause@ },
            PeerError::MkdirFailed { host, key } => PeerError::MkdirFailed {
                host: host@,
                key: key@,
            },
            PeerError::SourceNotUtf8 { shown } => PeerError::SourceNotUtf8 { shown: shown@ },
            PeerError::SeedNotStarted { cause } => PeerError::SeedNotStarted { cause: cause@ },
            PeerError::SeedFailed { from, to, status } => PeerError::SeedFailed {
                from: from@,
                to: to@,
                status: status@,
            },
            PeerError::LocalNotUtf8 { shown } => PeerError::LocalNotUtf8 { shown: shown@ },
            PeerError::BackupNotStarted { cause } => PeerError::BackupNotStarted { cause: cause@ },
            PeerError::BackupFailed { status } => PeerError::BackupFailed { status: status@ },
        }
    }
}

impl PeerError<Seq<char>> {
    /// The error in words.
    pub open spec fn text(self) -> Seq<char> {
        match self {
            PeerError::KeyLength { key } => "invalid repo key length: "@ + quoted(key),
            PeerError::KeyCharacters { key } => "invalid characters in repo key: "@ + quoted(key),
            PeerError::ListNotStarted { cause } => "ssh list_repos: "@ + cause,
            PeerError::ListFailed { host, status, stderr } => "ssh list_repos on "@ + host
                + " exited "@ + status + ": "@ + stderr,
            PeerError::SnapshotNotStarted { cause } => "ssh snapshot create: "@ + cause,
            PeerError::SnapshotFailed { host, key, status, stderr } => "snapshot create on "@ + host
                + ":"@ + key + " exited "@ + status + ": "@ + stderr,
            PeerError::SnapshotPathNotUtf8 { cause } => "snapshot path not utf8: "@ + cause,
            PeerError::SnapshotPathUnexpected { host, path } => "unexpected snapshot path from "@
                + host + ": "@ + quoted(path),
            PeerError::DestNotUtf8 { shown } => "dest path not utf8: "@ + shown,
            PeerError::CopyNotStarted { cause } => "rsync snapshot: "@ + cause,
            PeerError::CopyFailed { from, to, status } => "rsync from "@ + from + " → "@ + to
                + " failed: "@ + status,
            PeerError::RemoveRefused { path } => "refusing to rm non-snapshot path: "@ + path,
            PeerError::MkdirNotStarted { cause } => "ssh mkdir for push_seed: "@ + cause,
            PeerError::MkdirFailed { host, key } => "mkdir on "@ + host + ":.diwa/"@ + key
                + " failed"@,
            PeerError::SourceNotUtf8 { shown } => "src path not utf8: "@ + shown,
            PeerError::SeedNotStarted { cause } => "rsync push_seed: "@ + cause,
            PeerError::SeedFailed { from, to, status } => "rsync "@ + from + " → "@ + to
                + " failed: "@ + status,
            PeerError::LocalNotUtf8 { shown } => "local db path not utf8: "@ + shown,
            PeerError::BackupNotStarted { cause } => "sqlite3 .backup local: "@ + cause,
            PeerError::BackupFailed { status } => "local sqlite3 .backup failed: "@ + status,
        }
    }
}

impl PeerError {
    /// The error in words.
    pub fn message(&self) -> (r: String)
        ensures
            r@ == self@.text(),
    {
        match self {
            PeerError::KeyLength { key } => text::joined(
                "invalid repo key length: ",
                text::quote(key.as_str()).as_str(),
            ),
            PeerError::KeyCharacters { key } => text::joined(
                "invalid characters in repo key: ",
                text::quote(key.as_str()).as_str(),
            ),
            PeerError::ListNotStarted { cause } => text::joined("ssh list_repos: ", cause.as_str()),
            PeerError::ListFailed { host, status, stderr } => {
                let mut s = text::joined("ssh list_repos on ", host.as_str());
                s.append(" exited ");
                s.append(status.as_str());
                s.append(": ");
                s.append(stderr.as_str());
                s
            },
            PeerError::SnapshotNotStarted { cause } => text::joined(
                "ssh snapshot create: ",
                cause.as_str(),
            ),
            PeerError::SnapshotFailed { host, key, status, stderr } => {
                let mut s = text::joined("snapshot create on ", host.as_str());
                s.append(":");
                s.append(key.as_str());
                s.append(" exited ");
                s.append(status.as_str());
                s.append(": ");
                s.append(stderr.as_str());
                s
            },
            PeerError::SnapshotPathNotUtf8 { cause } => text::joined(
                "snapshot path not utf8: ",
                cause.as_str(),
            ),
            PeerError::SnapshotPathUnexpected { host, path } => {
                let mut s = text::joined("unexpected snapshot path from ", host.as_str());
                s.append(": ");
                s.append(text::quote(path.as_str()).as_str());
                s
            },
            PeerError::DestNotUtf8 { shown } => text::joined("dest path not utf8: ", shown.as_str()),
            PeerError::CopyNotStarted { cause } => text::joined("rsync snapshot: ", cause.as_str()),
            PeerError::CopyFailed { from, to, status } => {
                let mut s = text::joined("rsync from ", from.as_str());
                s.append(" → ");
                s.append(to.as_str());
                s.append(" failed: ");
                s.append(status.as_str());
                s
            },
            PeerError::RemoveRefused { path } => text::joined(
                "refusing to rm non-snapshot path: ",
                path.as_str(),
            ),
            PeerError::MkdirNotStarted { cause } => text::joined(
                "ssh mkdir for push_seed: ",
                cause.as_str(),
            ),
            PeerError::MkdirFailed { host, key } => {
                let mut s = text::joined("mkdir on ", host.as_str());
                s.append(":.diwa/");
                s.append(key.as_str());
                s.append(" failed");
                s
            },
            PeerError::SourceNotUtf8 { shown } => text::joined("src path not utf8: ", shown.as_str()),
            PeerError::SeedNotStarted { cause } => text::joined("rsync push_seed: ", cause.as_str()),
            PeerError::SeedFailed { from, to, status } => {
                let mut s = text::joined("rsync ", from.as_str());
                s.append(" → ");
                s.append(to.as_str());
                s.append(" failed: ");
                s.append(status.as_str());
                s
            },
            PeerError::LocalNotUtf8 { shown } => text::joined(
                "local db path not utf8: ",
                shown.as_str(),
            ),
            PeerError::BackupNotStarted { cause } => text::joined(
                "sqlite3 .backup local: ",
                cause.as_str(),
            ),
            PeerError::BackupFailed { status } => text::joined(
                "local sqlite3 .backup failed: ",
                status.as_str(),
            ),
        }
    }
}

/// A result without a value, by its view.
pub open spec fn verdict_view(r: Result<(), PeerError>) -> Result<(), PeerError<Seq<char>>> {
    match r {
        Ok(_) => Ok(()),
        Err(e) => Err(e@),
    }
}

// ---------------------------------------------------------------------------
// Repo keys
// ---------------------------------------------------------------------------

/// The longest repo key, in bytes.
pub const MAX_KEY_BYTES: usize = 200;

/// The characters that a repo key may hold.
pub open spec fn key_character(c: char) -> bool {
    ||| 'a' <= c <= 'z'
    ||| 'A' <= c <= 'Z'
    ||| '0' <= c <= '9'
    ||| c == '-'
    ||| c == '_'
    ||| c == '.'
}

/// What is said of a string that claims to be a repo key.
pub open spec fn key_verdict(key: Seq<char>) -> Result<(), PeerError<Seq<char>>> {
    if key.len() == 0 || encode_utf8(key).len() > MAX_KEY_BYTES {
        Err(PeerError::KeyLength { key })
    } else if !(forall|i: int| 0 <= i < key.len() ==> key_character(#[trigger] key[i])) {
        Err(PeerError::KeyCharacters { key })
    } else {
        Ok(())
    }
}

/// Whether a string is a repo key.
pub open spec fn valid_key(key: Seq<char>) -> bool {
    key_verdict(key) is Ok
}

/// Validate a repo key. Keys are derived from git remotes with a `--` separator
/// (such as `Dorky-Robot--humOS`), so the safe characters are letters, digits,
/// dot, dash and underscore. Anything else is refused, so that it cannot reach a
/// shell command that is built from the key.
pub fn validate_repo_key(key: &str) -> (r: Result<(), PeerError>)
    ensures
        verdict_view(r) == key_verdict(key@),
{
    if key.is_empty() || key.as_bytes().len() > MAX_KEY_BYTES {
        return Err(PeerError::KeyLength { key: key.to_owned() });
    }
    let chars = text::chars_of(key);
    for i in 0..chars.len()
        invariant
            chars@ == key@,
            forall|j: int| 0 <= j < i ==> key_character(#[trigger] key@[j]),
            key@.len() > 0,
            encode_utf8(key@).len() <= MAX_KEY_BYTES,
    {
        let c = chars[i];
        let good = ('a' <= c && c <= 'z') || ('A' <= c && c <= 'Z') || ('0' <= c && c <= '9') || c
            == '-' || c == '_' || c == '.';
        if !good {
            assert(!key_character(key@[i as int]));
            return Err(PeerError::KeyCharacters { key: key.to_owned() });
        }
    }
    Ok(())
}

/// No character of a valid key is one that a shell treats specially, separates the
/// components of a path, or sets a host off from a remote path: no quote, no white
/// space, no `$`, no slash, no colon.
pub proof fn lemma_valid_key_is_plain(key: Seq<char>, i: int)
    requires
        valid_key(key),
        0 <= i < key.len(),
    ensures
        !white_space(key[i]),
        key[i] != '\'' && key[i] != '"' && key[i] != '\\' && key[i] != '`' && key[i] != '$',
        key[i] != '/' && key[i] != ':' && key[i] != ';' && key[i] != '&' && key[i] != '|',
        key[i] != '*' && key[i] != '?' && key[i] != '<' && key[i] != '>' && key[i] != '~',
        key[i] != '(' && key[i] != ')' && key[i] != '\0',
{
    assert(key_character(key[i]));
}

// ---------------------------------------------------------------------------
// Quoting
// ---------------------------------------------------------------------------

/// `s` as one word of a POSIX shell command.
pub open spec fn shell_quoted(s: Seq<char>) -> Seq<char> {
    "'"@ + replaced(s, '\'', "'\\''"@) + "'"@
}

/// Single-quotes everything; an embedded single quote is escaped the POSIX way.
pub fn shell_quote(s: &str) -> (r: String)
    ensures
        r@ == shell_quoted(s@),
{
    let mut q = text::joined("'", text::replace(s, '\'', "'\\''").as_str());
    q.append("'");
    q
}

/// What a POSIX shell makes of a word of single-quoted stretches and characters
/// behind a backslash; `None` where the word holds anything else, or a quote
/// stays open. `inside` says whether a single quote is open.
pub open spec fn shell_word(s: Seq<char>, inside: bool) -> Option<Seq<char>>
    decreases s.len(),
{
    if s.len() == 0 {
        if inside {
            None
        } else {
            Some(Seq::empty())
        }
    } else if s[0] == '\'' {
        shell_word(s.drop_first(), !inside)
    } else if inside {
        match shell_word(s.drop_first(), true) {
            Some(rest) => Some(seq![s[0]] + rest),
            None => None,
        }
    } else if s[0] == '\\' && s.len() > 1 {
        match shell_word(s.skip(2), false) {
            Some(rest) => Some(seq![s[1]] + rest),
            None => None,
        }
    } else {
        None
    }
}

proof fn lemma_shell_word_inside(s: Seq<char>)
    ensures
        shell_word(replaced(s, '\'', "'\\''"@) + "'"@, true) == Some(s),
    decreases s.len(),
{
    reveal_strlit("'");
    reveal_strlit("'\\''");
    let tail = "'"@;
    let body = replaced(s, '\'', "'\\''"@);
    if s.len() == 0 {
        assert((body + tail).drop_first() =~= Seq::<char>::empty());
        assert(shell_word(Seq::<char>::empty(), false) == Some(Seq::<char>::empty()));
        assert(s =~= Seq::<char>::empty());
    } else {
        let rest = replaced(s.drop_first(), '\'', "'\\''"@);
        lemma_shell_word_inside(s.drop_first());
        assert(s =~= seq![s[0]] + s.drop_first());
        if s[0] == '\'' {
            let w0 = body + tail;
            let w1 = w0.drop_first();
            let w2 = w1.skip(2);
            let w3 = w2.drop_first();
            assert(w3 =~= rest + tail);
            assert(w2[0] == '\'');
            assert(shell_word(w2, false) == shell_word(w3, true));
            assert(w1[0] == '\\' && w1[1] == '\'');
            assert(shell_word(w1, false) == Some(seq!['\''] + s.drop_first()));
            assert(shell_word(w0, true) == shell_word(w1, false));
        } else {
            let w0 = body + tail;
            assert(w0.drop_first() =~= rest + tail);
            assert(w0[0] == s[0]);
        }
    }
}

/// Quoting is undone by the shell: whatever the text, the shell reads the quoted
/// form back as that text, as one word.
pub proof fn lemma_shell_quote_read_back(s: Seq<char>)
    ensures
        shell_word(shell_quoted(s), false) == Some(s),
{
    reveal_strlit("'");
    let body = replaced(s, '\'', "'\\''"@);
    assert(shell_quoted(s).drop_first() =~= body + "'"@);
    assert(shell_quoted(s)[0] == '\'');
    lemma_shell_word_inside(s);
}

// ---------------------------------------------------------------------------
// Commands
// ---------------------------------------------------------------------------

/// The arguments of every SSH connection, up to and with the host.
pub open spec fn ssh_options(host: Seq<char>) -> Seq<Seq<char>> {
    seq![
        "-o"@,
        "BatchMode=yes"@,
        "-o"@,
        "ConnectTimeout=5"@,
        "-o"@,
        "ControlMaster=auto"@,
        "-o"@,
        "ControlPersist=60s"@,
        "-o"@,
        "ControlPath=~/.ssh/diwa-sync-cm-%C"@,
        host,
    ]
}

/// SSH options for every connection.
/// - BatchMode refuses password prompts (fast failure, not hangs).
/// - ConnectTimeout caps name lookup and connecting.
/// - ControlMaster and ControlPersist send repeated connections to one host
///   through a single session. `%C` is a hash of host, port and user.
pub fn ssh_args(host: &str) -> (r: Vec<String>)
    ensures
        texts(r@) == ssh_options(host@),
{
    let mut v: Vec<String> = Vec::new();
    v.push("-o".to_owned());
    v.push("BatchMode=yes".to_owned());
    v.push("-o".to_owned());
    v.push("ConnectTimeout=5".to_owned());
    v.push("-o".to_owned());
    v.push("ControlMaster=auto".to_owned());
    v.push("-o".to_owned());
    v.push("ControlPersist=60s".to_owned());
    v.push("-o".to_owned());
    v.push("ControlPath=~/.ssh/diwa-sync-cm-%C".to_owned());
    v.push(host.to_owned());
    assert(texts(v@) =~= ssh_options(host@));
    v
}

/// A command that a host's shell runs.
pub open spec fn ssh(host: Seq<char>, script: Seq<char>) -> Invocation<
    Seq<char>,
    Seq<Seq<char>>,
> {
    Invocation { program: "/usr/bin/ssh"@, args: ssh_options(host).push(script) }
}

fn ssh_command(host: &str, script: String) -> (r: Invocation)
    ensures
        r@ == ssh(host@, script@),
{
    let mut args = ssh_args(host);
    args.push(script);
    assert(texts(args@) =~= ssh_options(host@).push(script@));
    Invocation { program: "/usr/bin/ssh".to_owned(), args }
}

/// A copy of one file by rsync.
pub open spec fn rsync(from: Seq<char>, to: Seq<char>) -> Invocation<Seq<char>, Seq<Seq<char>>> {
    Invocation { program: "/usr/bin/rsync"@, args: seq!["-a"@, "--timeout=30"@, from, to] }
}

fn rsync_command(from: &str, to: &str) -> (r: Invocation)
    ensures
        r@ == rsync(from@, to@),
{
    let mut args: Vec<String> = Vec::new();
    args.push("-a".to_owned());
    args.push("--timeout=30".to_owned());
    args.push(from.to_owned());
    args.push(to.to_owned());
    assert(texts(args@) =~= seq!["-a"@, "--timeout=30"@, from@, to@]);
    Invocation { program: "/usr/bin/rsync".to_owned(), args }
}

// ---------------------------------------------------------------------------
// Reachability
// ---------------------------------------------------------------------------

/// What is run to see whether a host answers.
pub fn is_reachable_command(host: &str) -> (r: Invocation)
    ensures
        r@ == ssh(host@, "true"@),
{
    ssh_command(host, "true".to_owned())
}

/// A host is reachable when the command ran and succeeded.
pub fn is_reachable(outcome: &Outcome) -> (r: bool)
    ensures
        r == (outcome@ matches Outcome::Ended { success, .. } && success),
{
    match outcome {
        Outcome::NotStarted { .. } => false,
        Outcome::Ended { success, .. } => *success,
    }
}

// ---------------------------------------------------------------------------
// Listing
// ---------------------------------------------------------------------------

/// Lists, one per line, the directories one level down that hold a non-empty
/// `index.db`.
pub const LIST_SCRIPT: &'static str = r#"cd "$HOME/.diwa" 2>/dev/null && \
           /usr/bin/find . -mindepth 2 -maxdepth 2 -type f -name index.db -size +0c \
             -exec dirname {} \; | sed 's|^\./||'"#;

/// What is run to list the repos of a host.
pub fn list_repos_command(host: &str) -> (r: Invocation)
    ensures
        r@ == ssh(host@, LIST_SCRIPT@),
{
    ssh_command(host, LIST_SCRIPT.to_owned())
}

/// The repo keys in a listing, in the order of its lines: each line, trimmed,
/// that is a valid key.
pub open spec fn listed_keys(listing: Seq<char>) -> Seq<Seq<char>> {
    keys_among(lines_of(listing))
}

/// The lines, trimmed, that are valid keys.
pub open spec fn keys_among(lines: Seq<Seq<char>>) -> Seq<Seq<char>>
    decreases lines.len(),
{
    if lines.len() == 0 {
        Seq::empty()
    } else if valid_key(trimmed(lines.last())) {
        keys_among(lines.drop_last()).push(trimmed(lines.last()))
    } else {
        keys_among(lines.drop_last())
    }
}

/// Every key of a listing is valid.
pub proof fn lemma_listed_keys_valid(lines: Seq<Seq<char>>)
    ensures
        forall|key: Seq<char>| #[trigger] keys_among(lines).contains(key) ==> valid_key(key),
    decreases lines.len(),
{
    if lines.len() > 0 {
        let rest = keys_among(lines.drop_last());
        lemma_listed_keys_valid(lines.drop_last());
        assert forall|key: Seq<char>| #[trigger] keys_among(lines).contains(key) implies valid_key(
            key,
        ) by {
            let i = choose|i: int| 0 <= i < keys_among(lines).len() && keys_among(lines)[i] == key;
            if i < rest.len() {
                assert(rest[i] == key);
                assert(rest.contains(key));
            }
        }
    }
}

/// Repo keys on `host` that have a non-empty `index.db`, in order, read from the
/// outcome of the listing command.
pub fn list_repos(host: &str, outcome: &Outcome) -> (r: Result<Vec<String>, PeerError>)
    ensures
        match outcome@ {
            Outcome::NotStarted { cause } => r matches Err(e) && e@ == (
                PeerError::ListNotStarted { cause }),
            Outcome::Ended { success, status, stdout, stderr } => if success {
                r matches Ok(keys) && texts(keys@) == sorted(listed_keys(lossy_text(stdout)))
            } else {
                r matches Err(e) && e@ == (
                    PeerError::ListFailed { host: host@, status, stderr: lossy_text(stderr) })
            },
        },
        r matches Ok(keys) ==> forall|i: int|
            0 <= i < keys@.len() ==> valid_key((#[trigger] keys@[i])@),
{
    match outcome {
        Outcome::NotStarted { cause } => Err(PeerError::ListNotStarted { cause: cause.clone() }),
        Outcome::Ended { success, status, stdout, stderr } => {
            if !*success {
                return Err(
                    PeerError::ListFailed {
                        host: host.to_owned(),
                        status: status.clone(),
                        stderr: text::from_utf8_lossy(stderr),
                    },
                );
            }
            let listing = text::from_utf8_lossy(stdout);
            let lines = text::lines(listing.as_str());
            let mut keys: Vec<String> = Vec::new();
            assert(texts(lines@).take(0) =~= Seq::<Seq<char>>::empty());
            assert(texts(keys@) =~= Seq::<Seq<char>>::empty());
            for i in 0..lines.len()
                invariant
                    texts(keys@) =~= keys_among(texts(lines@).take(i as int)),
            {
                let key = text::trim(lines[i].as_str());
                let ghost sofar = texts(lines@).take(i + 1);
                assert(sofar.drop_last() =~= texts(lines@).take(i as int));
                assert(sofar.last() == lines@[i as int]@);
                if validate_repo_key(key.as_str()).is_ok() {
                    let ghost before = texts(keys@);
                    keys.push(key);
                    assert(texts(keys@) =~= before.push(key@));
                }
            }
            assert(texts(lines@).take(lines@.len() as int) =~= texts(lines@));
            let keys = text::sort(keys);
            proof {
                let found = keys_among(texts(lines@));
                lemma_listed_keys_valid(texts(lines@));
                assert forall|i: int| 0 <= i < keys@.len() implies valid_key(
                    (#[trigger] keys@[i])@,
                ) by {
                    text::lemma_sorting_holds_same(texts(keys@), found, texts(keys@)[i]);
                }
            }
            Ok(keys)
        },
    }
}

/// Keys, one per line.
pub open spec fn one_per_line(keys: Seq<Seq<char>>) -> Seq<char>
    decreases keys.len(),
{
    if keys.len() == 0 {
        Seq::empty()
    } else {
        keys[0] + seq!['\n'] + one_per_line(keys.drop_first())
    }
}

proof fn lemma_keys_among_cons(first: Seq<char>, rest: Seq<Seq<char>>)
    requires
        valid_key(trimmed(first)),
    ensures
        keys_among(seq![first] + rest) == seq![trimmed(first)] + keys_among(rest),
    decreases rest.len(),
{
    let all = seq![first] + rest;
    if rest.len() == 0 {
        assert(all.drop_last() =~= Seq::<Seq<char>>::empty());
        assert(all.last() == first);
        assert(keys_among(all.drop_last()) =~= Seq::<Seq<char>>::empty());
        assert(keys_among(all) =~= seq![trimmed(first)] + keys_among(rest));
    } else {
        assert(all.last() == rest.last());
        assert(all.drop_last() =~= seq![first] + rest.drop_last());
        lemma_keys_among_cons(first, rest.drop_last());
        assert(keys_among(all) =~= seq![trimmed(first)] + keys_among(rest));
    }
}

proof fn lemma_line_end_at(s: Seq<char>, n: int)
    requires
        0 <= n < s.len(),
        s[n] == '\n',
        forall|i: int| 0 <= i < n ==> s[i] != '\n',
    ensures
        line_end(s) == n,
{
    lemma_line_end(s);
    if line_end(s) < n {
        assert(s[line_end(s)] != '\n');
    }
    if n < line_end(s) {
        assert(s[n] != '\n');
    }
}

/// A listing of valid keys, one per line, is read as exactly those keys.
pub proof fn lemma_listing_read_back(keys: Seq<Seq<char>>)
    requires
        forall|i: int| 0 <= i < keys.len() ==> valid_key(#[trigger] keys[i]),
    ensures
        listed_keys(one_per_line(keys)) == keys,
    decreases keys.len(),
{
    if keys.len() == 0 {
        assert(keys =~= Seq::<Seq<char>>::empty());
    } else {
        let key = keys[0];
        let rest = keys.drop_first();
        let s = one_per_line(keys);
        assert forall|i: int| 0 <= i < key.len() implies s[i] != '\n' by {
            assert(key_character(key[i]));
        }
        assert(s[key.len() as int] == '\n');
        lemma_line_end_at(s, key.len() as int);
        assert(s.take(key.len() as int) =~= key);
        assert(key_character(key.last()));
        assert(key_character(key[0]));
        assert(without_return(key) == key);
        lemma_trim_keeps(key);
        assert(s.skip(key.len() as int + 1) =~= one_per_line(rest));
        assert(lines_of(s) == seq![key] + lines_of(one_per_line(rest)));
        assert forall|i: int| 0 <= i < rest.len() implies valid_key(#[trigger] rest[i]) by {
            assert(valid_key(keys[i + 1]));
        }
        lemma_listing_read_back(rest);
        lemma_keys_among_cons(key, lines_of(one_per_line(rest)));
        assert(keys =~= seq![key] + rest);
    }
}

// ---------------------------------------------------------------------------
// Snapshots of a peer's index
// ---------------------------------------------------------------------------

/// Where a peer puts its snapshots.
pub const SNAPSHOT_PREFIX: &'static str = "/tmp/diwa-sync-snap.";

/// Whether a path on a peer is that of a snapshot.
pub open spec fn snapshot_path(path: Seq<char>) -> bool {
    SNAPSHOT_PREFIX@.is_prefix_of(path)
}

/// The script that makes a snapshot, up to the repo key. The busy timeout of the
/// backup is widened to 30 seconds, for a peer whose index is being written.
pub const SNAPSHOT_SCRIPT_HEAD: &'static str = r#"set -e
tmp=$(mktemp /tmp/diwa-sync-snap.XXXXXX) || exit 1
trap 'rm -f "$tmp"' ERR
sqlite3 -cmd "PRAGMA busy_timeout=30000" "$HOME/.diwa/"#;

/// The script that makes a snapshot, behind the repo key.
pub const SNAPSHOT_SCRIPT_TAIL: &'static str = r#"/index.db" ".backup '$tmp'" >/dev/null
echo "$tmp"
"#;

/// What is run to remove a snapshot from a peer, or why nothing is.
pub open spec fn removal(host: Seq<char>, path: Seq<char>) -> Result<
    Invocation<Seq<char>, Seq<Seq<char>>>,
    PeerError<Seq<char>>,
> {
    if snapshot_path(path) {
        Ok(ssh(host, "rm -f "@ + shell_quoted(path)))
    } else {
        Err(PeerError::RemoveRefused { path })
    }
}

/// The command that removes a snapshot from a peer. A path that is not that of a
/// snapshot is refused.
pub fn remote_rm(host: &str, remote_path: &str) -> (r: Result<Invocation, PeerError>)
    ensures
        match removal(host@, remote_path@) {
            Ok(i) => r matches Ok(c) && c@ == i,
            Err(e) => r matches Err(f) && f@ == e,
        },
{
    if !text::starts_with(remote_path, SNAPSHOT_PREFIX) {
        return Err(PeerError::RemoveRefused { path: remote_path.to_owned() });
    }
    Ok(ssh_command(host, text::joined("rm -f ", shell_quote(remote_path).as_str())))
}

/// How far the fetching of a snapshot has come.
#[derive(Debug)]
pub enum SnapshotStage<S = String> {
    /// The peer is asked to make a snapshot and to name it.
    Creating,
    /// The snapshot is copied to this machine.
    Copying { remote: S, dest: S },
    /// The peer is asked to remove the snapshot; how that ends changes nothing.
    Removing { remote: S, result: Result<(), PeerError<S>> },
    /// Nothing is left to run.
    Finished { result: Result<(), PeerError<S>> },
}

impl View for SnapshotStage {
    type V = SnapshotStage<Seq<char>>;

    open spec fn view(&self) -> SnapshotStage<Seq<char>> {
        match *self {
            SnapshotStage::Creating => SnapshotStage::Creating,
            SnapshotStage::Copying { remote, dest } => SnapshotStage::Copying {
                remote: remote@,
                dest: dest@,
            },
            SnapshotStage::Removing { remote, result } => SnapshotStage::Removing {
                remote: remote@,
                result: verdict_view(result),
            },
            SnapshotStage::Finished { result } => SnapshotStage::Finished {
                result: verdict_view(result),
            },
        }
    }
}

/// The fetching of a fresh, consistent snapshot of a peer's index: the peer makes
/// it, this machine copies it, and the peer removes it.
#[derive(Debug)]
pub struct Snapshot<S = String> {
    pub host: S,
    pub key: S,
    pub dest: LocalPath<S>,
    pub stage: SnapshotStage<S>,
}

impl View for Snapshot {
    type V = Snapshot<Seq<char>>;

    open spec fn view(&self) -> Snapshot<Seq<char>> {
        Snapshot {
            host: self.host@,
            key: self.key@,
            dest: self.dest@,
            stage: self.stage@,
        }
    }
}

impl Snapshot<Seq<char>> {
    /// The fetching at its beginning: a key that is not valid ends it at once.
    pub open spec fn start(host: Seq<char>, key: Seq<char>, dest: LocalPath<Seq<char>>) -> Self {
        Snapshot {
            host,
            key,
            dest,
            stage: match key_verdict(key) {
                Ok(_) => SnapshotStage::Creating,
                Err(e) => SnapshotStage::Finished { result: Err(e) },
            },
        }
    }

    /// What is to be run now.
    pub open spec fn pending(self) -> Option<Invocation<Seq<char>, Seq<Seq<char>>>> {
        match self.stage {
            SnapshotStage::Creating => Some(
                ssh(self.host, SNAPSHOT_SCRIPT_HEAD@ + self.key + SNAPSHOT_SCRIPT_TAIL@),
            ),
            SnapshotStage::Copying { remote, dest } => Some(
                rsync(self.host + ":"@ + remote, dest),
            ),
            SnapshotStage::Removing { remote, result } => Some(
                ssh(self.host, "rm -f "@ + shell_quoted(remote)),
            ),
            SnapshotStage::Finished { result } => None,
        }
    }

    /// The stage behind the making of the snapshot.
    pub open spec fn after_creating(self, outcome: Outcome<Seq<char>, Seq<u8>>) -> SnapshotStage<
        Seq<char>,
    > {
        match outcome {
            Outcome::NotStarted { cause } => SnapshotStage::Finished {
                result: Err(PeerError::SnapshotNotStarted { cause }),
            },
            Outcome::Ended { success, status, stdout, stderr } => {
                let remote = trimmed(decode_utf8(stdout));
                if !success {
                    SnapshotStage::Finished {
                        result: Err(
                            PeerError::SnapshotFailed {
                                host: self.host,
                                key: self.key,
                                status,
                                stderr: lossy_text(stderr),
                            },
                        ),
                    }
                } else if !valid_utf8(stdout) {
                    SnapshotStage::Finished {
                        result: Err(PeerError::SnapshotPathNotUtf8 { cause: utf8_fault(stdout) }),
                    }
                } else if !snapshot_path(remote) {
                    SnapshotStage::Finished {
                        result: Err(
                            PeerError::SnapshotPathUnexpected { host: self.host, path: remote },
                        ),
                    }
                } else {
                    match self.dest.text {
                        Some(dest) => SnapshotStage::Copying { remote, dest },
                        None => SnapshotStage::Finished {
                            result: Err(PeerError::DestNotUtf8 { shown: self.dest.shown }),
                        },
                    }
                }
            },
        }
    }

    /// The stage behind the copying of the snapshot. A copy that ran, well or
    /// not, is followed by the removal; one that could not be started is not.
    pub open spec fn after_copying(
        self,
        remote: Seq<char>,
        dest: Seq<char>,
        outcome: Outcome<Seq<char>, Seq<u8>>,
    ) -> SnapshotStage<Seq<char>> {
        match outcome {
            Outcome::NotStarted { cause } => SnapshotStage::Finished {
                result: Err(PeerError::CopyNotStarted { cause }),
            },
            Outcome::Ended { success, status, stdout, stderr } => {
                let result = if success {
                    Ok(())
                } else {
                    Err(
                        PeerError::CopyFailed {
                            from: self.host + ":"@ + remote,
                            to: dest,
                            status,
                        },
                    )
                };
                if removal(self.host, remote) is Ok {
                    SnapshotStage::Removing { remote, result }
                } else {
                    SnapshotStage::Finished { result }
                }
            },
        }
    }

    /// The fetching behind what has just been run.
    pub open spec fn next(self, outcome: Outcome<Seq<char>, Seq<u8>>) -> Self {
        Snapshot {
            stage: match self.stage {
                SnapshotStage::Creating => self.after_creating(outcome),
                SnapshotStage::Copying { remote, dest } => self.after_copying(
                    remote,
                    dest,
                    outcome,
                ),
                SnapshotStage::Removing { remote, result } => SnapshotStage::Finished { result },
                SnapshotStage::Finished { result } => SnapshotStage::Finished { result },
            },
            ..self
        }
    }
}

/// Begins to fetch a snapshot of `~/.diwa/{repo_key}/index.db` from `host` to
/// `dest`.
pub fn snapshot(host: &str, repo_key: &str, dest: LocalPath) -> (r: Snapshot)
    ensures
        r@ == Snapshot::start(host@, repo_key@, dest@),
{
    let stage = match validate_repo_key(repo_key) {
        Ok(_) => SnapshotStage::Creating,
        Err(e) => SnapshotStage::Finished { result: Err(e) },
    };
    Snapshot { host: host.to_owned(), key: repo_key.to_owned(), dest, stage }
}

impl Snapshot {
    /// What is to be run now; nothing once the fetching is finished.
    pub fn command(&self) -> (r: Option<Invocation>)
        ensures
            invocation_view(r) == self@.pending(),
    {
        match &self.stage {
            SnapshotStage::Creating => {
                let mut script = text::joined(SNAPSHOT_SCRIPT_HEAD, self.key.as_str());
                script.append(SNAPSHOT_SCRIPT_TAIL);
                Some(ssh_command(self.host.as_str(), script))
            },
            SnapshotStage::Copying { remote, dest } => {
                let mut from = text::joined(self.host.as_str(), ":");
                from.append(remote.as_str());
                Some(rsync_command(from.as_str(), dest.as_str()))
            },
            SnapshotStage::Removing { remote, result } => Some(
                ssh_command(
                    self.host.as_str(),
                    text::joined("rm -f ", shell_quote(remote.as_str()).as_str()),
                ),
            ),
            SnapshotStage::Finished { result } => None,
        }
    }

    fn created(&self, outcome: Outcome) -> (r: SnapshotStage)
        ensures
            r@ == self@.after_creating(outcome@),
    {
        match outcome {
            Outcome::NotStarted { cause } => SnapshotStage::Finished {
                result: Err(PeerError::SnapshotNotStarted { cause }),
            },
            Outcome::Ended { success, status, stdout, stderr } => {
                if !success {
                    return SnapshotStage::Finished {
                        result: Err(
                            PeerError::SnapshotFailed {
                                host: self.host.clone(),
                                key: self.key.clone(),
                                status,
                                stderr: text::from_utf8_lossy(&stderr),
                            },
                        ),
                    };
                }
                let remote = match text::from_utf8(stdout) {
                    Ok(s) => text::trim(s.as_str()),
                    Err(cause) => {
                        return SnapshotStage::Finished {
                            result: Err(PeerError::SnapshotPathNotUtf8 { cause }),
                        };
                    },
                };
                if !text::starts_with(remote.as_str(), SNAPSHOT_PREFIX) {
                    return SnapshotStage::Finished {
                        result: Err(
                            PeerError::SnapshotPathUnexpected {
                                host: self.host.clone(),
                                path: remote,
                            },
                        ),
                    };
                }
                match &self.dest.text {
                    Some(dest) => SnapshotStage::Copying { remote, dest: dest.clone() },
                    None => SnapshotStage::Finished {
                        result: Err(PeerError::DestNotUtf8 { shown: self.dest.shown.clone() }),
                    },
                }
            },
        }
    }

    fn copied(&self, remote: &String, dest: &String, outcome: Outcome) -> (r: SnapshotStage)
        ensures
            r@ == self@.after_copying(remote@, dest@, outcome@),
    {
        match outcome {
            Outcome::NotStarted { cause } => SnapshotStage::Finished {
                result: Err(PeerError::CopyNotStarted { cause }),
            },
            Outcome::Ended { success, status, stdout, stderr } => {
                let result = if success {
                    Ok(())
                } else {
                    let mut from = text::joined(self.host.as_str(), ":");
                    from.append(remote.as_str());
                    Err(PeerError::CopyFailed { from, to: dest.clone(), status })
                };
                if remote_rm(self.host.as_str(), remote.as_str()).is_ok() {
                    SnapshotStage::Removing { remote: remote.clone(), result }
                } else {
                    SnapshotStage::Finished { result }
                }
            },
        }
    }

    /// Takes the outcome of what was run, and goes on.
    pub fn advance(self, outcome: Outcome) -> (r: Snapshot)
        ensures
            r@ == self@.next(outcome@),
    {
        let stage = match &self.stage {
            SnapshotStage::Creating => self.created(outcome),
            SnapshotStage::Copying { remote, dest } => self.copied(remote, dest, outcome),
            _ => return self.settled(),
        };
        Snapshot { host: self.host, key: self.key, dest: self.dest, stage }
    }

    fn settled(self) -> (r: Snapshot)
        requires
            self@.stage is Removing || self@.stage is Finished,
        ensures
            r@.stage is Finished,
            r@ == (Snapshot { stage: r@.stage, ..self@ }),
            match self@.stage {
                SnapshotStage::Removing { remote, result } => r@.stage
                    == (SnapshotStage::Finished { result }),
                _ => r@.stage == self@.stage,
            },
    {
        let stage = match self.stage {
            SnapshotStage::Removing { remote, result } => SnapshotStage::Finished { result },
            other => other,
        };
        Snapshot { host: self.host, key: self.key, dest: self.dest, stage }
    }

    /// How the fetching ended; nothing before it is finished.
    pub fn into_result(self) -> (r: Option<Result<(), PeerError>>)
        ensures
            match self@.stage {
                SnapshotStage::Finished { result } => r matches Some(v) && verdict_view(v)
                    == result,
                _ => r is None,
            },
    {
        match self.stage {
            SnapshotStage::Finished { result } => Some(result),
            _ => None,
        }
    }
}

/// A fetching behind a series of outcomes.
pub open spec fn snapshot_after(
    s: Snapshot<Seq<char>>,
    outcomes: Seq<Outcome<Seq<char>, Seq<u8>>>,
) -> Snapshot<Seq<char>>
    decreases outcomes.len(),
{
    if outcomes.len() == 0 {
        s
    } else {
        snapshot_after(s, outcomes.drop_last()).next(outcomes.last())
    }
}

/// Whatever the peer answers, only a path under the snapshot prefix is ever
/// copied from it or removed from it, and only for a valid repo key.
pub proof fn lemma_snapshot_touches_snapshots_only(
    host: Seq<char>,
    key: Seq<char>,
    dest: LocalPath<Seq<char>>,
    outcomes: Seq<Outcome<Seq<char>, Seq<u8>>>,
)
    ensures
        ({
            let now = snapshot_after(Snapshot::start(host, key, dest), outcomes);
            &&& now.host == host && now.key == key && now.dest == dest
            &&& now.pending() is Some ==> valid_key(key)
            &&& match now.stage {
                SnapshotStage::Copying { remote, dest: to } => snapshot_path(remote) && dest.text
                    == Some(to),
                SnapshotStage::Removing { remote, result } => snapshot_path(remote),
                _ => true,
            }
        }),
    decreases outcomes.len(),
{
    if outcomes.len() > 0 {
        lemma_snapshot_touches_snapshots_only(host, key, dest, outcomes.drop_last());
    }
}

/// Once a copy ran, well or not, the next command removes the copied snapshot
/// from the peer, and the result is that of the copy, however the removal ends.
pub proof fn lemma_snapshot_cleans_up(
    s: Snapshot<Seq<char>>,
    copy: Outcome<Seq<char>, Seq<u8>>,
    rm: Outcome<Seq<char>, Seq<u8>>,
)
    requires
        s.stage matches SnapshotStage::Copying { remote, dest } && snapshot_path(remote),
        copy is Ended,
    ensures
        s.next(copy).pending() matches Some(i) && removal(s.host, s.stage->Copying_remote) == Ok::<
            _,
            PeerError<Seq<char>>,
        >(i),
        s.next(copy).next(rm).stage matches SnapshotStage::Finished { result } && (result is Ok
            <==> copy->success),
{
}

/// A fetching takes at most three commands.
pub proof fn lemma_snapshot_ends(
    s: Snapshot<Seq<char>>,
    a: Outcome<Seq<char>, Seq<u8>>,
    b: Outcome<Seq<char>, Seq<u8>>,
    c: Outcome<Seq<char>, Seq<u8>>,
)
    ensures
        s.next(a).next(b).next(c).stage is Finished,
{
}

// ---------------------------------------------------------------------------
// Seeding a peer
// ---------------------------------------------------------------------------

/// How far the seeding of a peer has come.
#[derive(Debug)]
pub enum SeedStage<S = String> {
    /// The peer is asked to make the directory.
    MakingDir,
    /// The file is copied to the peer.
    Copying { source: S },
    /// Nothing is left to run.
    Finished { result: Result<(), PeerError<S>> },
}

impl View for SeedStage {
    type V = SeedStage<Seq<char>>;

    open spec fn view(&self) -> SeedStage<Seq<char>> {
        match *self {
            SeedStage::MakingDir => SeedStage::MakingDir,
            SeedStage::Copying { source } => SeedStage::Copying { source: source@ },
            SeedStage::Finished { result } => SeedStage::Finished { result: verdict_view(result) },
        }
    }
}

/// The pushing of a local file to `~/.diwa/{key}/index.db` of a peer that does
/// not have the repo yet.
#[derive(Debug)]
pub struct Seed<S = String> {
    pub host: S,
    pub key: S,
    pub source: LocalPath<S>,
    pub stage: SeedStage<S>,
}

impl View for Seed {
    type V = Seed<Seq<char>>;

    open spec fn view(&self) -> Seed<Seq<char>> {
        Seed { host: self.host@, key: self.key@, source: self.source@, stage: self.stage@ }
    }
}

impl Seed<Seq<char>> {
    /// The seeding at its beginning: a key that is not valid ends it at once.
    pub open spec fn start(host: Seq<char>, key: Seq<char>, source: LocalPath<Seq<char>>) -> Self {
        Seed {
            host,
            key,
            source,
            stage: match key_verdict(key) {
                Ok(_) => SeedStage::MakingDir,
                Err(e) => SeedStage::Finished { result: Err(e) },
            },
        }
    }

    /// Where the file goes.
    pub open spec fn target(self) -> Seq<char> {
        self.host + ":.diwa/"@ + self.key + "/index.db"@
    }

    /// What is to be run now.
    pub open spec fn pending(self) -> Option<Invocation<Seq<char>, Seq<Seq<char>>>> {
        match self.stage {
            SeedStage::MakingDir => Some(
                ssh(self.host, "mkdir -p \"$HOME/.diwa/"@ + self.key + "\""@),
            ),
            SeedStage::Copying { source } => Some(rsync(source, self.target())),
            SeedStage::Finished { result } => None,
        }
    }

    /// The stage behind what has just been run.
    pub open spec fn stage_after(self, outcome: Outcome<Seq<char>, Seq<u8>>) -> SeedStage<
        Seq<char>,
    > {
        match self.stage {
            SeedStage::MakingDir => match outcome {
                Outcome::NotStarted { cause } => SeedStage::Finished {
                    result: Err(PeerError::MkdirNotStarted { cause }),
                },
                Outcome::Ended { success, status, stdout, stderr } => if !success {
                    SeedStage::Finished {
                        result: Err(PeerError::MkdirFailed { host: self.host, key: self.key }),
                    }
                } else {
                    match self.source.text {
                        Some(source) => SeedStage::Copying { source },
                        None => SeedStage::Finished {
                            result: Err(PeerError::SourceNotUtf8 { shown: self.source.shown }),
                        },
                    }
                },
            },
            SeedStage::Copying { source } => SeedStage::Finished {
                result: match outcome {
                    Outcome::NotStarted { cause } => Err(PeerError::SeedNotStarted { cause }),
                    Outcome::Ended { success, status, stdout, stderr } => if success {
                        Ok(())
                    } else {
                        Err(PeerError::SeedFailed { from: source, to: self.target(), status })
                    },
                },
            },
            SeedStage::Finished { result } => SeedStage::Finished { result },
        }
    }

    /// The seeding behind what has just been run.
    pub open spec fn next(self, outcome: Outcome<Seq<char>, Seq<u8>>) -> Self {
        Seed { stage: self.stage_after(outcome), ..self }
    }
}

/// Begins to push a local file to `host:~/.diwa/{repo_key}/index.db`.
pub fn push_seed(host: &str, repo_key: &str, src: LocalPath) -> (r: Seed)
    ensures
        r@ == Seed::start(host@, repo_key@, src@),
{
    let stage = match validate_repo_key(repo_key) {
        Ok(_) => SeedStage::MakingDir,
        Err(e) => SeedStage::Finished { result: Err(e) },
    };
    Seed { host: host.to_owned(), key: repo_key.to_owned(), source: src, stage }
}

impl Seed {
    fn target_text(&self) -> (r: String)
        ensures
            r@ == self@.target(),
    {
        let mut to = text::joined(self.host.as_str(), ":.diwa/");
        to.append(self.key.as_str());
        to.append("/index.db");
        to
    }

    /// What is to be run now; nothing once the seeding is finished.
    pub fn command(&self) -> (r: Option<Invocation>)
        ensures
            invocation_view(r) == self@.pending(),
    {
        match &self.stage {
            SeedStage::MakingDir => {
                let mut script = text::joined("mkdir -p \"$HOME/.diwa/", self.key.as_str());
                script.append("\"");
                Some(ssh_command(self.host.as_str(), script))
            },
            SeedStage::Copying { source } => Some(
                rsync_command(source.as_str(), self.target_text().as_str()),
            ),
            SeedStage::Finished { result } => None,
        }
    }

    /// Takes the outcome of what was run, and goes on.
    pub fn advance(self, outcome: Outcome) -> (r: Seed)
        ensures
            r@ == self@.next(outcome@),
    {
        let target = self.target_text();
        let stage = match self.stage {
            SeedStage::MakingDir => match outcome {
                Outcome::NotStarted { cause } => SeedStage::Finished {
                    result: Err(PeerError::MkdirNotStarted { cause }),
                },
                Outcome::Ended { success, status, stdout, stderr } => if !success {
                    SeedStage::Finished {
                        result: Err(
                            PeerError::MkdirFailed {
                                host: self.host.clone(),
                                key: self.key.clone(),
                            },
                        ),
                    }
                } else {
                    match &self.source.text {
                        Some(source) => SeedStage::Copying { source: source.clone() },
                        None => SeedStage::Finished {
                            result: Err(
                                PeerError::SourceNotUtf8 { shown: self.source.shown.clone() },
                            ),
                        },
                    }
                },
            },
            SeedStage::Copying { source } => SeedStage::Finished {
                result: match outcome {
                    Outcome::NotStarted { cause } => Err(PeerError::SeedNotStarted { cause }),
                    Outcome::Ended { success, status, stdout, stderr } => if success {
                        Ok(())
                    } else {
                        Err(PeerError::SeedFailed { from: source, to: target, status })
                    },
                },
            },
            SeedStage::Finished { result } => SeedStage::Finished { result },
        };
        Seed { host: self.host, key: self.key, source: self.source, stage }
    }

    /// How the seeding ended; nothing before it is finished.
    pub fn into_result(self) -> (r: Option<Result<(), PeerError>>)
        ensures
            match self@.stage {
                SeedStage::Finished { result } => r matches Some(v) && verdict_view(v) == result,
                _ => r is None,
            },
    {
        match self.stage {
            SeedStage::Finished { result } => Some(result),
            _ => None,
        }
    }
}

/// A seeding takes at most two commands, and succeeds just when the key is
/// valid, both commands ran well and the source has a textual path.
pub proof fn lemma_seed_ends(
    host: Seq<char>,
    key: Seq<char>,
    source: LocalPath<Seq<char>>,
    mkdir: Outcome<Seq<char>, Seq<u8>>,
    copy: Outcome<Seq<char>, Seq<u8>>,
)
    ensures
        Seed::start(host, key, source).next(mkdir).next(copy).stage matches SeedStage::Finished {
            result,
        } && (result is Ok <==> {
            &&& valid_key(key)
            &&& mkdir matches Outcome::Ended { success: a, .. } && a
            &&& source.text is Some
            &&& copy matches Outcome::Ended { success: b, .. } && b
        }),
{
}

// ---------------------------------------------------------------------------
// Snapshots of the local index
// ---------------------------------------------------------------------------

/// What is run to take a consistent snapshot of a local database.
pub open spec fn backup(local: Seq<char>, dest: Seq<char>) -> Invocation<
    Seq<char>,
    Seq<Seq<char>>,
> {
    Invocation {
        program: "/usr/bin/sqlite3"@,
        args: seq![
            "-cmd"@,
            "PRAGMA busy_timeout=30000"@,
            local,
            ".backup '"@ + replaced(dest, '\'', "''"@) + "'"@,
        ],
    }
}

/// The command that takes a consistent local snapshot. The live `index.db` is
/// never copied as a file, so a torn write cannot be observed.
pub fn local_snapshot_command(local_db: &LocalPath, dest: &LocalPath) -> (r: Result<
    Invocation,
    PeerError,
>)
    ensures
        match (local_db@.text, dest@.text) {
            (Some(from), Some(to)) => r matches Ok(i) && i@ == backup(from, to),
            (None, _) => r matches Err(e) && e@ == (
                PeerError::LocalNotUtf8 { shown: local_db@.shown }),
            (_, None) => r matches Err(e) && e@ == (
                PeerError::DestNotUtf8 { shown: dest@.shown }),
        },
{
    let from = match &local_db.text {
        Some(t) => t,
        None => {
            return Err(PeerError::LocalNotUtf8 { shown: local_db.shown.clone() });
        },
    };
    let to = match &dest.text {
        Some(t) => t,
        None => {
            return Err(PeerError::DestNotUtf8 { shown: dest.shown.clone() });
        },
    };
    let mut sql = text::joined(".backup '", text::replace(to.as_str(), '\'', "''").as_str());
    sql.append("'");
    let mut args: Vec<String> = Vec::new();
    args.push("-cmd".to_owned());
    args.push("PRAGMA busy_timeout=30000".to_owned());
    args.push(from.clone());
    args.push(sql);
    assert(texts(args@) =~= backup(from@, to@).args);
    Ok(Invocation { program: "/usr/bin/sqlite3".to_owned(), args })
}

/// How the taking of a local snapshot ended.
pub fn local_snapshot(outcome: Outcome) -> (r: Result<(), PeerError>)
    ensures
        verdict_view(r) == (match outcome@ {
            Outcome::NotStarted { cause } => Err(PeerError::BackupNotStarted { cause }),
            Outcome::Ended { success, status, stdout, stderr } => if success {
                Ok(())
            } else {
                Err(PeerError::BackupFailed { status })
            },
        }),
{
    match outcome {
        Outcome::NotStarted { cause } => Err(PeerError::BackupNotStarted { cause }),
        Outcome::Ended { success, status, stdout, stderr } => if success {
            Ok(())
        } else {
            Err(PeerError::BackupFailed { status })
        },
    }
}

// ---------------------------------------------------------------------------
// What the dealings with a peer come to
// ---------------------------------------------------------------------------

/// A key is valid just when it is not empty, takes at most 200 bytes, and each of its
/// characters is an ASCII digit, an ASCII letter, a dash, a dot or an underscore. One
/// of those is one byte, so 200 of them are accepted. A string that is no key is
/// refused for its length, if that is wrong, and else for its characters.
pub proof fn lemma_keys_accepted(key: Seq<char>)
    ensures
        valid_key(key) <==> 0 < key.len() && encode_utf8(key).len() <= 200 && forall|i: int|
            0 <= i < key.len() ==> ({
                let u = #[trigger] key[i] as int;
                0x30 <= u <= 0x39 || 0x41 <= u <= 0x5a || 0x61 <= u <= 0x7a || u == 0x2d || u == 0x2e
                    || u == 0x5f
            }),
        valid_key(key) <==> 0 < key.len() <= 200 && forall|i: int|
            0 <= i < key.len() ==> ({
                let u = #[trigger] key[i] as int;
                0x30 <= u <= 0x39 || 0x41 <= u <= 0x5a || 0x61 <= u <= 0x7a || u == 0x2d || u == 0x2e
                    || u == 0x5f
            }),
        !valid_key(key) ==> key_verdict(key) == if key.len() == 0 || encode_utf8(key).len() > 200 {
            Err::<(), PeerError<Seq<char>>>(PeerError::KeyLength { key })
        } else {
            Err::<(), PeerError<Seq<char>>>(PeerError::KeyCharacters { key })
        },
{
    if forall|i: int|
        0 <= i < key.len() ==> ({
            let u = #[trigger] key[i] as int;
            0x30 <= u <= 0x39 || 0x41 <= u <= 0x5a || 0x61 <= u <= 0x7a || u == 0x2d || u == 0x2e
                || u == 0x5f
        }) {
        vstd::utf8::is_ascii_chars_encode_utf8(key);
        assert forall|i: int| 0 <= i < key.len() implies key_character(#[trigger] key[i]) by {}
    }
    if valid_key(key) {
        assert forall|i: int| 0 <= i < key.len() implies ({
            let u = #[trigger] key[i] as int;
            0x30 <= u <= 0x39 || 0x41 <= u <= 0x5a || 0x61 <= u <= 0x7a || u == 0x2d || u == 0x2e
                || u == 0x5f
        }) by {
            assert(key_character(key[i]));
        }
    }
}

/// Every connection goes to the host as it is given, behind options that are the
/// same for all hosts: no password prompt, a limit on connecting, and one shared
/// session.
pub proof fn lemma_ssh_reaches_host(host: Seq<char>, other: Seq<char>, script: Seq<char>)
    ensures
        ssh_options(host).last() == host,
        ssh_options(host).drop_last() == ssh_options(other).drop_last(),
        ssh_options(host).drop_last().contains("BatchMode=yes"@),
        ssh_options(host).drop_last().contains("ConnectTimeout=5"@),
        ssh_options(host).drop_last().contains("ControlMaster=auto"@),
        ssh_options(host).drop_last().contains("ControlPersist=60s"@),
        ssh_options(host).drop_last().contains("ControlPath=~/.ssh/diwa-sync-cm-%C"@),
        ssh_options(host).len() == 11,
        ssh(host, script).program == "/usr/bin/ssh"@,
        ssh(host, script).args == ssh_options(host).push(script),
        ssh(host, script).args.last() == script,
        ssh(host, script).args[10] == host,
{
    let o = ssh_options(host).drop_last();
    assert(o =~= ssh_options(other).drop_last());
    assert(o[1] == "BatchMode=yes"@);
    assert(o[3] == "ConnectTimeout=5"@);
    assert(o[5] == "ControlMaster=auto"@);
    assert(o[7] == "ControlPersist=60s"@);
    assert(o[9] == "ControlPath=~/.ssh/diwa-sync-cm-%C"@);
}

/// A copy is made from the one path to the other, as they are given.
pub proof fn lemma_rsync_copies(from: Seq<char>, to: Seq<char>)
    ensures
        rsync(from, to).program == "/usr/bin/rsync"@,
        rsync(from, to).args.len() == 4,
        rsync(from, to).args[0] == "-a"@,
        rsync(from, to).args[1] == "--timeout=30"@,
        rsync(from, to).args[2] == from,
        rsync(from, to).args[3] == to,
{
}

/// What is read from a listing: a string is among the keys just when it is a line of
/// the listing, without the white space around it, and a valid key. A line gives at
/// most one key, and keys keep the order and the number of their lines.
pub proof fn lemma_listing(a: Seq<Seq<char>>, b: Seq<Seq<char>>, line: Seq<char>, key: Seq<char>)
    ensures
        keys_among(a).contains(key) <==> valid_key(key) && exists|i: int|
            0 <= i < a.len() && trimmed(#[trigger] a[i]) == key,
        keys_among(a + b) == keys_among(a) + keys_among(b),
        keys_among(seq![line]) == if valid_key(trimmed(line)) {
            seq![trimmed(line)]
        } else {
            Seq::empty()
        },
    decreases a.len() + b.len(),
{
    let one = seq![line];
    assert(one.drop_last() =~= Seq::<Seq<char>>::empty());
    assert(keys_among(one.drop_last()) =~= Seq::<Seq<char>>::empty());
    assert(keys_among(one) =~= if valid_key(trimmed(line)) {
        seq![trimmed(line)]
    } else {
        Seq::empty()
    });
    if b.len() == 0 {
        assert(a + b =~= a);
        assert(keys_among(b) =~= Seq::<Seq<char>>::empty());
        assert(keys_among(a) + keys_among(b) =~= keys_among(a));
    } else {
        lemma_listing(a, b.drop_last(), line, key);
        assert((a + b).drop_last() =~= a + b.drop_last());
        assert((a + b).last() == b.last());
        assert(keys_among(a + b) =~= keys_among(a) + keys_among(b));
    }
    lemma_listed_members(a, key);
}

proof fn lemma_listed_members(a: Seq<Seq<char>>, key: Seq<char>)
    ensures
        keys_among(a).contains(key) <==> valid_key(key) && exists|i: int|
            0 <= i < a.len() && trimmed(#[trigger] a[i]) == key,
    decreases a.len(),
{
    if a.len() > 0 {
        let less = a.drop_last();
        let some = keys_among(less);
        let all = keys_among(a);
        lemma_listed_members(less, key);
        if all.contains(key) {
            let i = choose|i: int| 0 <= i < all.len() && all[i] == key;
            if i < some.len() {
                assert(some[i] == key);
                assert(some.contains(key));
                let j = choose|j: int| 0 <= j < less.len() && trimmed(#[trigger] less[j]) == key;
                assert(trimmed(a[j]) == key);
            } else {
                assert(trimmed(a[a.len() - 1]) == key);
            }
        }
        if valid_key(key) && exists|i: int| 0 <= i < a.len() && trimmed(#[trigger] a[i]) == key {
            let i = choose|i: int| 0 <= i < a.len() && trimmed(#[trigger] a[i]) == key;
            if i < less.len() {
                assert(trimmed(less[i]) == key);
                assert(some.contains(key));
                let j = choose|j: int| 0 <= j < some.len() && some[j] == key;
                assert(all[j] == key);
            } else {
                assert(all.last() == key);
                assert(all[all.len() - 1] == key);
            }
        }
    }
}

/// A listing is complete and in order: a string is among the sorted keys of a
/// peer's listing just when it is one of its lines, without the white space around
/// it, and a valid key.
pub proof fn lemma_listing_complete(listing: Seq<char>, key: Seq<char>)
    ensures
        sorted(listed_keys(listing)).contains(key) <==> valid_key(key) && exists|i: int|
            0 <= i < lines_of(listing).len() && trimmed(#[trigger] lines_of(listing)[i]) == key,
{
    lemma_listing(lines_of(listing), Seq::empty(), Seq::empty(), key);
    text::lemma_sorted(listed_keys(listing));
}

/// What the making of a snapshot reads: for every valid key the script holds, as one
/// word in double quotes in which a shell expands nothing but `$HOME`, the path of the
/// index of exactly that repo. But for the key, the scripts for any two repos are the
/// same, on whichever hosts, so different keys name different files.
pub proof fn lemma_snapshot_reads_index(
    host: Seq<char>,
    key: Seq<char>,
    dest: LocalPath<Seq<char>>,
    other_host: Seq<char>,
    other: Seq<char>,
    other_dest: LocalPath<Seq<char>>,
) -> (r: (Seq<char>, Seq<char>))
    requires
        valid_key(key),
        valid_key(other),
    ensures
        Snapshot::start(host, key, dest).pending() == Some(
            ssh(host, r.0 + "\"$HOME/.diwa/"@ + key + "/index.db\""@ + r.1),
        ),
        Snapshot::start(other_host, other, other_dest).pending() == Some(
            ssh(other_host, r.0 + "\"$HOME/.diwa/"@ + other + "/index.db\""@ + r.1),
        ),
        r.0 == "set -e\ntmp=$(mktemp /tmp/diwa-sync-snap.XXXXXX) || exit 1\ntrap 'rm -f \"$tmp\"' ERR\nsqlite3 -cmd \"PRAGMA busy_timeout=30000\" "@,
        r.1 == " \".backup '$tmp'\" >/dev/null\necho \"$tmp\"\n"@,
        key != other ==> r.0 + "\"$HOME/.diwa/"@ + key + "/index.db\""@ + r.1 != r.0
            + "\"$HOME/.diwa/"@ + other + "/index.db\""@ + r.1,
        forall|i: int|
            0 <= i < key.len() ==> #[trigger] key[i] != '"' && key[i] != '$' && key[i] != '`'
                && key[i] != '\\',
{
    reveal_strlit(r#"set -e
tmp=$(mktemp /tmp/diwa-sync-snap.XXXXXX) || exit 1
trap 'rm -f "$tmp"' ERR
sqlite3 -cmd "PRAGMA busy_timeout=30000" "$HOME/.diwa/"#);
    reveal_strlit(r#"/index.db" ".backup '$tmp'" >/dev/null
echo "$tmp"
"#);
    reveal_strlit("set -e\ntmp=$(mktemp /tmp/diwa-sync-snap.XXXXXX) || exit 1\ntrap 'rm -f \"$tmp\"' ERR\nsqlite3 -cmd \"PRAGMA busy_timeout=30000\" ");
    reveal_strlit(" \".backup '$tmp'\" >/dev/null\necho \"$tmp\"\n");
    reveal_strlit("\"$HOME/.diwa/");
    reveal_strlit("/index.db\"");
    let head = "set -e\ntmp=$(mktemp /tmp/diwa-sync-snap.XXXXXX) || exit 1\ntrap 'rm -f \"$tmp\"' ERR\nsqlite3 -cmd \"PRAGMA busy_timeout=30000\" "@;
    let tail = " \".backup '$tmp'\" >/dev/null\necho \"$tmp\"\n"@;
    assert(SNAPSHOT_SCRIPT_HEAD@ =~= head + "\"$HOME/.diwa/"@);
    assert(SNAPSHOT_SCRIPT_TAIL@ =~= "/index.db\""@ + tail);
    assert(SNAPSHOT_SCRIPT_HEAD@ + key + SNAPSHOT_SCRIPT_TAIL@ =~= head + "\"$HOME/.diwa/"@ + key
        + "/index.db\""@ + tail);
    assert(SNAPSHOT_SCRIPT_HEAD@ + other + SNAPSHOT_SCRIPT_TAIL@ =~= head + "\"$HOME/.diwa/"@ + other
        + "/index.db\""@ + tail);
    let start = head + "\"$HOME/.diwa/"@;
    let end = "/index.db\""@ + tail;
    let one = head + "\"$HOME/.diwa/"@ + key + "/index.db\""@ + tail;
    let two = head + "\"$HOME/.diwa/"@ + other + "/index.db\""@ + tail;
    if one == two {
        assert(one.len() - start.len() - end.len() == key.len());
        assert(two.len() - start.len() - end.len() == other.len());
        assert(one.subrange(start.len() as int, one.len() - end.len()) =~= key);
        assert(two.subrange(start.len() as int, two.len() - end.len()) =~= other);
    }
    assert forall|i: int| 0 <= i < key.len() implies #[trigger] key[i] != '"' && key[i] != '$'
        && key[i] != '`' && key[i] != '\\' by {
        lemma_valid_key_is_plain(key, i);
    }
    (head, tail)
}

/// Where a seed goes: the directory that is made and the file that is copied to are
/// those of exactly the given repo, the same file that a snapshot of that repo reads
/// at that peer, and the file that is copied is the given one.
pub proof fn lemma_seed_reaches_index(
    host: Seq<char>,
    key: Seq<char>,
    source: LocalPath<Seq<char>>,
    dest: LocalPath<Seq<char>>,
    mkdir: Outcome<Seq<char>, Seq<u8>>,
) -> (r: (Seq<char>, Seq<char>))
    requires
        valid_key(key),
        mkdir matches Outcome::Ended { success, .. } && success,
        source.text is Some,
    ensures
        ({
            let dir = ".diwa/"@ + key;
            let index = dir + "/index.db"@;
            let seed = Seed::start(host, key, source);
            &&& seed.pending() == Some(ssh(host, "mkdir -p \"$HOME/"@ + dir + "\""@))
            &&& seed.next(mkdir).pending() matches Some(copy)
            &&& copy.program == "/usr/bin/rsync"@
            &&& copy.args == seq!["-a"@, "--timeout=30"@, source.text->0, host + ":"@ + index]
            &&& Snapshot::start(host, key, dest).pending() == Some(
                ssh(host, r.0 + "\"$HOME/"@ + index + "\""@ + r.1),
            )
        }),
{
    reveal_strlit("mkdir -p \"$HOME/.diwa/");
    reveal_strlit("mkdir -p \"$HOME/");
    reveal_strlit(".diwa/");
    reveal_strlit(":.diwa/");
    reveal_strlit(":");
    reveal_strlit("/index.db");
    reveal_strlit("/index.db\"");
    reveal_strlit("\"");
    reveal_strlit("\"$HOME/.diwa/");
    reveal_strlit("\"$HOME/");
    let (head, tail) = lemma_snapshot_reads_index(host, key, dest, host, key, dest);
    let dir = ".diwa/"@ + key;
    let index = dir + "/index.db"@;
    let seed = Seed::start(host, key, source);
    assert("mkdir -p \"$HOME/.diwa/"@ =~= "mkdir -p \"$HOME/"@ + ".diwa/"@);
    assert("mkdir -p \"$HOME/.diwa/"@ + key + "\""@ =~= "mkdir -p \"$HOME/"@ + dir + "\""@);
    assert(seed.target() =~= host + ":"@ + index);
    assert(head + "\"$HOME/.diwa/"@ + key + "/index.db\""@ + tail =~= head + "\"$HOME/"@ + index
        + "\""@ + tail);
    (head, tail)
}

/// Seeds for different repos go to different places, and no file is copied before
/// the directory was made.
pub proof fn lemma_seeds_differ(
    host: Seq<char>,
    key: Seq<char>,
    other: Seq<char>,
    source: LocalPath<Seq<char>>,
)
    requires
        key != other,
    ensures
        Seed::start(host, key, source).target() != Seed::start(host, other, source).target(),
        valid_key(key) ==> Seed::start(host, key, source).stage is MakingDir,
{
    let a = Seed::start(host, key, source).target();
    let b = Seed::start(host, other, source).target();
    let start = host + ":.diwa/"@;
    let end = "/index.db"@;
    if a == b {
        assert(a.subrange(start.len() as int, a.len() - end.len()) =~= key);
        assert(b.subrange(start.len() as int, b.len() - end.len()) =~= other);
    }
}

/// Why a seeding fails is told by what failed in it.
pub proof fn lemma_seed_errors(
    host: Seq<char>,
    key: Seq<char>,
    source: LocalPath<Seq<char>>,
    mkdir: Outcome<Seq<char>, Seq<u8>>,
    copy: Outcome<Seq<char>, Seq<u8>>,
)
    ensures
        ({
            let end = Seed::start(host, key, source).next(mkdir).next(copy).stage;
            let failed = |e: PeerError<Seq<char>>|
                end == (SeedStage::<Seq<char>>::Finished { result: Err(e) });
            &&& !valid_key(key) ==> failed(key_verdict(key)->Err_0)
            &&& valid_key(key) ==> match mkdir {
                Outcome::NotStarted { cause } => failed(PeerError::MkdirNotStarted { cause }),
                Outcome::Ended { success: false, .. } => failed(
                    PeerError::MkdirFailed { host, key },
                ),
                _ => match (source.text, copy) {
                    (None, _) => failed(PeerError::SourceNotUtf8 { shown: source.shown }),
                    (Some(_), Outcome::NotStarted { cause }) => failed(
                        PeerError::SeedNotStarted { cause },
                    ),
                    (Some(from), Outcome::Ended { success: false, status, .. }) => failed(
                        PeerError::SeedFailed {
                            from,
                            to: host + ":.diwa/"@ + key + "/index.db"@,
                            status,
                        },
                    ),
                    _ => end == (SeedStage::<Seq<char>>::Finished { result: Ok(()) }),
                },
            }
        }),
{
}

/// How a snapshot is fetched: where the peer made one and named it by a path under
/// `/tmp/diwa-sync-snap.`, it is copied from exactly that path of that host to the
/// destination, and then removed at that path, which is handed to the peer's shell
/// as one word. White space around the name is dropped.
pub proof fn lemma_snapshot_copied(
    host: Seq<char>,
    key: Seq<char>,
    dest: LocalPath<Seq<char>>,
    made: Outcome<Seq<char>, Seq<u8>>,
    copy: Outcome<Seq<char>, Seq<u8>>,
) -> (r: Seq<char>)
    requires
        valid_key(key),
        dest.text is Some,
        made matches Outcome::Ended { success, stdout, .. } && success && valid_utf8(stdout)
            && "/tmp/diwa-sync-snap."@.is_prefix_of(trimmed(decode_utf8(stdout))),
        copy is Ended,
    ensures
        ({
            let path = trimmed(decode_utf8(made->stdout));
            let copying = Snapshot::start(host, key, dest).next(made);
            &&& copying.pending() matches Some(c)
            &&& c.program == "/usr/bin/rsync"@
            &&& c.args == seq!["-a"@, "--timeout=30"@, host + ":"@ + path, dest.text->0]
            &&& copying.next(copy).pending() == Some(ssh(host, "rm -f "@ + r))
            &&& shell_word(r, false) == Some(path)
        }),
{
    let path = trimmed(decode_utf8(made->stdout));
    lemma_shell_quote_read_back(path);
    shell_quoted(path)
}

/// How the fetching of a snapshot ends, by what came of its commands: well just when
/// the key is valid, the peer made a snapshot under `/tmp/diwa-sync-snap.`, the
/// destination has a textual path and the copy ran well. Otherwise the first thing
/// that went wrong is told.
pub proof fn lemma_snapshot_errors(
    host: Seq<char>,
    key: Seq<char>,
    dest: LocalPath<Seq<char>>,
    made: Outcome<Seq<char>, Seq<u8>>,
    copy: Outcome<Seq<char>, Seq<u8>>,
    rm: Outcome<Seq<char>, Seq<u8>>,
)
    ensures
        ({
            let end = Snapshot::start(host, key, dest).next(made).next(copy).next(rm).stage;
            let failed = |e: PeerError<Seq<char>>|
                end == (SnapshotStage::<Seq<char>>::Finished { result: Err(e) });
            &&& !valid_key(key) ==> failed(key_verdict(key)->Err_0)
            &&& valid_key(key) ==> match made {
                Outcome::NotStarted { cause } => failed(PeerError::SnapshotNotStarted { cause }),
                Outcome::Ended { success: false, status, stderr, .. } => failed(
                    PeerError::SnapshotFailed { host, key, status, stderr: lossy_text(stderr) },
                ),
                Outcome::Ended { success: true, stdout, .. } => {
                    let path = trimmed(decode_utf8(stdout));
                    if !valid_utf8(stdout) {
                        failed(PeerError::SnapshotPathNotUtf8 { cause: utf8_fault(stdout) })
                    } else if !"/tmp/diwa-sync-snap."@.is_prefix_of(path) {
                        failed(PeerError::SnapshotPathUnexpected { host, path })
                    } else if dest.text is None {
                        failed(PeerError::DestNotUtf8 { shown: dest.shown })
                    } else {
                        match copy {
                            Outcome::NotStarted { cause } => failed(
                                PeerError::CopyNotStarted { cause },
                            ),
                            Outcome::Ended { success: false, status, .. } => failed(
                                PeerError::CopyFailed {
                                    from: host + ":"@ + path,
                                    to: dest.text->0,
                                    status,
                                },
                            ),
                            _ => end == (SnapshotStage::<Seq<char>>::Finished { result: Ok(()) }),
                        }
                    }
                },
            }
        }),
{
}

/// What is removed at a peer: only a path under `/tmp/diwa-sync-snap.`, handed to the
/// peer's shell as one word; any other is refused.
pub proof fn lemma_removal(host: Seq<char>, path: Seq<char>) -> (r: Seq<char>)
    ensures
        shell_word(r, false) == Some(path),
        removal(host, path) == if "/tmp/diwa-sync-snap."@.is_prefix_of(path) {
            Ok::<_, PeerError<Seq<char>>>(ssh(host, "rm -f "@ + r))
        } else {
            Err::<Invocation<Seq<char>, Seq<Seq<char>>>, _>(PeerError::RemoveRefused { path })
        },
{
    lemma_shell_quote_read_back(path);
    shell_quoted(path)
}

/// A local snapshot is taken of the given database into the given file, whatever its
/// path: `sqlite3` reads the quoted path back as it was.
pub proof fn lemma_backup(local: Seq<char>, dest: Seq<char>) -> (r: Seq<char>)
    ensures
        backup(local, dest).program == "/usr/bin/sqlite3"@,
        backup(local, dest).args == seq![
            "-cmd"@,
            "PRAGMA busy_timeout=30000"@,
            local,
            ".backup '"@ + r,
        ],
        sql_string(r) == Some(dest),
{
    lemma_escape_read_back(dest);
    let r = sql_escaped(dest) + "'"@;
    assert(".backup '"@ + replaced(dest, '\'', "''"@) + "'"@ =~= ".backup '"@ + r);
    assert(backup(local, dest).args =~= seq![
        "-cmd"@,
        "PRAGMA busy_timeout=30000"@,
        local,
        ".backup '"@ + r,
    ]);
    r
}

/// What an error says: each tells everything that it holds, as it holds it.
pub proof fn lemma_peer_errors_told(a: Seq<char>, b: Seq<char>, c: Seq<char>, d: Seq<char>)
    ensures
        (PeerError::KeyLength { key: a }).text() == "invalid repo key length: "@ + quoted(a),
        (PeerError::KeyCharacters { key: a }).text() == "invalid characters in repo key: "@ + quoted(
            a,
        ),
        (PeerError::ListNotStarted { cause: a }).text() == "ssh list_repos: "@ + a,
        (PeerError::ListFailed { host: a, status: b, stderr: c }).text() == "ssh list_repos on "@ + a
            + " exited "@ + b + ": "@ + c,
        (PeerError::SnapshotNotStarted { cause: a }).text() == "ssh snapshot create: "@ + a,
        (PeerError::SnapshotFailed { host: a, key: b, status: c, stderr: d }).text()
            == "snapshot create on "@ + a + ":"@ + b + " exited "@ + c + ": "@ + d,
        (PeerError::SnapshotPathNotUtf8 { cause: a }).text() == "snapshot path not utf8: "@ + a,
        (PeerError::SnapshotPathUnexpected { host: a, path: b }).text()
            == "unexpected snapshot path from "@ + a + ": "@ + quoted(b),
        (PeerError::DestNotUtf8 { shown: a }).text() == "dest path not utf8: "@ + a,
        (PeerError::CopyNotStarted { cause: a }).text() == "rsync snapshot: "@ + a,
        (PeerError::CopyFailed { from: a, to: b, status: c }).text() == "rsync from "@ + a + " → "@
            + b + " failed: "@ + c,
        (PeerError::RemoveRefused { path: a }).text() == "refusing to rm non-snapshot path: "@ + a,
        (PeerError::MkdirNotStarted { cause: a }).text() == "ssh mkdir for push_seed: "@ + a,
        (PeerError::MkdirFailed { host: a, key: b }).text() == "mkdir on "@ + a + ":.diwa/"@ + b
            + " failed"@,
        (PeerError::SourceNotUtf8 { shown: a }).text() == "src path not utf8: "@ + a,
        (PeerError::SeedNotStarted { cause: a }).text() == "rsync push_seed: "@ + a,
        (PeerError::SeedFailed { from: a, to: b, status: c }).text() == "rsync "@ + a + " → "@ + b
            + " failed: "@ + c,
        (PeerError::LocalNotUtf8 { shown: a }).text() == "local db path not utf8: "@ + a,
        (PeerError::BackupNotStarted { cause: a }).text() == "sqlite3 .backup local: "@ + a,
        (PeerError::BackupFailed { status: a }).text() == "local sqlite3 .backup failed: "@ + a,
{
}

/// A fetching or a seeding that is finished stays as it is, whatever else is run; and
/// the host, the key and the file never change on the way.
pub proof fn lemma_finished_stays(
    s: Snapshot<Seq<char>>,
    seed: Seed<Seq<char>>,
    outcome: Outcome<Seq<char>, Seq<u8>>,
)
    ensures
        s.pending() is None ==> s.next(outcome) == s,
        s.next(outcome).host == s.host && s.next(outcome).key == s.key && s.next(outcome).dest
            == s.dest,
        seed.pending() is None ==> seed.next(outcome) == seed,
        seed.next(outcome).host == seed.host && seed.next(outcome).key == seed.key && seed.next(
            outcome,
        ).source == seed.source,
{
}

} // verus!
