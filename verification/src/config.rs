//! Where things are kept, and the configuration.

use std::path::PathBuf;
use vstd::prelude::*;

use crate::text;
use crate::text::{digit, two_digits, year_form};

verus! {

// ---------------------------------------------------------------------------
// Paths
// ---------------------------------------------------------------------------

/// The standard library's owned path.
#[verifier::external_type_specification]
#[verifier::external_body]
pub struct ExPathBuf(std::path::PathBuf);

/// The components of a path, from the first to the last, as text.
pub uninterp spec fn path_parts(p: PathBuf) -> Seq<Seq<char>>;

/// A name that is one ordinary component of a path: not empty, not `.` or `..`,
/// and without a separator or a drive mark.
pub open spec fn plain_name(name: Seq<char>) -> bool {
    &&& name.len() > 0
    &&& name != "."@
    &&& name != ".."@
    &&& !name.contains('/')
    &&& !name.contains('\\')
    &&& !name.contains(':')
    &&& !name.contains('\0')
}

/// A name of three characters or more needs only be free of the special ones.
proof fn lemma_plain_name(name: Seq<char>)
    requires
        name.len() > 2,
        forall|i: int|
            0 <= i < name.len() ==> #[trigger] name[i] != '/' && name[i] != '\\' && name[i] != ':'
                && name[i] != '\0',
    ensures
        plain_name(name),
{
    reveal_strlit(".");
    reveal_strlit("..");
    assert("."@.len() == 1);
    assert(".."@.len() == 2);
}

/// Trusted: on Unix, `Path::join` with an ordinary component puts it behind those
/// that the path has. What it does with other names is left out by the
/// precondition.
#[verifier::external_body]
fn join(base: &PathBuf, name: &str) -> (r: PathBuf)
    requires
        plain_name(name@),
    ensures
        path_parts(r) == path_parts(*base).push(name@),
{
    base.join(name)
}

/// Trusted: `PathBuf::from` of an ordinary component is the path of that one
/// component.
#[verifier::external_body]
fn path_of(name: &str) -> (r: PathBuf)
    requires
        plain_name(name@),
    ensures
        path_parts(r) == seq![name@],
{
    PathBuf::from(name)
}

/// Trusted: `dirs::home_dir` reads the user's home directory from the
/// environment. Nothing is claimed of what it finds there.
#[verifier::external_body]
fn home_dir() -> (r: Option<PathBuf>)
{
    dirs::home_dir()
}

/// A path could not be formed.
#[derive(Debug, Clone, Copy, PartialEq, Eq, Structural)]
pub enum ConfigError {
    /// The user has no home directory.
    NoHome,
}

impl ConfigError {
    /// The error in words.
    pub fn message(&self) -> (r: String)
        ensures
            r@ == "no home dir"@,
    {
        "no home dir".to_owned()
    }
}

/// `r` is the path `names` below `home`; without a home there is no such path.
pub open spec fn below(
    home: Option<PathBuf>,
    names: Seq<Seq<char>>,
    r: Result<PathBuf, ConfigError>,
) -> bool {
    match home {
        Some(h) => r matches Ok(p) && path_parts(p) == path_parts(h) + names,
        None => r == Err::<PathBuf, ConfigError>(ConfigError::NoHome),
    }
}

/// `~/.diwa-sync` for the given home.
pub fn sync_dir_of(home: Option<PathBuf>) -> (r: Result<PathBuf, ConfigError>)
    ensures
        below(home, seq![".diwa-sync"@], r),
{
    proof {
        reveal_strlit(".diwa-sync");
        lemma_plain_name(".diwa-sync"@);
    }
    match home {
        Some(h) => {
            let dir = join(&h, ".diwa-sync");
            assert(path_parts(dir) =~= path_parts(h) + seq![".diwa-sync"@]);
            Ok(dir)
        },
        None => Err(ConfigError::NoHome),
    }
}

/// An entry of `~/.diwa-sync` for the given home.
fn entry_of(home: Option<PathBuf>, name: &str) -> (r: Result<PathBuf, ConfigError>)
    requires
        plain_name(name@),
    ensures
        below(home, seq![".diwa-sync"@, name@], r),
{
    match sync_dir_of(home) {
        Ok(dir) => {
            let p = join(&dir, name);
            assert(path_parts(p) =~= path_parts(home->0) + seq![".diwa-sync"@, name@]);
            Ok(p)
        },
        Err(e) => Err(e),
    }
}

/// `~/.diwa-sync/config.toml` for the given home.
pub fn config_path_of(home: Option<PathBuf>) -> (r: Result<PathBuf, ConfigError>)
    ensures
        below(home, seq![".diwa-sync"@, "config.toml"@], r),
{
    proof {
        reveal_strlit("config.toml");
        lemma_plain_name("config.toml"@);
    }
    entry_of(home, "config.toml")
}

/// `~/.diwa-sync/state.json` for the given home.
pub fn state_path_of(home: Option<PathBuf>) -> (r: Result<PathBuf, ConfigError>)
    ensures
        below(home, seq![".diwa-sync"@, "state.json"@], r),
{
    proof {
        reveal_strlit("state.json");
        lemma_plain_name("state.json"@);
    }
    entry_of(home, "state.json")
}

/// `~/.diwa-sync/log` for the given home.
pub fn log_dir_of(home: Option<PathBuf>) -> (r: Result<PathBuf, ConfigError>)
    ensures
        below(home, seq![".diwa-sync"@, "log"@], r),
{
    proof {
        reveal_strlit("log");
        lemma_plain_name("log"@);
    }
    entry_of(home, "log")
}

/// `~/.diwa-sync/lock.d` for the given home.
pub fn lock_dir_of(home: Option<PathBuf>) -> (r: Result<PathBuf, ConfigError>)
    ensures
        below(home, seq![".diwa-sync"@, "lock.d"@], r),
{
    proof {
        reveal_strlit("lock.d");
        lemma_plain_name("lock.d"@);
    }
    entry_of(home, "lock.d")
}

/// `~/.diwa-sync/`
pub fn sync_dir() -> (r: Result<PathBuf, ConfigError>)
    ensures
        exists|home: Option<PathBuf>| below(home, seq![".diwa-sync"@], r),
{
    sync_dir_of(home_dir())
}

/// `~/.diwa-sync/config.toml`
pub fn config_path() -> (r: Result<PathBuf, ConfigError>)
    ensures
        exists|home: Option<PathBuf>| below(home, seq![".diwa-sync"@, "config.toml"@], r),
{
    config_path_of(home_dir())
}

/// `~/.diwa-sync/state.json`
pub fn state_path() -> (r: Result<PathBuf, ConfigError>)
    ensures
        exists|home: Option<PathBuf>| below(home, seq![".diwa-sync"@, "state.json"@], r),
{
    state_path_of(home_dir())
}

/// `~/.diwa-sync/log`
pub fn log_dir() -> (r: Result<PathBuf, ConfigError>)
    ensures
        exists|home: Option<PathBuf>| below(home, seq![".diwa-sync"@, "log"@], r),
{
    log_dir_of(home_dir())
}

/// `~/.diwa-sync/lock.d`, which exists while a run is in flight.
pub fn lock_dir() -> (r: Result<PathBuf, ConfigError>)
    ensures
        exists|home: Option<PathBuf>| below(home, seq![".diwa-sync"@, "lock.d"@], r),
{
    lock_dir_of(home_dir())
}

/// Where the local data is kept unless the configuration says otherwise.
pub open spec fn default_data_dir(home: Option<PathBuf>, dir: PathBuf) -> bool {
    path_parts(dir) == match home {
        Some(h) => path_parts(h).push(".diwa"@),
        None => seq![".diwa"@],
    }
}

/// `~/.diwa` for the given home, or `.diwa` where there is none.
pub fn default_diwa_dir_of(home: Option<PathBuf>) -> (r: PathBuf)
    ensures
        default_data_dir(home, r),
{
    proof {
        reveal_strlit(".diwa");
        lemma_plain_name(".diwa"@);
    }
    match home {
        Some(h) => join(&h, ".diwa"),
        None => path_of(".diwa"),
    }
}

/// `~/.diwa`, or `.diwa` where there is no home.
pub fn default_diwa_dir() -> (r: PathBuf)
    ensures
        exists|home: Option<PathBuf>| default_data_dir(home, r),
{
    default_diwa_dir_of(home_dir())
}

// ---------------------------------------------------------------------------
// The configuration
// ---------------------------------------------------------------------------

/// What a run is configured with.
#[derive(Debug)]
pub struct Config {
    /// SSH aliases of peer machines (any name that resolves from
    /// `~/.ssh/config`). Each peer must have a `~/.diwa/` and `sqlite3`.
    pub peers: Vec<String>,
    /// The local data directory. Defaults to `~/.diwa`.
    pub diwa_dir: PathBuf,
}

/// The configuration that a fresh installation starts with.
pub const DEFAULT_BODY: &'static str = r#"# diwa-sync config

# SSH aliases for peer machines. One entry per line of `peers = [...]`.
# These must work passwordlessly: `ssh -o BatchMode=yes <alias> true`.
peers = []

# Local diwa data dir. Default: ~/.diwa
# diwa_dir = "/Users/you/.diwa"
"#;

impl Config {
    /// The configuration with the given entries, for the given home.
    pub fn load_of(peers: Vec<String>, diwa_dir: Option<PathBuf>, home: Option<PathBuf>) -> (r:
        Config)
        ensures
            r.peers == peers,
            match diwa_dir {
                Some(dir) => r.diwa_dir == dir,
                None => default_data_dir(home, r.diwa_dir),
            },
    {
        match diwa_dir {
            Some(dir) => Config { peers, diwa_dir: dir },
            None => Config { peers, diwa_dir: default_diwa_dir_of(home) },
        }
    }

    /// The configuration with the entries that were found in its file.
    pub fn load(peers: Vec<String>, diwa_dir: Option<PathBuf>) -> (r: Config)
        ensures
            r.peers == peers,
            match diwa_dir {
                Some(dir) => r.diwa_dir == dir,
                None => exists|home: Option<PathBuf>| default_data_dir(home, r.diwa_dir),
            },
    {
        Config::load_of(peers, diwa_dir, home_dir())
    }

    /// What is written as the configuration of a fresh installation.
    pub fn write_default() -> (r: String)
        ensures
            r@ == DEFAULT_BODY@,
    {
        DEFAULT_BODY.to_owned()
    }
}

// ---------------------------------------------------------------------------
// Log files
// ---------------------------------------------------------------------------

/// How the beginning of a run is written in the name of its log file: year, month
/// and day, a dash, hour, minute and second.
pub const STAMP_PATTERN: &'static str = "%Y%m%d-%H%M%S";

/// The form of a time under `STAMP_PATTERN`. All but the year are two digits each.
pub open spec fn stamp_form(s: Seq<char>) -> bool {
    let year = s.len() - 11;
    &&& year >= 4
    &&& year_form(s.take(year))
    &&& two_digits(s, year, 1, 12)
    &&& two_digits(s, year + 2, 1, 31)
    &&& s[year + 4] == '-'
    &&& two_digits(s, year + 5, 0, 23)
    &&& two_digits(s, year + 7, 0, 59)
    &&& two_digits(s, year + 9, 0, 60)
}

/// Trusted: `chrono::Local::now`, written by its `format` under `STAMP_PATTERN`, has
/// the form of that pattern. What time it is is not stated, and other patterns are
/// left out by the precondition.
#[verifier::external_body]
fn local_stamp(pattern: &str) -> (r: String)
    requires
        pattern@ == STAMP_PATTERN@,
    ensures
        stamp_form(r@),
{
    chrono::Local::now().format(pattern).to_string()
}

/// The name of the log file of the run that began at `stamp`.
pub fn log_file_name_at(stamp: &str) -> (r: String)
    ensures
        r@ == stamp@ + ".log"@,
{
    text::joined(stamp, ".log")
}

/// The name of the log file of a run that begins now.
pub fn log_file_name() -> (r: String)
    ensures
        exists|stamp: Seq<char>| stamp_form(stamp) && r@ == #[trigger] (stamp + ".log"@),
{
    log_file_name_at(local_stamp(STAMP_PATTERN).as_str())
}

/// A time in a log file's name holds nothing that a path treats specially.
proof fn lemma_log_name_plain(stamp: Seq<char>)
    requires
        stamp_form(stamp),
    ensures
        plain_name(stamp + ".log"@),
{
    reveal_strlit(".log");
    let year = stamp.len() - 11;
    let name = stamp + ".log"@;
    assert forall|i: int| 0 <= i < name.len() implies #[trigger] name[i] != '/' && name[i] != '\\'
        && name[i] != ':' && name[i] != '\0' by {
        if i < year {
            assert(stamp.take(year)[i] == name[i]);
        } else if i < stamp.len() {
            assert(digit(name[i]) || name[i] == '-');
        }
    }
    lemma_plain_name(name);
}

/// `~/.diwa-sync/log/<stamp>.log` for the given home and the run that began at
/// `stamp`.
pub fn log_file_of(home: Option<PathBuf>, stamp: &str) -> (r: Result<PathBuf, ConfigError>)
    requires
        stamp_form(stamp@),
    ensures
        below(home, seq![".diwa-sync"@, "log"@, stamp@ + ".log"@], r),
{
    match log_dir_of(home) {
        Ok(dir) => {
            proof {
                lemma_log_name_plain(stamp@);
            }
            let p = join(&dir, log_file_name_at(stamp).as_str());
            assert(path_parts(p) =~= path_parts(home->0) + seq![
                ".diwa-sync"@,
                "log"@,
                stamp@ + ".log"@,
            ]);
            Ok(p)
        },
        Err(e) => Err(e),
    }
}

/// `r` is the log file of a run that began at some time, below some home.
pub open spec fn some_log_file(
    home: Option<PathBuf>,
    stamp: Seq<char>,
    r: Result<PathBuf, ConfigError>,
) -> bool {
    stamp_form(stamp) && below(home, seq![".diwa-sync"@, "log"@, stamp + ".log"@], r)
}

/// `~/.diwa-sync/log/<stamp>.log` for a run that begins now.
pub fn log_file() -> (r: Result<PathBuf, ConfigError>)
    ensures
        exists|home: Option<PathBuf>, stamp: Seq<char>| some_log_file(home, stamp, r),
{
    let home = home_dir();
    let stamp = local_stamp(STAMP_PATTERN);
    let r = log_file_of(home, stamp.as_str());
    assert(some_log_file(home, stamp@, r));
    r
}

/// What it is to lie below a home: the components of the home, then the given names,
/// one for one. Without a home there is no such path.
pub proof fn lemma_below(
    home: PathBuf,
    names: Seq<Seq<char>>,
    r: Result<PathBuf, ConfigError>,
    i: int,
)
    ensures
        below(Some(home), names, r) ==> {
            &&& r matches Ok(p)
            &&& path_parts(p).len() == path_parts(home).len() + names.len()
            &&& 0 <= i < path_parts(home).len() ==> path_parts(p)[i] == path_parts(home)[i]
            &&& 0 <= i < names.len() ==> path_parts(p)[path_parts(home).len() + i] == names[i]
        },
        below(None, names, r) ==> r == Err::<PathBuf, ConfigError>(ConfigError::NoHome),
{
}

/// Everything that is kept lies in the one directory, which is the first below home:
/// a path of two or more names below it has that directory's components before its
/// own.
pub proof fn lemma_kept_together(
    home: PathBuf,
    first: Seq<char>,
    rest: Seq<Seq<char>>,
    dir: PathBuf,
    p: PathBuf,
)
    requires
        below(Some(home), seq![first], Ok(dir)),
        below(Some(home), seq![first] + rest, Ok(p)),
    ensures
        path_parts(p) == path_parts(dir) + rest,
{
    assert(path_parts(p) =~= path_parts(dir) + rest);
}

/// Where the local data is kept by default: the components of the home, then
/// `.diwa`; without a home, `.diwa` alone.
pub proof fn lemma_default_data_dir(home: PathBuf, dir: PathBuf)
    ensures
        default_data_dir(Some(home), dir) ==> {
            &&& path_parts(dir).len() == path_parts(home).len() + 1
            &&& path_parts(dir).last() == ".diwa"@
            &&& path_parts(dir).drop_last() == path_parts(home)
        },
        default_data_dir(None, dir) ==> path_parts(dir) == seq![".diwa"@],
{
    if default_data_dir(Some(home), dir) {
        assert(path_parts(dir).drop_last() =~= path_parts(home));
    }
}

/// The configuration that a fresh installation starts with, line by line: what can be
/// set is explained in comments, and no peer is set.
pub proof fn lemma_default_config()
    ensures
        DEFAULT_BODY@ == "# diwa-sync config\n"@
            + "\n"@
            + "# SSH aliases for peer machines. One entry per line of `peers = [...]`.\n"@
            + "# These must work passwordlessly: `ssh -o BatchMode=yes <alias> true`.\n"@
            + "peers = []\n"@
            + "\n"@
            + "# Local diwa data dir. Default: ~/.diwa\n"@
            + "# diwa_dir = \"/Users/you/.diwa\"\n"@,
{
    reveal_strlit(r#"# diwa-sync config

# SSH aliases for peer machines. One entry per line of `peers = [...]`.
# These must work passwordlessly: `ssh -o BatchMode=yes <alias> true`.
peers = []

# Local diwa data dir. Default: ~/.diwa
# diwa_dir = "/Users/you/.diwa"
"#);
    reveal_strlit("# diwa-sync config\n");
    reveal_strlit("\n");
    reveal_strlit("# SSH aliases for peer machines. One entry per line of `peers = [...]`.\n");
    reveal_strlit("# These must work passwordlessly: `ssh -o BatchMode=yes <alias> true`.\n");
    reveal_strlit("peers = []\n");
    reveal_strlit("# Local diwa data dir. Default: ~/.diwa\n");
    reveal_strlit("# diwa_dir = \"/Users/you/.diwa\"\n");
    assert(DEFAULT_BODY@ =~= "# diwa-sync config\n"@
        + "\n"@
        + "# SSH aliases for peer machines. One entry per line of `peers = [...]`.\n"@
        + "# These must work passwordlessly: `ssh -o BatchMode=yes <alias> true`.\n"@
        + "peers = []\n"@
        + "\n"@
        + "# Local diwa data dir. Default: ~/.diwa\n"@
        + "# diwa_dir = \"/Users/you/.diwa\"\n"@);
}

} // verus!
