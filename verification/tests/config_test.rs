use diwa_sync::config::{
    config_path, config_path_of, default_diwa_dir, default_diwa_dir_of, lock_dir, lock_dir_of,
    log_dir, log_dir_of, log_file, log_file_name, log_file_name_at, log_file_of, state_path,
    state_path_of, sync_dir,
    sync_dir_of, Config, ConfigError, STAMP_PATTERN,
};
use std::path::PathBuf;

fn home() -> Option<PathBuf> {
    Some(PathBuf::from("/home/me"))
}

#[test]
fn paths_lie_below_home() {
    assert_eq!(sync_dir_of(home()).unwrap(), PathBuf::from("/home/me/.diwa-sync"));
    assert_eq!(
        config_path_of(home()).unwrap(),
        PathBuf::from("/home/me/.diwa-sync/config.toml")
    );
    assert_eq!(
        state_path_of(home()).unwrap(),
        PathBuf::from("/home/me/.diwa-sync/state.json")
    );
    assert_eq!(log_dir_of(home()).unwrap(), PathBuf::from("/home/me/.diwa-sync/log"));
    assert_eq!(
        lock_dir_of(home()).unwrap(),
        PathBuf::from("/home/me/.diwa-sync/lock.d")
    );
}

#[test]
fn without_a_home_there_are_no_paths() {
    assert_eq!(sync_dir_of(None), Err(ConfigError::NoHome));
    assert_eq!(config_path_of(None), Err(ConfigError::NoHome));
    assert_eq!(state_path_of(None), Err(ConfigError::NoHome));
    assert_eq!(log_dir_of(None), Err(ConfigError::NoHome));
    assert_eq!(lock_dir_of(None), Err(ConfigError::NoHome));
    assert_eq!(ConfigError::NoHome.message(), "no home dir");
}

#[test]
fn paths_follow_the_home_of_the_user() {
    let home = dirs::home_dir();
    assert_eq!(sync_dir(), sync_dir_of(home.clone()));
    assert_eq!(config_path(), config_path_of(home.clone()));
    assert_eq!(state_path(), state_path_of(home.clone()));
    assert_eq!(log_dir(), log_dir_of(home.clone()));
    assert_eq!(lock_dir(), lock_dir_of(home.clone()));
    assert_eq!(default_diwa_dir(), default_diwa_dir_of(home));
}

#[test]
fn data_dir_has_a_default() {
    assert_eq!(default_diwa_dir_of(home()), PathBuf::from("/home/me/.diwa"));
    assert_eq!(default_diwa_dir_of(None), PathBuf::from(".diwa"));

    let peers = vec!["host-a".to_string(), "host-b".to_string()];
    let given = Config::load_of(peers.clone(), Some(PathBuf::from("/data")), home());
    assert_eq!(given.peers, peers);
    assert_eq!(given.diwa_dir, PathBuf::from("/data"));
    let absent = Config::load_of(vec![], None, home());
    assert!(absent.peers.is_empty());
    assert_eq!(absent.diwa_dir, PathBuf::from("/home/me/.diwa"));
    assert_eq!(Config::load(vec![], None).diwa_dir, default_diwa_dir());
    assert_eq!(
        Config::load(vec![], Some(PathBuf::from("/d"))).diwa_dir,
        PathBuf::from("/d")
    );
}

#[test]
fn default_config_has_no_peers_and_no_data_dir() {
    let table: toml::Table = Config::write_default().parse().unwrap();
    assert_eq!(table.len(), 1);
    assert!(table["peers"].as_array().unwrap().is_empty());
}

#[test]
fn log_files_are_named_by_time() {
    assert_eq!(log_file_name_at("20260102-030405"), "20260102-030405.log");
    let name = log_file_name();
    assert_eq!(name.len(), "YYYYmmdd-HHMMSS.log".len());
    assert!(name.ends_with(".log"));
    for (i, c) in name[..15].chars().enumerate() {
        if i == 8 {
            assert_eq!(c, '-');
        } else {
            assert!(c.is_ascii_digit());
        }
    }
    let before = chrono::Local::now().naive_local() - chrono::TimeDelta::hours(2);
    let stamp = chrono::NaiveDateTime::parse_from_str(&name[..15], STAMP_PATTERN).unwrap();
    assert!(before < stamp && stamp < before + chrono::TimeDelta::hours(4));
}

#[test]
fn log_files_lie_in_the_log_directory() {
    assert_eq!(
        log_file_of(home(), "20260102-030405").unwrap(),
        PathBuf::from("/home/me/.diwa-sync/log/20260102-030405.log")
    );
    assert_eq!(log_file_of(None, "20260102-030405"), Err(ConfigError::NoHome));
    match log_file() {
        Ok(path) => {
            assert_eq!(path.parent(), Some(log_dir().unwrap().as_path()));
            let name = path.file_name().unwrap().to_str().unwrap();
            assert!(name.ends_with(".log"));
            assert!(chrono::NaiveDateTime::parse_from_str(&name[..15], STAMP_PATTERN).is_ok());
        }
        Err(e) => {
            assert_eq!(e, ConfigError::NoHome);
            assert!(dirs::home_dir().is_none());
        }
    }
}
