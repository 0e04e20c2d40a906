use github_rust_actions::cache::{
    build_cache_entry, build_cached_folder_info, cached_folder_info_dir, cached_folder_info_path,
    decide_save, find_cargo_home, find_path, join, next_restore_action, save_report, RestoreAction,
    RestoreEvent, SaveDecision, SaveReport,
};
use github_rust_actions::error::Error;
use github_rust_actions::fingerprint::{Entry, EntryKind};
use github_rust_actions::segment::CacheType;
use github_rust_actions::sidecar::CachedFolderInfo;
use github_rust_actions::toolchain::{Cargo, Rustup};

fn info(path: &str, fingerprint: u64) -> CachedFolderInfo {
    CachedFolderInfo { path: path.to_string(), fingerprint }
}

#[test]
fn cargo_home_defaults_below_home() {
    assert_eq!(find_cargo_home("/root", "/work", None), "/root/.cargo");
    assert_eq!(find_cargo_home("/root/", "/work", None), "/root/.cargo");
    assert_eq!(find_cargo_home("/root", "/work", Some("")), "/root/.cargo");
    assert_eq!(find_cargo_home("/root", "/work", Some("/opt/cargo")), "/opt/cargo");
}

#[test]
fn relative_cargo_home_is_taken_against_working_directory() {
    assert_eq!(find_cargo_home("/root", "/work", Some("rel/cargo")), "/work/rel/cargo");
    assert_eq!(find_cargo_home("/root", "/work/", Some(".cargo2")), "/work/.cargo2");
    let a = find_cargo_home("/root", "/a", Some("c"));
    let b = find_cargo_home("/root", "/b", Some("c"));
    assert_ne!(find_path(&a, CacheType::Indices), find_path(&b, CacheType::Indices));
}

#[test]
fn restore_clears_existing_folder_then_looks_up() {
    assert_eq!(next_restore_action(RestoreEvent::FolderChecked { exists: true }), RestoreAction::ClearFolder);
    assert_eq!(next_restore_action(RestoreEvent::FolderChecked { exists: false }), RestoreAction::LookUpCache);
    assert_eq!(next_restore_action(RestoreEvent::FolderCleared), RestoreAction::LookUpCache);
}

#[test]
fn restore_creates_folder_only_on_miss() {
    assert_eq!(next_restore_action(RestoreEvent::CacheLookedUp { hit: false }), RestoreAction::CreateFolder);
    assert_eq!(next_restore_action(RestoreEvent::CacheLookedUp { hit: true }), RestoreAction::RecordFolder);
    assert_eq!(next_restore_action(RestoreEvent::FolderCreated), RestoreAction::RecordFolder);
}

#[test]
fn upload_failure_is_reported_not_fatal() {
    assert!(matches!(save_report(None), SaveReport::Unchanged));
    assert!(matches!(save_report(Some(Ok(()))), SaveReport::Saved));
    match save_report(Some(Err("quota".to_string()))) {
        SaveReport::UploadFailed(Error::HostCacheFailure(m)) => assert_eq!(m, "quota"),
        other => panic!("unexpected {:?}", other),
    }
}

#[test]
fn segment_folders() {
    assert_eq!(find_path("/root/.cargo", CacheType::Indices), "/root/.cargo/registry/index");
    assert_eq!(find_path("/root/.cargo", CacheType::Crates), "/root/.cargo/registry/cache");
    assert_eq!(find_path("/opt/cargo/", CacheType::GitRepos), "/opt/cargo/git/db");
    assert_eq!(join("", "x"), "x");
}

#[test]
fn sidecar_locations() {
    assert_eq!(cached_folder_info_dir("/home/u"), "/home/u/.cache/github-rust-actions/cached_folder_info");
    assert_eq!(
        cached_folder_info_path("/home/u", CacheType::GitRepos),
        "/home/u/.cache/github-rust-actions/cached_folder_info/git-repos.toml"
    );
}

#[test]
fn cache_key_from_nonce() {
    let e = build_cache_entry(CacheType::Indices, "/root/.cargo/registry/index", &vec![0; 8]);
    assert_eq!(e.key, "Registry indices - AAAAAAAAAAA");
    assert_eq!(e.restore_keys, vec!["Registry indices".to_string()]);
    assert_eq!(e.paths, vec!["/root/.cargo/registry/index".to_string()]);
    let f = build_cache_entry(CacheType::Crates, "/p", &vec![0xfb, 0xef, 0xbe, 0xff, 0xff, 0xff, 0, 0]);
    assert_eq!(f.key, "Crate files - ----____AAA");
    let g = build_cache_entry(CacheType::GitRepos, "/p", &b"hello wo".to_vec());
    assert_eq!(g.key, "Git repositories - aGVsbG8gd28");
}

#[test]
fn distinct_nonces_give_distinct_keys() {
    let a = build_cache_entry(CacheType::Indices, "/p", &vec![1, 2, 3, 4, 5, 6, 7, 8]);
    let b = build_cache_entry(CacheType::Indices, "/p", &vec![1, 2, 3, 4, 5, 6, 7, 9]);
    assert_ne!(a.key, b.key);
    assert_eq!(a.restore_keys, b.restore_keys);
}

#[test]
fn folder_info_records_path_and_fingerprint() {
    let entries = vec![Entry { path: vec![b"a.txt".to_vec()], kind: EntryKind::File, contents: b"hello".to_vec() }];
    let r = build_cached_folder_info("/x".to_string(), entries, &CacheType::Crates.ignores());
    assert_eq!(r.path, "/x");
    assert_eq!(r.fingerprint, 0xf91b_6b72_99c3_f600);
}

#[test]
fn unchanged_segment_is_not_uploaded() {
    let r = decide_save(CacheType::Indices, Some(info("/root/.cargo/registry/index", 9)), &info("/root/.cargo/registry/index", 9));
    assert_eq!(r.unwrap(), SaveDecision::Unchanged);
}

#[test]
fn changed_segment_is_uploaded() {
    let r = decide_save(CacheType::Indices, Some(info("/root/.cargo/registry/index", 9)), &info("/root/.cargo/registry/index", 10));
    assert_eq!(r.unwrap(), SaveDecision::Upload);
}

#[test]
fn changed_home_is_a_path_mismatch() {
    let r = decide_save(CacheType::Indices, Some(info("/root/.cargo/registry/index", 9)), &info("/opt/cargo/registry/index", 9));
    match r {
        Err(Error::PathMismatch { old, new }) => {
            assert_eq!(old, "/root/.cargo/registry/index");
            assert_eq!(new, "/opt/cargo/registry/index");
        }
        other => panic!("unexpected {:?}", other),
    }
}

#[test]
fn missing_sidecar_is_reported() {
    match decide_save(CacheType::Crates, None, &info("/x", 1)) {
        Err(Error::SidecarMissing(s)) => assert_eq!(s, "crates"),
        other => panic!("unexpected {:?}", other),
    }
}

#[test]
fn clippy_asks_for_json() {
    let (args, json) = Cargo::command_args("clippy", &vec!["--all".to_string()]);
    assert!(json);
    assert_eq!(args, vec!["clippy".to_string(), "--message-format=json".to_string(), "--all".to_string()]);
    let (args, json) = Cargo::command_args("build", &vec!["--release".to_string()]);
    assert!(!json);
    assert_eq!(args, vec!["build".to_string(), "--release".to_string()]);
}

#[test]
fn toolchain_paths_and_installer() {
    assert_eq!(Cargo::from_path("/bin/cargo".to_string()).executable(), "/bin/cargo");
    assert_eq!(Rustup::from_path("/bin/rustup".to_string()).executable(), "/bin/rustup");
    assert!(Rustup::installer_supported("linux"));
    assert!(Rustup::installer_supported("darwin"));
    assert!(!Rustup::installer_supported("win32"));
    assert_eq!(Rustup::installer_args(), vec!["--default-toolchain".to_string(), "none".to_string(), "-y".to_string()]);
}
