use std::collections::HashMap;
use std::time::UNIX_EPOCH;

use helix_notebook::init_cache::{
    sort_stamps_by_path,    next_init_action, InitAction, InitStep,
    artifact_matches, check_module_stamp, fnv1a, manifest_is_current, new_manifest, temporary_path,
    CacheKey, CachePaths, InitCacheManifest, ModuleStampProblem, SourceStamp,
};
use helix_notebook::time::mtime_parts;

fn stamp(path: &str, mtime_secs: u64, mtime_nanos: u32, size: u64) -> SourceStamp {
    SourceStamp { path: path.to_string(), mtime_secs, mtime_nanos, size }
}

fn key() -> CacheKey {
    CacheKey {
        hx_build: "hx-test-build".to_string(),
        steel_compat: "steel-test".to_string(),
        steel_home: "/home/user/.steel".to_string(),
    }
}

fn manifest() -> InitCacheManifest {
    InitCacheManifest {
        hx_build: "hx-test-build".to_string(),
        steel_compat: "steel-test".to_string(),
        steel_home: "/home/user/.steel".to_string(),
        hx_binary: stamp("/usr/local/bin/hx", 50, 0, 90000),
        init_script: stamp("/cfg/helix/init.scm", 100, 5, 40),
        modules: vec![
            stamp("/steel/cogs/nothelix/a.scm", 200, 0, 1000),
            stamp("/steel/cogs/nothelix/b.scm", 300, 9, 2000),
        ],
        artifact_len: 0,
        artifact_checksum: 0,
    }
}

fn disk(stamps: &[SourceStamp]) -> impl Fn(&String) -> Option<SourceStamp> {
    let map: HashMap<String, SourceStamp> = stamps.iter().map(|s| (s.path.clone(), s.clone())).collect();
    move |path: &String| map.get(path).cloned()
}

fn full_disk(manifest: &InitCacheManifest) -> Vec<SourceStamp> {
    let mut stamps = manifest.modules.clone();
    stamps.push(manifest.init_script.clone());
    stamps.push(manifest.hx_binary.clone());
    stamps
}

#[test]
fn unchanged_sources_validate() {
    let manifest = manifest();
    let observe = disk(&full_disk(&manifest));
    assert!(manifest_is_current(&manifest, &key(), "/cfg/helix/init.scm", "/usr/local/bin/hx", &observe));
}

#[test]
fn touched_module_invalidates() {
    let manifest = manifest();
    let mut stamps = full_disk(&manifest);
    stamps[0].mtime_nanos += 1;
    let observe = disk(&stamps);
    assert!(!manifest_is_current(&manifest, &key(), "/cfg/helix/init.scm", "/usr/local/bin/hx", &observe));
}

#[test]
fn resized_module_invalidates() {
    let manifest = manifest();
    let mut stamps = full_disk(&manifest);
    stamps[1].size += 7;
    let observe = disk(&stamps);
    assert!(!manifest_is_current(&manifest, &key(), "/cfg/helix/init.scm", "/usr/local/bin/hx", &observe));
}

#[test]
fn deleted_module_invalidates() {
    let manifest = manifest();
    let mut stamps = full_disk(&manifest);
    stamps.remove(0);
    let observe = disk(&stamps);
    assert!(!manifest_is_current(&manifest, &key(), "/cfg/helix/init.scm", "/usr/local/bin/hx", &observe));
}

#[test]
fn edited_init_script_invalidates() {
    let manifest = manifest();
    let mut stamps = full_disk(&manifest);
    let init = stamps.iter().position(|s| s.path == manifest.init_script.path).unwrap();
    stamps[init].mtime_secs += 1;
    let observe = disk(&stamps);
    assert!(!manifest_is_current(&manifest, &key(), "/cfg/helix/init.scm", "/usr/local/bin/hx", &observe));
}

#[test]
fn rebuilt_binary_invalidates() {
    let manifest = manifest();
    let mut stamps = full_disk(&manifest);
    let binary = stamps.iter().position(|s| s.path == manifest.hx_binary.path).unwrap();
    stamps[binary].size += 1024;
    let observe = disk(&stamps);
    assert!(!manifest_is_current(&manifest, &key(), "/cfg/helix/init.scm", "/usr/local/bin/hx", &observe));
}

#[test]
fn relocated_init_script_invalidates() {
    let manifest = manifest();
    let observe = disk(&full_disk(&manifest));
    assert!(!manifest_is_current(&manifest, &key(), "/elsewhere/init.scm", "/usr/local/bin/hx", &observe));
}

#[test]
fn relocated_binary_invalidates() {
    let manifest = manifest();
    let observe = disk(&full_disk(&manifest));
    assert!(!manifest_is_current(&manifest, &key(), "/cfg/helix/init.scm", "/nix/store/other/bin/hx", &observe));
}

#[test]
fn hx_build_change_invalidates() {
    let manifest = manifest();
    let observe = disk(&full_disk(&manifest));
    let mut key = key();
    key.hx_build = "hx-other-build".to_string();
    assert!(!manifest_is_current(&manifest, &key, "/cfg/helix/init.scm", "/usr/local/bin/hx", &observe));
}

#[test]
fn steel_rev_change_invalidates() {
    let manifest = manifest();
    let observe = disk(&full_disk(&manifest));
    let mut key = key();
    key.steel_compat = "steel-other".to_string();
    assert!(!manifest_is_current(&manifest, &key, "/cfg/helix/init.scm", "/usr/local/bin/hx", &observe));
}

#[test]
fn steel_home_change_invalidates() {
    let manifest = manifest();
    let observe = disk(&full_disk(&manifest));
    let mut key = key();
    key.steel_home = "/other/.steel".to_string();
    assert!(!manifest_is_current(&manifest, &key, "/cfg/helix/init.scm", "/usr/local/bin/hx", &observe));
}

#[test]
fn fnv1a_known_vectors() {
    assert_eq!(fnv1a(b""), 0xcbf29ce484222325);
    assert_eq!(fnv1a(b"a"), 0xaf63dc4c8601ec8c);
    assert_eq!(fnv1a(b"foobar"), 0x85944171f73967e8);
}

#[test]
fn pre_epoch_mtime_rejected() {
    let before_epoch = UNIX_EPOCH - std::time::Duration::from_secs(1);
    assert_eq!(mtime_parts(before_epoch), None);
    assert_eq!(mtime_parts(UNIX_EPOCH + std::time::Duration::new(12, 34)), Some((12, 34)));
}

#[test]
fn cache_paths_live_in_the_cache_dir() {
    let paths = CachePaths::in_dir("/home/user/.cache/helix");
    assert_eq!(paths.artifact(), "/home/user/.cache/helix/steel-init.bin");
    assert_eq!(paths.manifest(), "/home/user/.cache/helix/steel-init.manifest");
    assert_eq!(temporary_path(paths.artifact()), "/home/user/.cache/helix/steel-init.bin.tmp");
}

#[test]
fn new_manifest_records_length_and_checksum() {
    let m = manifest();
    let made = new_manifest(&key(), m.hx_binary.clone(), m.init_script.clone(), m.modules.clone(), b"foobar");
    assert_eq!(made.artifact_len, 6);
    assert_eq!(made.artifact_checksum, 0x85944171f73967e8);
    assert_eq!(made.hx_build, "hx-test-build");
    assert!(artifact_matches(&made, b"foobar"));
    assert!(!artifact_matches(&made, b"foobaz"));
    assert!(!artifact_matches(&made, b"foo"));
}

#[test]
fn module_stamp_must_match_compile_time() {
    let s = stamp("/steel/a.scm", 200, 7, 10);
    assert_eq!(check_module_stamp(&s, Some((200, 7))), Ok(()));
    assert_eq!(check_module_stamp(&s, Some((200, 8))), Err(ModuleStampProblem::Changed));
    assert_eq!(check_module_stamp(&s, None), Err(ModuleStampProblem::PreEpoch));
}

#[test]
fn current_key_carries_the_build() {
    let key = CacheKey::current("hx-1", Some("/home/u/.steel".to_string()));
    assert_eq!(key.hx_build, "hx-1");
    assert_eq!(key.steel_compat, "785149c");
    assert_eq!(key.steel_home, "/home/u/.steel");
    assert_eq!(CacheKey::current("hx-1", None).steel_home, "");
}

#[test]
fn paths_match_by_components() {
    let manifest = manifest();
    let observe = disk(&full_disk(&manifest));
    assert!(manifest_is_current(&manifest, &key(), "/cfg/helix/init.scm/", "/usr/local/bin/./hx", &observe));
    assert!(manifest_is_current(&manifest, &key(), "/cfg//helix/init.scm", "/usr/local/bin/hx", &observe));
    assert!(!manifest_is_current(&manifest, &key(), "cfg/helix/init.scm", "/usr/local/bin/hx", &observe));
}

#[test]
fn init_falls_back_to_compiling() {
    assert_eq!(next_init_action(InitStep::Lookup, true), InitAction::PrepareCached);
    assert_eq!(next_init_action(InitStep::Lookup, false), InitAction::Compile);
    assert_eq!(next_init_action(InitStep::Prepare, true), InitAction::RunCached);
    assert_eq!(next_init_action(InitStep::Prepare, false), InitAction::DiscardAndCompile);
    assert_eq!(next_init_action(InitStep::RunCached, true), InitAction::Finish);
    assert_eq!(next_init_action(InitStep::RunCached, false), InitAction::DiscardAndCompile);
}

#[test]
fn stamps_sort_by_path_stably() {
    let sorted = sort_stamps_by_path(vec![
        stamp("/b/x.scm", 1, 0, 1),
        stamp("/a/y.scm", 2, 0, 2),
        stamp("/b/x.scm/", 3, 0, 3),
        stamp("/a", 4, 0, 4),
    ]);
    let order: Vec<u64> = sorted.iter().map(|s| s.mtime_secs).collect();
    assert_eq!(order, vec![4, 2, 1, 3]);
}
