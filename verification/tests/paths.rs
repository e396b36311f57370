use std::cmp::Ordering;
use std::path::Path;

use helix_notebook::init_cache::{sort_stamps_by_path, SourceStamp};
use helix_notebook::paths::compare_paths;

fn std_order(a: &str, b: &str) -> i8 {
    match Path::new(a).cmp(Path::new(b)) {
        Ordering::Less => -1,
        Ordering::Equal => 0,
        Ordering::Greater => 1,
    }
}

#[test]
fn path_order_follows_std() {
    let paths = [
        "", "/", "//", "/a", "/a/", "/a//b", "/a/b", "/a/./b", "a", "a/b", "a-b", "./a", ".", "..", "../a",
        "a/..", "/steel/cogs/nothelix/a.scm", "/steel/cogs/nothelix/b.scm", "/steel/cogs", "b", "é", "e",
        "./", "a/.", "/.", ".a", "..a",
    ];
    for a in paths {
        for b in paths {
            assert_eq!(compare_paths(a, b), std_order(a, b), "{a:?} vs {b:?}");
        }
    }
}

#[test]
fn stamps_sort_stably_by_path() {
    let stamp = |p: &str, n: u64| SourceStamp { path: p.to_string(), mtime_secs: n, mtime_nanos: 0, size: 0 };
    let sorted = sort_stamps_by_path(vec![stamp("/b", 1), stamp("/a/x", 2), stamp("/a//x", 3), stamp("/a", 4)]);
    let got: Vec<(String, u64)> = sorted.iter().map(|s| (s.path.clone(), s.mtime_secs)).collect();
    assert_eq!(
        got,
        vec![("/a".to_string(), 4), ("/a/x".to_string(), 2), ("/a//x".to_string(), 3), ("/b".to_string(), 1)]
    );
}
