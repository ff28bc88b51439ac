use back_directory::dirs::DirSnapshot;
use back_directory::navigate::{list_candidates, navigate, Visit};

fn rows(paths: &[&str]) -> Vec<Visit> {
    let mut out = Vec::new();
    let mut id = paths.len() as i64;
    for p in paths {
        out.push(Visit { id, path: p.to_string() });
        id -= 1;
    }
    out
}

fn snapshot(paths: &[&str]) -> DirSnapshot {
    let mut dirs = DirSnapshot::new();
    for p in paths {
        dirs.insert(p);
    }
    dirs
}

#[test]
fn walk_skips_missing_directory_but_counts_its_step() {
    let rows = rows(&["/b", "/a"]);
    let dirs = snapshot(&["/a", "/c"]);
    let target = navigate(&rows, &dirs, 1).unwrap();
    assert_eq!(target.path, "/a");
    assert_eq!(target.steps, 2);
    assert_eq!(target.id, 1);
}

#[test]
fn listing_is_capped_and_ascending() {
    let rows = rows(&["/c", "/gone", "/b", "/a"]);
    let dirs = snapshot(&["/a", "/b", "/c"]);
    let shown = list_candidates(&rows, &dirs, 2);
    assert_eq!(shown.len(), 2);
    assert_eq!((shown[0].step, shown[0].path.as_str()), (1, "/c"));
    assert_eq!((shown[1].step, shown[1].path.as_str()), (3, "/b"));
}
