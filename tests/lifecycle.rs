use watcher::path::FsPath;
use watcher::sandbox::SandboxStorages;
use watcher::storage::{MountDescriptor, ScanPass, WatcherError};

fn path(s: &str) -> FsPath {
    let mut parts = Vec::new();
    if s.starts_with('/') {
        parts.push("/".to_string());
    }
    for part in s.split('/').filter(|c| !c.is_empty()) {
        parts.push(part.to_string());
    }
    FsPath::new(parts)
}

fn descriptor(source: &str, target: &str) -> MountDescriptor {
    MountDescriptor { source: path(source), mount_point: path(target) }
}

#[test]
fn test_empty_sourcedir_check() {
    let mut entries = SandboxStorages::new();
    entries.add(vec![descriptor("/tmp/src", "/tmp/dest")]);
    assert_eq!(entries.0.len(), 1);
    let entry = &mut entries.0[0];
    let mut pass = ScanPass::new();
    entry.enter_dir(&mut pass);
    entry.leave_dir(&mut pass).unwrap();
    assert!(pass.updated.is_empty());
    assert!(entry.watch);
}

#[test]
fn test_single_file_check() {
    let mut entries = SandboxStorages::new();
    entries.add(vec![descriptor("/tmp/src.txt", "/tmp/dest.txt")]);
    let entry = &mut entries.0[0];
    let mut pass = ScanPass::new();
    entry.record_file(&mut pass, path("/tmp/src.txt"), 8, 1).unwrap();
    // The initial check copies the one file, onto the target itself.
    assert_eq!(pass.updated, vec![path("/tmp/src.txt")]);
    assert_eq!(
        entry.copy_destination(&pass.updated[0], true).unwrap(),
        path("/tmp/dest.txt")
    );
}

#[test]
fn added_mounts_keep_order_and_start_watched() {
    let mut entries = SandboxStorages::new();
    entries.add(vec![descriptor("/a", "/ta"), descriptor("/b", "/tb")]);
    entries.add(vec![descriptor("/c", "/tc")]);
    let sources: Vec<FsPath> = entries.0.iter().map(|s| s.source_mount_point.clone()).collect();
    assert_eq!(sources, vec![path("/a"), path("/b"), path("/c")]);
    assert_eq!(entries.0[2].target_mount_point, path("/tc"));
    assert!(entries.0.iter().all(|s| s.watch && s.tracked_paths().is_empty()));
    assert_eq!(entries.watched_indices(), vec![0, 1, 2]);
}

#[test]
fn fallback_ends_watching() {
    let mut entries = SandboxStorages::new();
    entries.add(vec![descriptor("/a", "/ta"), descriptor("/b", "/tb")]);
    let too_many = WatcherError::MountTooManyFiles { count: 17, mnt: path("/a") };
    let too_large = WatcherError::MountTooLarge { size: 5, mnt: path("/a") };
    let outside = WatcherError::PathOutsideMount { path: path("/x"), mnt: path("/a") };
    assert!(too_many.is_threshold());
    assert!(too_large.is_threshold());
    assert!(!outside.is_threshold());

    // A failed bind mount leaves the mount polled.
    entries.0[0].complete_fallback(false);
    assert!(entries.0[0].watch);
    entries.0[0].complete_fallback(true);
    assert!(!entries.0[0].watch);
    // The transition is for good.
    entries.0[0].complete_fallback(false);
    assert!(!entries.0[0].watch);
    assert_eq!(entries.watched_indices(), vec![1]);
}

#[test]
fn release_unmounts_fallen_back_mounts() {
    let mut entries = SandboxStorages::new();
    entries.add(vec![descriptor("/a", "/ta"), descriptor("/b", "/tb")]);
    entries.0[1].complete_fallback(true);
    let plan = entries.release_plan();
    assert_eq!(plan.len(), 2);
    assert_eq!(plan[0].target, path("/ta"));
    assert!(!plan[0].unmount);
    assert_eq!(plan[1].target, path("/tb"));
    assert!(plan[1].unmount);
    assert!(entries.0[1].needs_unmount());
    assert!(!entries.0[0].needs_unmount());
}

#[test]
fn join_and_strip() {
    let base = path("/r");
    let rest = FsPath::new(vec!["x".to_string(), "y".to_string()]);
    let joined = base.join(&rest);
    assert_eq!(joined, path("/r/x/y"));
    assert_eq!(joined.len(), 4);
    assert_eq!(joined.strip_prefix(&base).unwrap(), rest);
    assert!(base.strip_prefix(&joined).is_none());
    assert_eq!(joined.duplicate(), joined);
    assert!(!joined.same_as(&base));
}
