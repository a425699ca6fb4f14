use watcher::path::FsPath;
use watcher::storage::{MountDescriptor, ScanPass, Storage, WatcherError};
use watcher::{MAX_ENTRIES_PER_STORAGE, MAX_SIZE_PER_WATCHABLE_MOUNT};

fn path(s: &str) -> FsPath {
    let mut parts = Vec::new();
    if s.starts_with('/') {
        parts.push("/".to_string());
    }
    for part in s.split('/').filter(|c| !c.is_empty()) {
        parts.push(part.to_string());
    }
    FsPath::new(parts)
}

fn storage(source: &str, target: &str) -> Storage {
    Storage::new(MountDescriptor { source: path(source), mount_point: path(target) })
}

/// A file met by a walk: its path, its size and its modification time.
struct Seen(&'static str, u64, i128);

/// Forgets the known files that `present` no longer holds, then walks
/// `present` as a directory, the way a scan of a source directory does.
/// Gives the stale target paths and the files marked for copy.
fn scan_dir(entry: &mut Storage, present: &[Seen]) -> Result<(Vec<FsPath>, Vec<FsPath>), WatcherError> {
    let mut stale = Vec::new();
    for known in entry.tracked_paths() {
        if !present.iter().any(|f| path(f.0) == known) {
            stale.push(entry.forget_file(&known)?);
        }
    }
    let mut pass = ScanPass::new();
    entry.enter_dir(&mut pass);
    for f in present {
        entry.record_file(&mut pass, path(f.0), f.1, f.2)?;
    }
    entry.leave_dir(&mut pass)?;
    Ok((stale, pass.updated))
}

fn copied(entry: &mut Storage, present: &[Seen]) -> usize {
    scan_dir(entry, present).unwrap().1.len()
}

#[test]
fn make_target_path() {
    let entry = storage("/tmp/src", "/tmp/dst");
    assert_eq!(entry.make_target_path(&path("/tmp/src/1.txt")).unwrap(), path("/tmp/dst/1.txt"));
    assert_eq!(
        entry.make_target_path(&path("/tmp/src/a/b/2.txt")).unwrap(),
        path("/tmp/dst/a/b/2.txt")
    );
}

#[test]
fn make_target_path_outside_mount() {
    let entry = storage("/tmp/src", "/tmp/dst");
    match entry.make_target_path(&path("/tmp/other/1.txt")) {
        Err(WatcherError::PathOutsideMount { path: p, mnt }) => {
            assert_eq!(p, path("/tmp/other/1.txt"));
            assert_eq!(mnt, path("/tmp/src"));
        }
        _ => panic!("expected an error"),
    }
    // A component is compared whole, not as a prefix of characters.
    assert!(entry.make_target_path(&path("/tmp/srcx/1.txt")).is_err());
}

#[test]
fn watch_directory() {
    let mut entry = storage("/s", "/d");
    let mut files = vec![Seen("/s/1.txt", 3, 100), Seen("/s/A/B/1.txt", 3, 100)];
    assert_eq!(copied(&mut entry, &files), 2);
    // Nothing changed since the last scan.
    assert_eq!(copied(&mut entry, &files), 0);
    files[1] = Seen("/s/A/B/1.txt", 7, 200);
    let (_, updated) = scan_dir(&mut entry, &files).unwrap();
    assert_eq!(updated, vec![path("/s/A/B/1.txt")]);
    assert_eq!(
        entry.copy_destination(&updated[0], false).unwrap(),
        path("/d/A/B/1.txt")
    );
    assert_eq!(copied(&mut entry, &files), 0);
    files[0] = Seen("/s/1.txt", 7, 300);
    assert_eq!(copied(&mut entry, &files), 1);
}

#[test]
fn watch_file() {
    let mut entry = storage("/s/1.txt", "/d/1.txt");
    let mut scan = |len: u64, modified: i128| {
        let mut pass = ScanPass::new();
        entry.record_file(&mut pass, path("/s/1.txt"), len, modified).unwrap();
        pass.updated
    };
    assert_eq!(scan(3, 100).len(), 1);
    assert_eq!(scan(3, 200).len(), 1);
    assert_eq!(scan(3, 200).len(), 0);
    // The single file is copied onto the target itself.
    assert_eq!(
        entry.copy_destination(&path("/s/1.txt"), true).unwrap(),
        path("/d/1.txt")
    );
}

#[test]
fn older_time_is_not_copied() {
    let mut entry = storage("/s", "/d");
    assert_eq!(copied(&mut entry, &[Seen("/s/a", 1, 500)]), 1);
    assert_eq!(copied(&mut entry, &[Seen("/s/a", 1, 400)]), 0);
    // The older time is now the one known.
    assert_eq!(copied(&mut entry, &[Seen("/s/a", 1, 450)]), 1);
}

#[test]
fn delete_file() {
    let mut entry = storage("/s", "/d");
    assert_eq!(copied(&mut entry, &[Seen("/s/1.txt", 3, 100)]), 1);
    assert_eq!(entry.tracked_paths(), vec![path("/s/1.txt")]);
    let (stale, updated) = scan_dir(&mut entry, &[]).unwrap();
    assert_eq!(updated.len(), 0);
    assert_eq!(stale, vec![path("/d/1.txt")]);
    assert_eq!(entry.tracked_paths().len(), 0);
}

#[test]
fn removed_file_is_deleted_and_nothing_copied() {
    let mut entry = storage("/s", "/d");
    let all = [Seen("/s/a.txt", 1, 10), Seen("/s/b/c.txt", 1, 10)];
    assert_eq!(copied(&mut entry, &all), 2);
    let (stale, updated) = scan_dir(&mut entry, &[Seen("/s/a.txt", 1, 10)]).unwrap();
    assert_eq!(stale, vec![path("/d/b/c.txt")]);
    assert_eq!(updated.len(), 0);
    assert_eq!(entry.tracked_paths(), vec![path("/s/a.txt")]);
}

#[test]
fn forget_untracked_file() {
    let mut entry = storage("/s", "/d");
    assert_eq!(entry.forget_file(&path("/s/x")).unwrap(), path("/d/x"));
    assert!(matches!(
        entry.forget_file(&path("/elsewhere/x")),
        Err(WatcherError::PathOutsideMount { .. })
    ));
}

#[test]
fn watch_directory_too_large() {
    let mut entry = storage("/s", "/d");
    match scan_dir(&mut entry, &[Seen("/s/big.txt", MAX_SIZE_PER_WATCHABLE_MOUNT + 1, 10)]) {
        Err(WatcherError::MountTooLarge { size, mnt }) => {
            assert_eq!(size, MAX_SIZE_PER_WATCHABLE_MOUNT + 1);
            assert_eq!(mnt, path("/s"));
        }
        _ => panic!("expected error"),
    }
    let big = Seen("/s/big.txt", MAX_SIZE_PER_WATCHABLE_MOUNT - 1, 20);
    assert!(scan_dir(&mut entry, &[big]).is_ok());

    let big = Seen("/s/big.txt", MAX_SIZE_PER_WATCHABLE_MOUNT - 1, 20);
    match scan_dir(&mut entry, &[big, Seen("/s/too-big.txt", 2, 30)]) {
        Err(WatcherError::MountTooLarge { size, .. }) => {
            assert_eq!(size, MAX_SIZE_PER_WATCHABLE_MOUNT + 1)
        }
        _ => panic!("unexpected error"),
    }

    let names: Vec<&'static str> = (1..=17)
        .map(|i| &*Box::leak(format!("/s/{}.txt", i).into_boxed_str()))
        .collect();
    let sixteen: Vec<Seen> =
        names[..MAX_ENTRIES_PER_STORAGE].iter().map(|n| Seen(n, 8, 40)).collect();
    assert_eq!(copied(&mut entry, &sixteen), MAX_ENTRIES_PER_STORAGE);

    let seventeen: Vec<Seen> = names.iter().map(|n| Seen(n, 8, 40)).collect();
    match scan_dir(&mut entry, &seventeen) {
        Err(WatcherError::MountTooManyFiles { count, .. }) => {
            assert_eq!(count, MAX_ENTRIES_PER_STORAGE + 1)
        }
        _ => panic!("unexpected error"),
    }
}

#[test]
fn size_just_under_limit_then_grown() {
    let mut entry = storage("/s", "/d");
    let half = MAX_SIZE_PER_WATCHABLE_MOUNT / 2;
    let files = [Seen("/s/a", half, 1), Seen("/s/b", half - 1, 1)];
    assert_eq!(copied(&mut entry, &files), 2);
    let grown = [Seen("/s/a", half, 1), Seen("/s/b", half + 1, 2)];
    match scan_dir(&mut entry, &grown) {
        Err(WatcherError::MountTooLarge { size, .. }) => {
            assert_eq!(size, MAX_SIZE_PER_WATCHABLE_MOUNT + 1)
        }
        _ => panic!("expected too large"),
    }
}

#[test]
fn oversized_single_file_mount() {
    let mut entry = storage("/s/f", "/d/f");
    let mut pass = ScanPass::new();
    let r = entry.record_file(&mut pass, path("/s/f"), MAX_SIZE_PER_WATCHABLE_MOUNT + 1, 5);
    assert!(matches!(r, Err(WatcherError::MountTooLarge { .. })));
    // The file is known all the same.
    assert_eq!(entry.tracked_paths(), vec![path("/s/f")]);
}

#[test]
fn nested_directories_add_up() {
    let mut entry = storage("/s", "/d");
    let mut pass = ScanPass::new();
    let third = MAX_SIZE_PER_WATCHABLE_MOUNT / 3 + 1;
    entry.enter_dir(&mut pass);
    entry.record_file(&mut pass, path("/s/a"), third, 1).unwrap();
    entry.enter_dir(&mut pass);
    entry.record_file(&mut pass, path("/s/x/b"), third, 1).unwrap();
    entry.record_file(&mut pass, path("/s/x/c"), third, 1).unwrap();
    // The inner directory alone is within the limit.
    entry.leave_dir(&mut pass).unwrap();
    match entry.leave_dir(&mut pass) {
        Err(WatcherError::MountTooLarge { size, .. }) => assert_eq!(size, 3 * third),
        _ => panic!("expected too large"),
    }
}

#[test]
fn two_file_scenario() {
    let mut entry = storage("/s", "/d");
    let files = [Seen("/s/a.txt", 1, 10), Seen("/s/b/c.txt", 1, 10)];
    let (_, updated) = scan_dir(&mut entry, &files).unwrap();
    assert_eq!(updated.len(), 2);
    let targets: Vec<FsPath> =
        updated.iter().map(|p| entry.copy_destination(p, false).unwrap()).collect();
    assert_eq!(targets, vec![path("/d/a.txt"), path("/d/b/c.txt")]);
    assert_eq!(copied(&mut entry, &files), 0);
    let changed = [Seen("/s/a.txt", 1, 10), Seen("/s/b/c.txt", 1, 20)];
    let (_, updated) = scan_dir(&mut entry, &changed).unwrap();
    assert_eq!(updated, vec![path("/s/b/c.txt")]);
    assert_eq!(entry.copy_destination(&updated[0], false).unwrap(), path("/d/b/c.txt"));
}

#[test]
fn empty_walk_is_harmless() {
    let entry = storage("/s", "/d");
    let mut pass = ScanPass::new();
    assert!(entry.leave_dir(&mut pass).is_ok());
    assert!(pass.sizes.is_empty());
}

#[test]
fn new_file_first_in_full_directory_fails() {
    let mut entry = storage("/s", "/d");
    let names: Vec<&'static str> = (0..=MAX_ENTRIES_PER_STORAGE)
        .map(|i| &*Box::leak(format!("/s/f{}", i).into_boxed_str()))
        .collect();
    let known: Vec<Seen> = names[1..].iter().map(|n| Seen(n, 1, 7)).collect();
    assert_eq!(copied(&mut entry, &known), MAX_ENTRIES_PER_STORAGE);
    // The new file is met before any of the known ones.
    let all: Vec<Seen> = names.iter().map(|n| Seen(n, 1, 7)).collect();
    match scan_dir(&mut entry, &all) {
        Err(WatcherError::MountTooManyFiles { count, mnt }) => {
            assert_eq!(count, MAX_ENTRIES_PER_STORAGE + 1);
            assert_eq!(mnt, path("/s"));
        }
        _ => panic!("expected too many files"),
    }
}
