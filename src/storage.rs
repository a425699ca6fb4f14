//! One watched mount: the files it tracks, the walk that finds changes, and
//! the mapping from source paths to target paths.

use vstd::prelude::*;

use crate::path::{is_prefix_of, strip_spec, FsPath};
use crate::{MAX_ENTRIES_PER_STORAGE, MAX_SIZE_PER_WATCHABLE_MOUNT};

verus! {

/// The components of a path, as a mathematical value.
pub type PathView = Seq<Seq<char>>;

/// Tracked files: each source path with its last seen modification time.
pub type FilesView = Seq<(PathView, i128)>;

/// Why a scan of a watched mount failed.
#[derive(Debug, Clone)]
pub enum WatcherError {
    /// More files than a watched mount may hold were seen.
    MountTooManyFiles { count: usize, mnt: FsPath },
    /// The files seen are larger in total than a watched mount may be.
    MountTooLarge { size: u64, mnt: FsPath },
    /// A path that does not lie under the source of the mount.
    PathOutsideMount { path: FsPath, mnt: FsPath },
}

/// A `WatcherError` with its paths as components.
pub enum FailureView {
    TooManyFiles { count: nat, mnt: PathView },
    TooLarge { size: nat, mnt: PathView },
    OutsideMount { path: PathView, mnt: PathView },
}

impl View for WatcherError {
    type V = FailureView;

    open spec fn view(&self) -> FailureView {
        match self {
            WatcherError::MountTooManyFiles { count, mnt } => FailureView::TooManyFiles {
                count: *count as nat,
                mnt: mnt@,
            },
            WatcherError::MountTooLarge { size, mnt } => FailureView::TooLarge {
                size: *size as nat,
                mnt: mnt@,
            },
            WatcherError::PathOutsideMount { path, mnt } => FailureView::OutsideMount {
                path: path@,
                mnt: mnt@,
            },
        }
    }
}

impl WatcherError {
    /// Whether this is a breach of a watched mount's limits, the one failure
    /// that hands the mount over to a bind mount.
    pub fn is_threshold(&self) -> (r: bool)
        ensures
            r == (self@ is TooManyFiles || self@ is TooLarge),
    {
        match self {
            WatcherError::MountTooManyFiles { .. } => true,
            WatcherError::MountTooLarge { .. } => true,
            WatcherError::PathOutsideMount { .. } => false,
        }
    }
}

/// The request to watch one mount: where its files come from and where they
/// are mirrored to.
#[derive(Debug, Clone)]
pub struct MountDescriptor {
    pub source: FsPath,
    pub mount_point: FsPath,
}

/// A tracked source file and its last seen modification time, in
/// nanoseconds from the epoch.
#[derive(Debug, Clone)]
pub struct WatchedFile {
    pub path: FsPath,
    pub modified: i128,
}

/// One watched mount.
#[derive(Debug)]
pub struct Storage {
    /// Where the files come from; its transport cannot notify changes.
    pub source_mount_point: FsPath,
    /// Where the files are mirrored to.
    pub target_mount_point: FsPath,
    /// True while the mount is polled; false once a bind mount replaced it.
    pub watch: bool,
    /// The files seen so far, each path at most once.
    pub watched_files: Vec<WatchedFile>,
}

/// One thing the walk of a source tree meets, in the order it meets them.
pub enum WalkEvent {
    File { path: PathView, len: u64, modified: i128 },
    EnterDir,
    LeaveDir,
}

/// Where a walk stands: the tracked files, the running byte count of each
/// directory still open (innermost last), and the files marked for copy.
pub struct WalkState {
    pub files: FilesView,
    pub sizes: Seq<u64>,
    pub updated: Seq<PathView>,
}

pub open spec fn keys_distinct(f: FilesView) -> bool {
    forall|i: int, j: int| 0 <= i < f.len() && 0 <= j < f.len() && i != j ==> f[i].0 != f[j].0
}

pub open spec fn has_key(f: FilesView, p: PathView) -> bool {
    exists|i: int| 0 <= i < f.len() && f[i].0 == p
}

/// The position of `p` among the tracked files, or -1.
pub open spec fn index_of(f: FilesView, p: PathView) -> int {
    if has_key(f, p) {
        choose|i: int| 0 <= i < f.len() && f[i].0 == p
    } else {
        -1
    }
}

/// With each path tracked once, the position of a tracked path is the one
/// it stands at.
pub proof fn lemma_index_of(f: FilesView, p: PathView, i: int)
    requires
        keys_distinct(f),
        0 <= i < f.len(),
        f[i].0 == p,
    ensures
        has_key(f, p),
        index_of(f, p) == i,
{
    assert(has_key(f, p));
    let j = choose|j: int| 0 <= j < f.len() && f[j].0 == p;
    assert(j == i);
}

/// The tracked files once `p` is seen with time `m`.
pub open spec fn record(f: FilesView, p: PathView, m: i128) -> FilesView {
    if has_key(f, p) {
        f.update(index_of(f, p), (p, m))
    } else {
        f.push((p, m))
    }
}

/// A file is copied when it is new or newer than when last seen.
pub open spec fn needs_copy(f: FilesView, p: PathView, m: i128) -> bool {
    !has_key(f, p) || m > f[index_of(f, p)].1
}

/// `a + b`, or the largest `u64` where that does not fit.
pub open spec fn sat_add(a: u64, b: u64) -> u64 {
    if a + b > u64::MAX {
        u64::MAX
    } else {
        (a + b) as u64
    }
}

/// Adds `n` bytes to the innermost open directory, if there is one.
pub open spec fn add_to_top(sizes: Seq<u64>, n: u64) -> Seq<u64> {
    if sizes.len() == 0 {
        sizes
    } else {
        sizes.update(sizes.len() - 1, sat_add(sizes.last(), n))
    }
}

/// One step of a walk: the state after the event, and the failure it raises.
pub open spec fn step(st: WalkState, e: WalkEvent, mnt: PathView) -> (WalkState, Option<
    FailureView,
>) {
    match e {
        WalkEvent::File { path, len, modified } => {
            let files = record(st.files, path, modified);
            let updated = if needs_copy(st.files, path, modified) {
                st.updated.push(path)
            } else {
                st.updated
            };
            if files.len() > MAX_ENTRIES_PER_STORAGE {
                (
                    WalkState { files, sizes: st.sizes, updated },
                    Some(FailureView::TooManyFiles { count: files.len(), mnt }),
                )
            } else if len > MAX_SIZE_PER_WATCHABLE_MOUNT {
                (
                    WalkState { files, sizes: st.sizes, updated },
                    Some(FailureView::TooLarge { size: len as nat, mnt }),
                )
            } else {
                (WalkState { files, sizes: add_to_top(st.sizes, len), updated }, None)
            }
        },
        WalkEvent::EnterDir => (
            WalkState { files: st.files, sizes: st.sizes.push(0), updated: st.updated },
            None,
        ),
        WalkEvent::LeaveDir => {
            if st.sizes.len() == 0 {
                (st, None)
            } else {
                let total = st.sizes.last();
                let rest = st.sizes.drop_last();
                if total > MAX_SIZE_PER_WATCHABLE_MOUNT {
                    (
                        WalkState { files: st.files, sizes: rest, updated: st.updated },
                        Some(FailureView::TooLarge { size: total as nat, mnt }),
                    )
                } else {
                    (
                        WalkState {
                            files: st.files,
                            sizes: add_to_top(rest, total),
                            updated: st.updated,
                        },
                        None,
                    )
                }
            }
        },
    }
}

/// A whole walk: the steps in order, up to the first failure.
pub open spec fn walk(st: WalkState, es: Seq<WalkEvent>, mnt: PathView) -> (WalkState, Option<
    FailureView,
>)
    decreases es.len(),
{
    if es.len() == 0 {
        (st, None)
    } else {
        let (next, failure) = step(st, es[0], mnt);
        if failure is Some {
            (next, failure)
        } else {
            walk(next, es.subrange(1, es.len() as int), mnt)
        }
    }
}

/// The target path of source path `p`: the target root followed by what
/// lies below the source root.
pub open spec fn target_of(source: PathView, target: PathView, p: PathView) -> PathView {
    target + strip_spec(source, p)
}

pub open spec fn failure_of(r: Result<(), WatcherError>) -> Option<FailureView> {
    match r {
        Ok(_) => None,
        Err(e) => Some(e@),
    }
}

/// The progress of one scan over a source tree.
#[derive(Debug)]
pub struct ScanPass {
    /// Bytes counted so far in each directory still open, innermost last.
    pub sizes: Vec<u64>,
    /// Files marked for copy, in the order they were met.
    pub updated: Vec<FsPath>,
}

impl ScanPass {
    /// A pass that has met nothing yet.
    pub fn new() -> (r: ScanPass)
        ensures
            r.sizes@.len() == 0,
            r.updated@.len() == 0,
    {
        ScanPass { sizes: Vec::new(), updated: Vec::new() }
    }
}

/// The walk state that a storage and a pass over it stand for.
pub open spec fn walk_state(s: Storage, pass: ScanPass) -> WalkState {
    WalkState {
        files: s.files(),
        sizes: pass.sizes@,
        updated: pass.updated@.map_values(|q: FsPath| q@),
    }
}

impl Storage {
    /// The tracked files as paths and times.
    pub open spec fn files(&self) -> FilesView {
        self.watched_files@.map_values(|w: WatchedFile| (w.path@, w.modified))
    }

    /// Each source path is tracked at most once.
    pub open spec fn wf(&self) -> bool {
        keys_distinct(self.files())
    }

    /// A watched mount that tracks nothing yet.
    pub fn new(storage: MountDescriptor) -> (r: Storage)
        ensures
            r.wf(),
            r.source_mount_point@ == storage.source@,
            r.target_mount_point@ == storage.mount_point@,
            r.watch,
            r.files().len() == 0,
    {
        let r = Storage {
            source_mount_point: storage.source,
            target_mount_point: storage.mount_point,
            watch: true,
            watched_files: Vec::new(),
        };
        assert(r.files() =~= Seq::<(PathView, i128)>::empty());
        r
    }

    /// The target path of a source path below the source root; an error
    /// for a path that does not lie below it.
    pub fn make_target_path(&self, source_file_path: &FsPath) -> (r: Result<FsPath, WatcherError>)
        ensures
            r is Ok <==> is_prefix_of(self.source_mount_point@, source_file_path@),
            r matches Ok(t) ==> t@ == target_of(
                self.source_mount_point@,
                self.target_mount_point@,
                source_file_path@,
            ),
            r matches Err(e) ==> e@ == (FailureView::OutsideMount {
                path: source_file_path@,
                mnt: self.source_mount_point@,
            }),
    {
        match source_file_path.strip_prefix(&self.source_mount_point) {
            Some(relative) => Ok(self.target_mount_point.join(&relative)),
            None => Err(
                WatcherError::PathOutsideMount {
                    path: source_file_path.duplicate(),
                    mnt: self.source_mount_point.duplicate(),
                },
            ),
        }
    }

    /// Where a marked file is copied to: the target itself where the watched
    /// source is a single file, else its mapped target path.
    pub fn copy_destination(&self, source_file_path: &FsPath, source_is_file: bool) -> (r: Result<
        FsPath,
        WatcherError,
    >)
        ensures
            source_is_file ==> (r matches Ok(t) && t@ == self.target_mount_point@),
            !source_is_file ==> (r is Ok <==> is_prefix_of(
                self.source_mount_point@,
                source_file_path@,
            )),
            !source_is_file ==> (r matches Ok(t) ==> t@ == target_of(
                self.source_mount_point@,
                self.target_mount_point@,
                source_file_path@,
            )),
            r matches Err(e) ==> e@ == (FailureView::OutsideMount {
                path: source_file_path@,
                mnt: self.source_mount_point@,
            }),
    {
        if source_is_file {
            Ok(self.target_mount_point.duplicate())
        } else {
            self.make_target_path(source_file_path)
        }
    }

    /// The tracked source paths, in the order they were first seen.
    pub fn tracked_paths(&self) -> (r: Vec<FsPath>)
        ensures
            r@.len() == self.files().len(),
            forall|i: int| 0 <= i < r@.len() ==> r@[i]@ == self.files()[i].0,
    {
        let mut out: Vec<FsPath> = Vec::new();
        let mut i: usize = 0;
        while i < self.watched_files.len()
            invariant
                i <= self.watched_files@.len(),
                out@.len() == i,
                forall|k: int| 0 <= k < i ==> out@[k]@ == self.files()[k].0,
            decreases self.watched_files@.len() - i,
        {
            out.push(self.watched_files[i].path.duplicate());
            i = i + 1;
        }
        out
    }

    /// The position of `p` among the tracked files.
    fn find_file(&self, p: &FsPath) -> (r: Option<usize>)
        requires
            self.wf(),
        ensures
            r is Some <==> has_key(self.files(), p@),
            r matches Some(i) ==> i == index_of(self.files(), p@) && i < self.files().len(),
    {
        let mut i: usize = 0;
        while i < self.watched_files.len()
            invariant
                self.wf(),
                i <= self.watched_files@.len(),
                forall|k: int| 0 <= k < i ==> self.files()[k].0 != p@,
            decreases self.watched_files@.len() - i,
        {
            if self.watched_files[i].path.same_as(p) {
                proof {
                    lemma_index_of(self.files(), p@, i as int);
                }
                return Some(i);
            }
            i = i + 1;
        }
        None
    }
}

impl Storage {
    /// Meets a file of `len` bytes modified at `modified` during a walk:
    /// tracks it with that time, marks it for copy when it is new or newer,
    /// then fails where too many files are tracked or the file alone is too
    /// large, and otherwise counts its bytes in the directory that holds it.
    pub fn record_file(&mut self, pass: &mut ScanPass, path: FsPath, len: u64, modified: i128) -> (r:
        Result<(), WatcherError>)
        requires
            old(self).wf(),
        ensures
            final(self).wf(),
            final(self).source_mount_point == old(self).source_mount_point,
            final(self).target_mount_point == old(self).target_mount_point,
            final(self).watch == old(self).watch,
            walk_state(*final(self), *final(pass)) == step(
                walk_state(*old(self), *old(pass)),
                WalkEvent::File { path: path@, len, modified },
                old(self).source_mount_point@,
            ).0,
            failure_of(r) == step(
                walk_state(*old(self), *old(pass)),
                WalkEvent::File { path: path@, len, modified },
                old(self).source_mount_point@,
            ).1,
    {
        let ghost f0 = self.files();
        let ghost u0 = pass.updated@.map_values(|q: FsPath| q@);
        let copy: bool;
        match self.find_file(&path) {
            Some(i) => {
                copy = modified > self.watched_files[i].modified;
                self.watched_files.set(i, WatchedFile { path: path.duplicate(), modified });
                assert(self.files() =~= f0.update(i as int, (path@, modified)));
                assert forall|a: int, b: int|
                    0 <= a < self.files().len() && 0 <= b < self.files().len() && a != b
                        implies self.files()[a].0 != self.files()[b].0 by {
                    if a != i && b != i {
                        assert(f0[a].0 != f0[b].0);
                    } else if a == i {
                        assert(f0[b].0 != f0[i as int].0);
                    } else {
                        assert(f0[a].0 != f0[i as int].0);
                    }
                }
            },
            None => {
                copy = true;
                self.watched_files.push(WatchedFile { path: path.duplicate(), modified });
                assert(self.files() =~= f0.push((path@, modified)));
            },
        }
        assert(self.files() == record(f0, path@, modified));
        assert(copy == needs_copy(f0, path@, modified));
        if copy {
            let ghost pv = path@;
            pass.updated.push(path);
            assert(pass.updated@.map_values(|q: FsPath| q@) =~= u0.push(pv));
        }
        let count = self.watched_files.len();
        if count > MAX_ENTRIES_PER_STORAGE {
            return Err(
                WatcherError::MountTooManyFiles { count, mnt: self.source_mount_point.duplicate() },
            );
        }
        if len > MAX_SIZE_PER_WATCHABLE_MOUNT {
            return Err(
                WatcherError::MountTooLarge { size: len, mnt: self.source_mount_point.duplicate() },
            );
        }
        add_to_innermost(&mut pass.sizes, len);
        Ok(())
    }

    /// Opens a directory during a walk: its byte count starts at zero.
    pub fn enter_dir(&self, pass: &mut ScanPass)
        ensures
            walk_state(*self, *final(pass)) == step(
                walk_state(*self, *old(pass)),
                WalkEvent::EnterDir,
                self.source_mount_point@,
            ).0,
    {
        pass.sizes.push(0);
    }

    /// Closes the innermost open directory during a walk: fails where its
    /// files are too large in total, and otherwise adds its bytes to the
    /// directory that holds it.
    pub fn leave_dir(&self, pass: &mut ScanPass) -> (r: Result<(), WatcherError>)
        ensures
            walk_state(*self, *final(pass)) == step(
                walk_state(*self, *old(pass)),
                WalkEvent::LeaveDir,
                self.source_mount_point@,
            ).0,
            failure_of(r) == step(
                walk_state(*self, *old(pass)),
                WalkEvent::LeaveDir,
                self.source_mount_point@,
            ).1,
    {
        match pass.sizes.pop() {
            None => Ok(()),
            Some(total) => {
                if total > MAX_SIZE_PER_WATCHABLE_MOUNT {
                    Err(
                        WatcherError::MountTooLarge {
                            size: total,
                            mnt: self.source_mount_point.duplicate(),
                        },
                    )
                } else {
                    add_to_innermost(&mut pass.sizes, total);
                    Ok(())
                }
            },
        }
    }

    /// Stops tracking a source file that is gone, and gives the target path
    /// whose copy is then stale.
    pub fn forget_file(&mut self, path: &FsPath) -> (r: Result<FsPath, WatcherError>)
        requires
            old(self).wf(),
        ensures
            final(self).wf(),
            final(self).source_mount_point == old(self).source_mount_point,
            final(self).target_mount_point == old(self).target_mount_point,
            final(self).watch == old(self).watch,
            !has_key(final(self).files(), path@),
            has_key(old(self).files(), path@) ==> final(self).files() == old(self).files().remove(
                index_of(old(self).files(), path@),
            ),
            !has_key(old(self).files(), path@) ==> final(self).files() == old(self).files(),
            r is Ok <==> is_prefix_of(old(self).source_mount_point@, path@),
            r matches Ok(t) ==> t@ == target_of(
                old(self).source_mount_point@,
                old(self).target_mount_point@,
                path@,
            ),
            r matches Err(e) ==> e@ == (FailureView::OutsideMount {
                path: path@,
                mnt: old(self).source_mount_point@,
            }),
    {
        let ghost f0 = self.files();
        match self.find_file(path) {
            Some(i) => {
                self.watched_files.remove(i);
                assert(self.files() =~= f0.remove(i as int));
                assert forall|a: int| 0 <= a < self.files().len() implies self.files()[a].0
                    != path@ by {
                    if a < i {
                        assert(f0[a].0 != f0[i as int].0);
                    } else {
                        assert(f0[a + 1].0 != f0[i as int].0);
                    }
                }
                assert forall|a: int, b: int|
                    0 <= a < self.files().len() && 0 <= b < self.files().len() && a != b
                        implies self.files()[a].0 != self.files()[b].0 by {
                    let a0 = if a < i { a } else { a + 1 };
                    let b0 = if b < i { b } else { b + 1 };
                    assert(f0[a0].0 != f0[b0].0);
                }
            },
            None => {},
        }
        self.make_target_path(path)
    }
}

impl Storage {
    /// Records the outcome of an attempt to bind mount the source onto the
    /// target: a mount that succeeded ends the polling for good.
    pub fn complete_fallback(&mut self, mounted: bool)
        requires
            old(self).wf(),
        ensures
            final(self).wf(),
            final(self).watch == (old(self).watch && !mounted),
            final(self).source_mount_point == old(self).source_mount_point,
            final(self).target_mount_point == old(self).target_mount_point,
            final(self).watched_files == old(self).watched_files,
    {
        if mounted {
            self.watch = false;
        }
    }

    /// Whether releasing this mount's target must first undo a bind mount.
    pub fn needs_unmount(&self) -> (r: bool)
        ensures
            r == !self.watch,
    {
        !self.watch
    }
}

/// Adds `n` to the last count, saturating, where there is one.
fn add_to_innermost(sizes: &mut Vec<u64>, n: u64)
    ensures
        final(sizes)@ == add_to_top(old(sizes)@, n),
{
    let k = sizes.len();
    if k > 0 {
        let total = sizes[k - 1].saturating_add(n);
        sizes.set(k - 1, total);
        assert(sizes@ =~= add_to_top(old(sizes)@, n));
    }
}

} // verus!
