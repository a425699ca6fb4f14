//! Properties of whole walks, over the step by step semantics that the walk
//! methods of `Storage` are proved to follow.

use vstd::prelude::*;

use crate::storage::{
    add_to_top, has_key, index_of, keys_distinct, lemma_index_of, record, sat_add, step, walk,
    FailureView, FilesView, PathView, WalkEvent, WalkState,
};
use crate::{MAX_ENTRIES_PER_STORAGE, MAX_SIZE_PER_WATCHABLE_MOUNT};

verus! {

/// The walk meets a file at `q`.
pub open spec fn touches(es: Seq<WalkEvent>, q: PathView) -> bool {
    exists|k: int| 0 <= k < es.len() && es[k] is File && es[k]->path == q
}

/// The walk meets some file.
pub open spec fn has_file(es: Seq<WalkEvent>) -> bool {
    exists|k: int| 0 <= k < es.len() && es[k] is File
}

/// No two files met by the walk share a path, as in a walk of a real tree.
pub open spec fn file_paths_distinct(es: Seq<WalkEvent>) -> bool {
    forall|i: int, j: int|
        0 <= i < es.len() && 0 <= j < es.len() && i != j && es[i] is File && es[j] is File
            ==> es[i]->path != es[j]->path
}

/// `f` tracks `p` with time `m`.
pub open spec fn tracks_at(f: FilesView, p: PathView, m: i128) -> bool {
    has_key(f, p) && f[index_of(f, p)].1 == m
}

proof fn lemma_record(f: FilesView, p: PathView, m: i128)
    requires
        keys_distinct(f),
    ensures
        keys_distinct(record(f, p, m)),
        record(f, p, m).len() >= f.len(),
        has_key(record(f, p, m), p),
        record(f, p, m)[index_of(record(f, p, m), p)] == (p, m),
        forall|q: PathView|
            q != p ==> (#[trigger] has_key(record(f, p, m), q) == has_key(f, q) && (has_key(f, q)
                ==> record(f, p, m)[index_of(record(f, p, m), q)] == f[index_of(f, q)])),
{
    let g = record(f, p, m);
    if has_key(f, p) {
        let i = index_of(f, p);
        assert(0 <= i < f.len() && f[i].0 == p);
        assert(g == f.update(i, (p, m)));
        assert forall|a: int, b: int| 0 <= a < g.len() && 0 <= b < g.len() && a != b implies g[a].0
            != g[b].0 by {
            if a != i && b != i {
                assert(f[a].0 != f[b].0);
            } else if a == i {
                assert(f[b].0 != f[i].0);
            } else {
                assert(f[a].0 != f[i].0);
            }
        }
        lemma_index_of(g, p, i);
        assert forall|q: PathView| q != p implies (#[trigger] has_key(g, q) == has_key(f, q) && (
        has_key(f, q) ==> g[index_of(g, q)] == f[index_of(f, q)])) by {
            if has_key(f, q) {
                let j = index_of(f, q);
                assert(0 <= j < f.len() && f[j].0 == q);
                assert(g[j] == f[j]);
                lemma_index_of(g, q, j);
            }
            if has_key(g, q) {
                let j = choose|j: int| 0 <= j < g.len() && g[j].0 == q;
                assert(f[j].0 == q);
            }
        }
    } else {
        assert(g == f.push((p, m)));
        assert forall|a: int, b: int| 0 <= a < g.len() && 0 <= b < g.len() && a != b implies g[a].0
            != g[b].0 by {
            if a < f.len() && b < f.len() {
                assert(f[a].0 != f[b].0);
            } else if a == f.len() {
                assert(f[b].0 != p);
            } else {
                assert(f[a].0 != p);
            }
        }
        lemma_index_of(g, p, f.len() as int);
        assert forall|q: PathView| q != p implies (#[trigger] has_key(g, q) == has_key(f, q) && (
        has_key(f, q) ==> g[index_of(g, q)] == f[index_of(f, q)])) by {
            if has_key(f, q) {
                let j = index_of(f, q);
                assert(0 <= j < f.len() && f[j].0 == q);
                assert(g[j] == f[j]);
                lemma_index_of(g, q, j);
            }
            if has_key(g, q) {
                let j = choose|j: int| 0 <= j < g.len() && g[j].0 == q;
                assert(j < f.len());
                assert(f[j].0 == q);
            }
        }
    }
}

/// What a walk without failure leaves tracked: every file it met with the
/// time it met it at, every other path as before; no fewer files than
/// before; the files as before where it met none, and within the limit
/// where it met some.
proof fn lemma_walk_records(st: WalkState, es: Seq<WalkEvent>, mnt: PathView)
    requires
        keys_distinct(st.files),
        file_paths_distinct(es),
        walk(st, es, mnt).1 is None,
    ensures
        keys_distinct(walk(st, es, mnt).0.files),
        walk(st, es, mnt).0.files.len() >= st.files.len(),
        !has_file(es) ==> walk(st, es, mnt).0.files == st.files,
        has_file(es) ==> walk(st, es, mnt).0.files.len() <= MAX_ENTRIES_PER_STORAGE,
        forall|k: int|
            0 <= k < es.len() && #[trigger] es[k] is File ==> tracks_at(
                walk(st, es, mnt).0.files,
                es[k]->path,
                es[k]->modified,
            ),
        forall|q: PathView|
            !touches(es, q) ==> (#[trigger] has_key(walk(st, es, mnt).0.files, q) == has_key(
                st.files,
                q,
            ) && (has_key(st.files, q) ==> walk(st, es, mnt).0.files[index_of(
                walk(st, es, mnt).0.files,
                q,
            )] == st.files[index_of(st.files, q)])),
    decreases es.len(),
{
    if es.len() == 0 {
        assert(!has_file(es));
        return;
    }
    let s1 = step(st, es[0], mnt).0;
    let tail = es.subrange(1, es.len() as int);
    let fin = walk(st, es, mnt).0.files;
    assert(walk(st, es, mnt) == walk(s1, tail, mnt));
    assert forall|i: int, j: int|
        0 <= i < tail.len() && 0 <= j < tail.len() && i != j && tail[i] is File && tail[j] is File
            implies tail[i]->path != tail[j]->path by {
        assert(es[i + 1] == tail[i] && es[j + 1] == tail[j]);
    }
    match es[0] {
        WalkEvent::File { path, len, modified } => {
            lemma_record(st.files, path, modified);
        },
        _ => {},
    }
    assert(keys_distinct(s1.files));
    lemma_walk_records(s1, tail, mnt);
    assert(has_file(tail) ==> has_file(es)) by {
        if has_file(tail) {
            let k = choose|k: int| 0 <= k < tail.len() && tail[k] is File;
            assert(es[k + 1] == tail[k]);
        }
    }
    if es[0] is File {
        let p = es[0]->path;
        assert(has_file(es));
        assert(!touches(tail, p)) by {
            if touches(tail, p) {
                let k = choose|k: int| 0 <= k < tail.len() && tail[k] is File && tail[k]->path == p;
                assert(es[k + 1] == tail[k]);
            }
        }
        assert(tracks_at(fin, p, es[0]->modified));
    } else {
        assert(s1.files == st.files);
        assert(has_file(es) ==> has_file(tail)) by {
            if has_file(es) {
                let k = choose|k: int| 0 <= k < es.len() && es[k] is File;
                assert(k != 0);
                assert(tail[k - 1] == es[k]);
            }
        }
    }
    assert forall|k: int| 0 <= k < es.len() && #[trigger] es[k] is File implies tracks_at(
        fin,
        es[k]->path,
        es[k]->modified,
    ) by {
        if k > 0 {
            assert(tail[k - 1] == es[k]);
        }
    }
    assert forall|q: PathView| !touches(es, q) implies (#[trigger] has_key(fin, q) == has_key(
        st.files,
        q,
    ) && (has_key(st.files, q) ==> fin[index_of(fin, q)] == st.files[index_of(st.files, q)])) by {
        assert(!touches(tail, q)) by {
            if touches(tail, q) {
                let k = choose|k: int| 0 <= k < tail.len() && tail[k] is File && tail[k]->path == q;
                assert(es[k + 1] == tail[k]);
            }
        }
        if es[0] is File {
            assert(es[0]->path != q);
        }
    }
}

/// A second walk over the same events, from the files the first one left
/// and the same open directories, changes no tracked file, marks nothing
/// and fails nowhere.
proof fn lemma_rewalk(
    sa: WalkState,
    sb: WalkState,
    es: Seq<WalkEvent>,
    mnt: PathView,
    f1: FilesView,
)
    requires
        sa.sizes == sb.sizes,
        sb.files == f1,
        keys_distinct(f1),
        walk(sa, es, mnt).1 is None,
        has_file(es) ==> f1.len() <= MAX_ENTRIES_PER_STORAGE,
        forall|k: int|
            0 <= k < es.len() && #[trigger] es[k] is File ==> tracks_at(
                f1,
                es[k]->path,
                es[k]->modified,
            ),
    ensures
        walk(sb, es, mnt) == (
        WalkState { files: f1, sizes: walk(sa, es, mnt).0.sizes, updated: sb.updated },
        None::<FailureView>,
        ),
    decreases es.len(),
{
    if es.len() == 0 {
        return;
    }
    let tail = es.subrange(1, es.len() as int);
    let a1 = step(sa, es[0], mnt).0;
    let b1 = step(sb, es[0], mnt).0;
    assert(step(sa, es[0], mnt).1 is None);
    if es[0] is File {
        let p = es[0]->path;
        let m = es[0]->modified;
        assert(has_file(es));
        let i = index_of(f1, p);
        assert(0 <= i < f1.len() && f1[i].0 == p);
        assert(f1[i] == (p, m));
        assert(record(f1, p, m) =~= f1);
    }
    assert(step(sb, es[0], mnt).1 is None);
    assert(b1 == WalkState { files: f1, sizes: a1.sizes, updated: sb.updated });
    assert(has_file(tail) ==> has_file(es)) by {
        if has_file(tail) {
            let k = choose|k: int| 0 <= k < tail.len() && tail[k] is File;
            assert(es[k + 1] == tail[k]);
        }
    }
    assert forall|k: int| 0 <= k < tail.len() && #[trigger] tail[k] is File implies tracks_at(
        f1,
        tail[k]->path,
        tail[k]->modified,
    ) by {
        assert(es[k + 1] == tail[k]);
    }
    lemma_rewalk(a1, b1, tail, mnt, f1);
}

/// Scanning a tree that has not changed since the last scan copies nothing
/// and leaves the tracked files as they are: a walk that met every file
/// once and did not fail, walked again over the same events from where it
/// left the files, marks no file, fails nowhere and changes no tracked file.
pub proof fn law_unchanged_tree_rescan(st: WalkState, es: Seq<WalkEvent>, mnt: PathView)
    requires
        keys_distinct(st.files),
        file_paths_distinct(es),
        walk(st, es, mnt).1 is None,
    ensures
        walk(
            WalkState { files: walk(st, es, mnt).0.files, sizes: st.sizes, updated: Seq::empty() },
            es,
            mnt,
        ) == (
        WalkState {
            files: walk(st, es, mnt).0.files,
            sizes: walk(st, es, mnt).0.sizes,
            updated: Seq::<PathView>::empty(),
        },
        None::<FailureView>,
        ),
{
    let f1 = walk(st, es, mnt).0.files;
    lemma_walk_records(st, es, mnt);
    lemma_rewalk(
        st,
        WalkState { files: f1, sizes: st.sizes, updated: Seq::empty() },
        es,
        mnt,
        f1,
    );
}

/// A walk that meets only files already tracked, each at the time it is
/// tracked at, marks nothing for copy and changes no tracked file, whether
/// or not it fails.
pub proof fn law_known_files_not_copied(st: WalkState, es: Seq<WalkEvent>, mnt: PathView)
    requires
        keys_distinct(st.files),
        forall|k: int|
            0 <= k < es.len() && #[trigger] es[k] is File ==> tracks_at(
                st.files,
                es[k]->path,
                es[k]->modified,
            ),
    ensures
        walk(st, es, mnt).0.files == st.files,
        walk(st, es, mnt).0.updated == st.updated,
    decreases es.len(),
{
    if es.len() == 0 {
        return;
    }
    let tail = es.subrange(1, es.len() as int);
    if es[0] is File {
        let p = es[0]->path;
        let m = es[0]->modified;
        let i = index_of(st.files, p);
        assert(0 <= i < st.files.len() && st.files[i].0 == p);
        assert(st.files[i] == (p, m));
        assert(record(st.files, p, m) =~= st.files);
    }
    let s1 = step(st, es[0], mnt).0;
    assert(s1.files == st.files && s1.updated == st.updated);
    if step(st, es[0], mnt).1 is None {
        assert forall|k: int| 0 <= k < tail.len() && #[trigger] tail[k] is File implies tracks_at(
            s1.files,
            tail[k]->path,
            tail[k]->modified,
        ) by {
            assert(es[k + 1] == tail[k]);
        }
        law_known_files_not_copied(s1, tail, mnt);
    }
}

/// After a scan that met every file once and did not fail, a file that is
/// then removed and forgotten leaves a rescan of the rest of the tree with
/// nothing to copy and the remaining files tracked as they were.
pub proof fn law_removed_file_rescan(
    st: WalkState,
    es: Seq<WalkEvent>,
    j: int,
    mnt: PathView,
)
    requires
        keys_distinct(st.files),
        file_paths_distinct(es),
        walk(st, es, mnt).1 is None,
        0 <= j < es.len(),
        es[j] is File,
    ensures
        ({
            let f1 = walk(st, es, mnt).0.files;
            let f2 = f1.remove(index_of(f1, es[j]->path));
            let rest = es.remove(j);
            &&& !has_key(f2, es[j]->path)
            &&& walk(WalkState { files: f2, sizes: st.sizes, updated: Seq::empty() }, rest, mnt).0.files
                == f2
            &&& walk(
                WalkState { files: f2, sizes: st.sizes, updated: Seq::empty() },
                rest,
                mnt,
            ).0.updated == Seq::<PathView>::empty()
        }),
{
    lemma_walk_records(st, es, mnt);
    let f1 = walk(st, es, mnt).0.files;
    let p = es[j]->path;
    let i = index_of(f1, p);
    assert(tracks_at(f1, p, es[j]->modified));
    assert(0 <= i < f1.len() && f1[i].0 == p);
    let f2 = f1.remove(i);
    let rest = es.remove(j);
    assert forall|a: int, b: int| 0 <= a < f2.len() && 0 <= b < f2.len() && a != b implies f2[a].0
        != f2[b].0 by {
        let a0 = if a < i { a } else { a + 1 };
        let b0 = if b < i { b } else { b + 1 };
        assert(f1[a0].0 != f1[b0].0);
    }
    assert(!has_key(f2, p)) by {
        if has_key(f2, p) {
            let a = choose|a: int| 0 <= a < f2.len() && f2[a].0 == p;
            let a0 = if a < i { a } else { a + 1 };
            assert(f1[a0].0 != f1[i].0);
        }
    }
    assert forall|k: int| 0 <= k < rest.len() && #[trigger] rest[k] is File implies tracks_at(
        f2,
        rest[k]->path,
        rest[k]->modified,
    ) by {
        let k0 = if k < j { k } else { k + 1 };
        assert(rest[k] == es[k0]);
        assert(es[k0] is File);
        let q = es[k0]->path;
        assert(q != p);
        assert(tracks_at(f1, q, es[k0]->modified));
        let iq = index_of(f1, q);
        assert(0 <= iq < f1.len() && f1[iq].0 == q);
        assert(iq != i);
        let iq2 = if iq < i { iq } else { iq - 1 };
        assert(f2[iq2] == f1[iq]);
        lemma_index_of(f2, q, iq2);
    }
    law_known_files_not_copied(
        WalkState { files: f2, sizes: st.sizes, updated: Seq::empty() },
        rest,
        mnt,
    );
}

/// Every event is a file.
pub open spec fn only_files(fs: Seq<WalkEvent>) -> bool {
    forall|k: int| 0 <= k < fs.len() ==> #[trigger] fs[k] is File
}

/// The bytes of the files met.
pub open spec fn bytes_of(fs: Seq<WalkEvent>) -> int
    decreases fs.len(),
{
    if fs.len() == 0 {
        0
    } else {
        bytes_of(fs.drop_last()) + (if fs.last() is File {
            fs.last()->len as int
        } else {
            0
        })
    }
}

/// The paths of the files met, in order.
pub open spec fn paths_of(fs: Seq<WalkEvent>) -> Seq<PathView> {
    fs.map_values(|e: WalkEvent| e->path)
}

/// The files met, each with its time, in order.
pub open spec fn entries_of(fs: Seq<WalkEvent>) -> FilesView {
    fs.map_values(|e: WalkEvent| (e->path, e->modified))
}

/// The walk of a directory that holds the files `fs` and nothing else.
pub open spec fn flat_dir(fs: Seq<WalkEvent>) -> Seq<WalkEvent> {
    seq![WalkEvent::EnterDir] + fs + seq![WalkEvent::LeaveDir]
}

/// The start of a scan of a mount that tracks nothing yet.
pub open spec fn fresh_walk() -> WalkState {
    WalkState { files: Seq::empty(), sizes: Seq::empty(), updated: Seq::empty() }
}

/// A fresh walk inside its opened top directory.
pub open spec fn opened_walk() -> WalkState {
    opened(fresh_walk())
}

proof fn lemma_walk_append(st: WalkState, a: Seq<WalkEvent>, b: Seq<WalkEvent>, mnt: PathView)
    ensures
        walk(st, a + b, mnt) == (if walk(st, a, mnt).1 is None {
            walk(walk(st, a, mnt).0, b, mnt)
        } else {
            walk(st, a, mnt)
        }),
    decreases a.len(),
{
    if a.len() == 0 {
        assert(a + b =~= b);
    } else {
        let ta = a.subrange(1, a.len() as int);
        assert((a + b)[0] == a[0]);
        assert((a + b).subrange(1, (a + b).len() as int) =~= ta + b);
        lemma_walk_append(step(st, a[0], mnt).0, ta, b, mnt);
    }
}

proof fn lemma_walk_one(st: WalkState, e: WalkEvent, mnt: PathView)
    ensures
        walk(st, seq![e], mnt) == step(st, e, mnt),
{
    let empty = seq![e].subrange(1, 1);
    assert(empty =~= Seq::<WalkEvent>::empty());
    let next = step(st, e, mnt).0;
    assert(walk(next, empty, mnt) == (next, None::<FailureView>));
}

/// The files of a flat directory met one by one, from a mount that tracks
/// nothing: while no file alone is too large, each is tracked and marked
/// and its bytes counted; the first file that alone is too large fails.
proof fn lemma_flat_prefix(fs: Seq<WalkEvent>, k: int, mnt: PathView)
    requires
        only_files(fs),
        file_paths_distinct(fs),
        0 <= k <= fs.len(),
        k <= MAX_ENTRIES_PER_STORAGE,
    ensures
        (forall|i: int| 0 <= i < k ==> fs[i]->len <= MAX_SIZE_PER_WATCHABLE_MOUNT) ==> {
            &&& bytes_of(fs.subrange(0, k)) <= k * MAX_SIZE_PER_WATCHABLE_MOUNT
            &&& bytes_of(fs.subrange(0, k)) >= 0
            &&& walk(opened_walk(), fs.subrange(0, k), mnt) == (
            WalkState {
                files: entries_of(fs.subrange(0, k)),
                sizes: seq![bytes_of(fs.subrange(0, k)) as u64],
                updated: paths_of(fs.subrange(0, k)),
            },
            None::<FailureView>,
            )
        },
        (exists|i: int| 0 <= i < k && fs[i]->len > MAX_SIZE_PER_WATCHABLE_MOUNT) ==> walk(
            opened_walk(),
            fs.subrange(0, k),
            mnt,
        ).1 matches Some(FailureView::TooLarge { .. }),
    decreases k,
{
    let cur = fs.subrange(0, k);
    if k == 0 {
        assert(entries_of(cur) =~= Seq::<(PathView, i128)>::empty());
        assert(paths_of(cur) =~= Seq::<PathView>::empty());
        return;
    }
    let pre = fs.subrange(0, k - 1);
    let x = fs[k - 1];
    assert(cur =~= pre + seq![x]);
    assert(cur.drop_last() =~= pre);
    lemma_flat_prefix(fs, k - 1, mnt);
    lemma_walk_append(opened_walk(), pre, seq![x], mnt);
    if exists|i: int| 0 <= i < k - 1 && fs[i]->len > MAX_SIZE_PER_WATCHABLE_MOUNT {
        return;
    }
    let s = walk(opened_walk(), pre, mnt).0;
    lemma_walk_one(s, x, mnt);
    assert(x is File);
    let p = x->path;
    assert(!has_key(s.files, p)) by {
        if has_key(s.files, p) {
            let j = choose|j: int| 0 <= j < s.files.len() && s.files[j].0 == p;
            assert(s.files[j].0 == fs[j]->path);
            assert(fs[j] is File && fs[k - 1] is File);
        }
    }
    assert(record(s.files, p, x->modified) =~= entries_of(cur));
    assert(s.updated.push(p) =~= paths_of(cur));
    assert(entries_of(cur).len() == k);
    if x->len > MAX_SIZE_PER_WATCHABLE_MOUNT {
        assert(walk(opened_walk(), cur, mnt).1 matches Some(FailureView::TooLarge { .. }));
    } else {
        assert(add_to_top(s.sizes, x->len) =~= seq![sat_add(s.sizes[0], x->len)]);
        assert(sat_add(s.sizes[0], x->len) == bytes_of(cur) as u64);
    }
}

proof fn lemma_bytes_prefix(fs: Seq<WalkEvent>, k: int)
    requires
        0 <= k <= fs.len(),
    ensures
        bytes_of(fs.subrange(0, k)) <= bytes_of(fs),
        bytes_of(fs.subrange(0, k)) >= 0,
    decreases fs.len(),
{
    if fs.len() == 0 {
        return;
    }
    if k == fs.len() {
        assert(fs.subrange(0, k) =~= fs);
        lemma_bytes_prefix(fs.drop_last(), k - 1);
    } else {
        assert(fs.subrange(0, k) =~= fs.drop_last().subrange(0, k));
        lemma_bytes_prefix(fs.drop_last(), k);
    }
}

/// Each file's bytes count in the total.
proof fn lemma_bytes_each(fs: Seq<WalkEvent>, i: int)
    requires
        only_files(fs),
        0 <= i < fs.len(),
    ensures
        fs[i]->len <= bytes_of(fs),
{
    lemma_bytes_prefix(fs, i);
    lemma_bytes_prefix(fs, i + 1);
    assert(fs.subrange(0, i + 1).drop_last() =~= fs.subrange(0, i));
}

/// A walk state inside a newly opened top directory.
pub open spec fn opened(st: WalkState) -> WalkState {
    WalkState { files: st.files, sizes: seq![0u64], updated: st.updated }
}

/// The scan of a directory holding the files `fs`, up to the point where
/// the directory closes.
proof fn lemma_flat_dir_split(st: WalkState, fs: Seq<WalkEvent>, mnt: PathView)
    requires
        st.sizes.len() == 0,
    ensures
        walk(st, flat_dir(fs), mnt) == (if walk(opened(st), fs, mnt).1 is None {
            step(walk(opened(st), fs, mnt).0, WalkEvent::LeaveDir, mnt)
        } else {
            walk(opened(st), fs, mnt)
        }),
{
    let open = seq![WalkEvent::EnterDir];
    let close = seq![WalkEvent::LeaveDir];
    assert(flat_dir(fs) == open + (fs + close)) by {
        assert(flat_dir(fs) =~= open + (fs + close));
    }
    lemma_walk_one(st, WalkEvent::EnterDir, mnt);
    assert(step(st, WalkEvent::EnterDir, mnt).0 == opened(st)) by {
        assert(st.sizes.push(0) =~= seq![0u64]);
    }
    lemma_walk_append(st, open, fs + close, mnt);
    lemma_walk_append(opened(st), fs, close, mnt);
    lemma_walk_one(walk(opened(st), fs, mnt).0, WalkEvent::LeaveDir, mnt);
}

/// Tracked files, each path once, that hold `ps`, distinct paths, number
/// at least as many as `ps`.
proof fn lemma_count_at_least(f: FilesView, ps: Seq<PathView>)
    requires
        keys_distinct(f),
        forall|a: int, b: int| 0 <= a < ps.len() && 0 <= b < ps.len() && a != b ==> ps[a] != ps[b],
        forall|a: int| 0 <= a < ps.len() ==> #[trigger] has_key(f, ps[a]),
    ensures
        f.len() >= ps.len(),
    decreases ps.len(),
{
    if ps.len() == 0 {
        return;
    }
    let p = ps.last();
    assert(has_key(f, ps[ps.len() - 1]));
    let i = index_of(f, p);
    assert(0 <= i < f.len() && f[i].0 == p);
    let g = f.remove(i);
    let qs = ps.drop_last();
    assert forall|a: int, b: int| 0 <= a < g.len() && 0 <= b < g.len() && a != b implies g[a].0
        != g[b].0 by {
        let a0 = if a < i { a } else { a + 1 };
        let b0 = if b < i { b } else { b + 1 };
        assert(f[a0].0 != f[b0].0);
    }
    assert forall|a: int| 0 <= a < qs.len() implies #[trigger] has_key(g, qs[a]) by {
        let q = qs[a];
        assert(q == ps[a] && has_key(f, ps[a]));
        assert(q != p);
        let iq = index_of(f, q);
        assert(0 <= iq < f.len() && f[iq].0 == q);
        assert(iq != i);
        let iq2 = if iq < i { iq } else { iq - 1 };
        assert(g[iq2] == f[iq]);
    }
    lemma_count_at_least(g, qs);
}

/// The files of a directory met one by one from any tracked files, none of
/// them alone too large: the walk fails, if at all, with too many files;
/// where it has not failed, every file met is tracked, each path once, and
/// after any file the count is within the limit.
proof fn lemma_prefix_from(st: WalkState, fs: Seq<WalkEvent>, k: int, mnt: PathView)
    requires
        keys_distinct(st.files),
        only_files(fs),
        0 <= k <= fs.len(),
        forall|i: int| 0 <= i < fs.len() ==> fs[i]->len <= MAX_SIZE_PER_WATCHABLE_MOUNT,
    ensures
        walk(st, fs.subrange(0, k), mnt).1 is None ==> {
            &&& keys_distinct(walk(st, fs.subrange(0, k), mnt).0.files)
            &&& forall|i: int|
                0 <= i < k ==> #[trigger] has_key(
                    walk(st, fs.subrange(0, k), mnt).0.files,
                    fs[i]->path,
                )
            &&& k > 0 ==> walk(st, fs.subrange(0, k), mnt).0.files.len()
                <= MAX_ENTRIES_PER_STORAGE
        },
        walk(st, fs.subrange(0, k), mnt).1 matches Some(f) ==> f is TooManyFiles,
    decreases k,
{
    let cur = fs.subrange(0, k);
    if k == 0 {
        return;
    }
    let pre = fs.subrange(0, k - 1);
    let x = fs[k - 1];
    assert(cur =~= pre + seq![x]);
    lemma_prefix_from(st, fs, k - 1, mnt);
    lemma_walk_append(st, pre, seq![x], mnt);
    if walk(st, pre, mnt).1 is Some {
        return;
    }
    let s = walk(st, pre, mnt).0;
    lemma_walk_one(s, x, mnt);
    assert(x is File);
    lemma_record(s.files, x->path, x->modified);
    let r = record(s.files, x->path, x->modified);
    assert forall|i: int| 0 <= i < k implies #[trigger] has_key(r, fs[i]->path) by {
        if i < k - 1 && fs[i]->path != x->path {
            assert(has_key(s.files, fs[i]->path));
        }
    }
}

/// A directory of more files than the limit, with at most the limit of
/// bytes in all, fails with too many files on every scan, whatever the
/// mount tracked before: adding a file to a full directory makes the next
/// scan fail this way.
pub proof fn law_flat_dir_over_file_limit(st: WalkState, fs: Seq<WalkEvent>, mnt: PathView)
    requires
        keys_distinct(st.files),
        st.sizes.len() == 0,
        only_files(fs),
        file_paths_distinct(fs),
        fs.len() > MAX_ENTRIES_PER_STORAGE,
        bytes_of(fs) <= MAX_SIZE_PER_WATCHABLE_MOUNT,
    ensures
        walk(st, flat_dir(fs), mnt).1 matches Some(f) && f is TooManyFiles,
{
    let n = MAX_ENTRIES_PER_STORAGE as int + 1;
    assert forall|i: int| 0 <= i < fs.len() implies fs[i]->len <= MAX_SIZE_PER_WATCHABLE_MOUNT by {
        lemma_bytes_each(fs, i);
    }
    let o = opened(st);
    lemma_prefix_from(o, fs, n, mnt);
    let pre = fs.subrange(0, n);
    let r = walk(o, pre, mnt);
    if r.1 is None {
        let ps = paths_of(pre);
        assert forall|a: int, b: int| 0 <= a < ps.len() && 0 <= b < ps.len() && a != b implies ps[a]
            != ps[b] by {
            assert(fs[a] is File && fs[b] is File);
        }
        assert forall|a: int| 0 <= a < ps.len() implies #[trigger] has_key(r.0.files, ps[a]) by {
            assert(ps[a] == fs[a]->path);
        }
        lemma_count_at_least(r.0.files, ps);
        assert(false);
    }
    assert(fs =~= pre + fs.subrange(n, fs.len() as int));
    lemma_walk_append(o, pre, fs.subrange(n, fs.len() as int), mnt);
    lemma_flat_dir_split(st, fs, mnt);
}

/// A directory of at most the limit of files, with at most the limit of
/// bytes in all, scanned for the first time, scans without failure, marks
/// every one of its files for copy, in the order met, and tracks each.
pub proof fn law_flat_dir_within_limits(fs: Seq<WalkEvent>, mnt: PathView)
    requires
        only_files(fs),
        file_paths_distinct(fs),
        fs.len() <= MAX_ENTRIES_PER_STORAGE,
        bytes_of(fs) <= MAX_SIZE_PER_WATCHABLE_MOUNT,
    ensures
        walk(fresh_walk(), flat_dir(fs), mnt).1 is None,
        walk(fresh_walk(), flat_dir(fs), mnt).0.updated == paths_of(fs),
        walk(fresh_walk(), flat_dir(fs), mnt).0.files == entries_of(fs),
{
    assert forall|i: int| 0 <= i < fs.len() implies fs[i]->len <= MAX_SIZE_PER_WATCHABLE_MOUNT by {
        lemma_bytes_each(fs, i);
    }
    lemma_flat_prefix(fs, fs.len() as int, mnt);
    assert(fs.subrange(0, fs.len() as int) =~= fs);
    lemma_flat_dir_split(fresh_walk(), fs, mnt);
    let s = walk(opened_walk(), fs, mnt).0;
    assert(s.sizes.drop_last() =~= Seq::<u64>::empty());
}

/// A directory of more files than the limit, with at most the limit of
/// bytes in all, scanned for the first time, fails with too many files,
/// at the first file past the limit.
pub proof fn law_flat_dir_too_many_files(fs: Seq<WalkEvent>, mnt: PathView)
    requires
        only_files(fs),
        file_paths_distinct(fs),
        fs.len() > MAX_ENTRIES_PER_STORAGE,
        bytes_of(fs) <= MAX_SIZE_PER_WATCHABLE_MOUNT,
    ensures
        walk(fresh_walk(), flat_dir(fs), mnt).1 == Some(
            FailureView::TooManyFiles { count: (MAX_ENTRIES_PER_STORAGE + 1) as nat, mnt },
        ),
{
    let n = MAX_ENTRIES_PER_STORAGE as int;
    assert forall|i: int| 0 <= i < fs.len() implies fs[i]->len <= MAX_SIZE_PER_WATCHABLE_MOUNT by {
        lemma_bytes_each(fs, i);
    }
    lemma_flat_prefix(fs, n, mnt);
    let pre = fs.subrange(0, n);
    let x = fs[n];
    let rest = fs.subrange(n + 1, fs.len() as int);
    assert(fs =~= pre + (seq![x] + rest));
    lemma_walk_append(opened_walk(), pre, seq![x] + rest, mnt);
    lemma_walk_append(walk(opened_walk(), pre, mnt).0, seq![x], rest, mnt);
    let s = walk(opened_walk(), pre, mnt).0;
    lemma_walk_one(s, x, mnt);
    assert(x is File);
    let p = x->path;
    assert(!has_key(s.files, p)) by {
        if has_key(s.files, p) {
            let j = choose|j: int| 0 <= j < s.files.len() && s.files[j].0 == p;
            assert(s.files[j].0 == fs[j]->path);
            assert(fs[j] is File && fs[n] is File);
        }
    }
    assert(record(s.files, p, x->modified).len() == n + 1);
    lemma_flat_dir_split(fresh_walk(), fs, mnt);
}

/// A directory of at most the limit of files, scanned for the first time,
/// scans without failure exactly when its files hold at most the limit of
/// bytes in all, and where it fails it fails as too large.
pub proof fn law_flat_dir_size_limit(fs: Seq<WalkEvent>, mnt: PathView)
    requires
        only_files(fs),
        file_paths_distinct(fs),
        fs.len() <= MAX_ENTRIES_PER_STORAGE,
    ensures
        walk(fresh_walk(), flat_dir(fs), mnt).1 is None <==> bytes_of(fs)
            <= MAX_SIZE_PER_WATCHABLE_MOUNT,
        walk(fresh_walk(), flat_dir(fs), mnt).1 matches Some(f) ==> f is TooLarge,
{
    lemma_flat_prefix(fs, fs.len() as int, mnt);
    assert(fs.subrange(0, fs.len() as int) =~= fs);
    lemma_flat_dir_split(fresh_walk(), fs, mnt);
    if bytes_of(fs) <= MAX_SIZE_PER_WATCHABLE_MOUNT {
        law_flat_dir_within_limits(fs, mnt);
    } else if exists|i: int| 0 <= i < fs.len() && fs[i]->len > MAX_SIZE_PER_WATCHABLE_MOUNT {
    } else {
        let s = walk(opened_walk(), fs, mnt).0;
        assert(s.sizes.last() == bytes_of(fs) as u64);
    }
}

} // verus!
