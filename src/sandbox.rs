//! The watched mounts of one container.

use vstd::prelude::*;

use crate::path::FsPath;
use crate::storage::{MountDescriptor, Storage};

verus! {

/// What releasing one watched mount takes: undo its bind mount where there
/// is one, then delete its target tree.
#[derive(Debug, Clone)]
pub struct Release {
    pub target: FsPath,
    pub unmount: bool,
}

/// The watched mounts of one container, in the order they were added.
#[derive(Debug)]
pub struct SandboxStorages(pub Vec<Storage>);

impl SandboxStorages {
    pub open spec fn wf(&self) -> bool {
        forall|i: int| 0 <= i < self.0@.len() ==> #[trigger] self.0@[i].wf()
    }

    /// A container with no watched mount.
    pub fn new() -> (r: SandboxStorages)
        ensures
            r.wf(),
            r.0@.len() == 0,
    {
        SandboxStorages(Vec::new())
    }

    /// Appends one fresh watched mount for each descriptor, in order; the
    /// mounts already there stay as they are.
    pub fn add(&mut self, list: Vec<MountDescriptor>)
        requires
            old(self).wf(),
        ensures
            final(self).wf(),
            final(self).0@.len() == old(self).0@.len() + list@.len(),
            forall|i: int| 0 <= i < old(self).0@.len() ==> #[trigger] final(self).0@[i] == old(
                self,
            ).0@[i],
            forall|k: int|
                0 <= k < list@.len() ==> {
                    let s = #[trigger] final(self).0@[old(self).0@.len() + k];
                    &&& s.source_mount_point@ == list@[k].source@
                    &&& s.target_mount_point@ == list@[k].mount_point@
                    &&& s.watch
                    &&& s.files().len() == 0
                },
    {
        let ghost n0 = self.0@.len();
        let mut list = list;
        let ghost l0 = list@;
        let mut taken: Vec<MountDescriptor> = Vec::new();
        // Reverse into `taken` so that popping yields the descriptors in order.
        while list.len() > 0
            invariant
                list@.len() + taken@.len() == l0.len(),
                forall|k: int| 0 <= k < list@.len() ==> list@[k] == l0[k],
                forall|k: int|
                    0 <= k < taken@.len() ==> taken@[k] == l0[l0.len() - 1 - k],
            decreases list@.len(),
        {
            let d = list.pop().unwrap();
            taken.push(d);
        }
        let ghost mut j: int = 0;
        while taken.len() > 0
            invariant
                self.wf(),
                j + taken@.len() == l0.len(),
                forall|k: int| 0 <= k < taken@.len() ==> taken@[k] == l0[l0.len() - 1 - k],
                0 <= j,
                n0 == old(self).0@.len(),
                self.0@.len() == n0 + j,
                forall|i: int| 0 <= i < n0 ==> #[trigger] self.0@[i] == old(self).0@[i],
                forall|k: int|
                    0 <= k < j ==> {
                        let s = #[trigger] self.0@[n0 + k];
                        &&& s.source_mount_point@ == l0[k].source@
                        &&& s.target_mount_point@ == l0[k].mount_point@
                        &&& s.watch
                        &&& s.files().len() == 0
                    },
            decreases taken@.len(),
        {
            let d = taken.pop().unwrap();
            let entry = Storage::new(d);
            let ghost prev = self.0@;
            self.0.push(entry);
            assert forall|k: int| 0 <= k < j implies #[trigger] self.0@[n0 + k] == prev[n0 + k] by {
            }
            proof {
                j = j + 1;
            }
        }
    }

    /// The positions of the mounts still polled, in increasing order.
    pub fn watched_indices(&self) -> (r: Vec<usize>)
        ensures
            forall|k: int| 0 <= k < r@.len() ==> r@[k] < self.0@.len() && self.0@[r@[k] as int].watch,
            forall|k: int, m: int| 0 <= k < m < r@.len() ==> r@[k] < r@[m],
            forall|i: int| 0 <= i < self.0@.len() && self.0@[i].watch ==> r@.contains(i as usize),
    {
        let mut out: Vec<usize> = Vec::new();
        let mut i: usize = 0;
        while i < self.0.len()
            invariant
                i <= self.0@.len(),
                forall|k: int| 0 <= k < out@.len() ==> out@[k] < i && self.0@[out@[k] as int].watch,
                forall|k: int, m: int| 0 <= k < m < out@.len() ==> out@[k] < out@[m],
                forall|a: int| 0 <= a < i && self.0@[a].watch ==> out@.contains(a as usize),
            decreases self.0@.len() - i,
        {
            if self.0[i].watch {
                let ghost prev = out@;
                out.push(i);
                assert forall|a: int| 0 <= a < i + 1 && self.0@[a].watch implies out@.contains(
                    a as usize,
                ) by {
                    if a < i {
                        let k = choose|k: int| 0 <= k < prev.len() && prev[k] == a as usize;
                        assert(out@[k] == a as usize);
                    } else {
                        assert(out@[out@.len() - 1] == i);
                    }
                }
            }
            i = i + 1;
        }
        out
    }

    /// What releasing each mount takes, in order: every target is deleted,
    /// after its bind mount is undone where the mount fell back to one.
    pub fn release_plan(&self) -> (r: Vec<Release>)
        ensures
            r@.len() == self.0@.len(),
            forall|i: int|
                0 <= i < r@.len() ==> r@[i].target@ == self.0@[i].target_mount_point@ && r@[i].unmount
                    == !self.0@[i].watch,
    {
        let mut out: Vec<Release> = Vec::new();
        let mut i: usize = 0;
        while i < self.0.len()
            invariant
                i <= self.0@.len(),
                out@.len() == i,
                forall|k: int|
                    0 <= k < i ==> out@[k].target@ == self.0@[k].target_mount_point@ && out@[k].unmount
                        == !self.0@[k].watch,
            decreases self.0@.len() - i,
        {
            let unmount = self.0[i].needs_unmount();
            out.push(Release { target: self.0[i].target_mount_point.duplicate(), unmount });
            i = i + 1;
        }
        out
    }
}

} // verus!
