//! Paths as sequences of components.

use vstd::prelude::*;

verus! {

/// A path held as its components, in order. A leading root component, where
/// there is one, is a component like any other (conventionally `"/"`).
#[derive(Debug, Clone)]
pub struct FsPath {
    pub components: Vec<String>,
}

impl View for FsPath {
    type V = Seq<Seq<char>>;

    open spec fn view(&self) -> Seq<Seq<char>> {
        self.components@.map_values(|c: String| c@)
    }
}

/// `base` is a leading run of whole components of `p`.
pub open spec fn is_prefix_of(base: Seq<Seq<char>>, p: Seq<Seq<char>>) -> bool {
    base.len() <= p.len() && p.subrange(0, base.len() as int) == base
}

/// What is left of `p` once its leading components `base` are taken off.
pub open spec fn strip_spec(base: Seq<Seq<char>>, p: Seq<Seq<char>>) -> Seq<Seq<char>> {
    p.subrange(base.len() as int, p.len() as int)
}

impl FsPath {
    /// A path of the given components.
    pub fn new(components: Vec<String>) -> (r: FsPath)
        ensures
            r.components@ == components@,
    {
        FsPath { components }
    }

    /// The number of components.
    pub fn len(&self) -> (r: usize)
        ensures
            r == self@.len(),
    {
        self.components.len()
    }

    /// An exact copy.
    pub fn duplicate(&self) -> (r: FsPath)
        ensures
            r@ == self@,
    {
        let mut out: Vec<String> = Vec::new();
        let mut i: usize = 0;
        while i < self.components.len()
            invariant
                i <= self.components@.len(),
                out@.len() == i,
                forall|k: int| 0 <= k < i ==> out@[k]@ == self.components@[k]@,
            decreases self.components@.len() - i,
        {
            out.push(self.components[i].clone());
            i = i + 1;
        }
        let r = FsPath { components: out };
        assert(r@ =~= self@);
        r
    }

    /// Whether the two paths have the same components.
    pub fn same_as(&self, other: &FsPath) -> (r: bool)
        ensures
            r == (self@ == other@),
    {
        if self.components.len() != other.components.len() {
            assert(self@.len() != other@.len());
            return false;
        }
        let mut i: usize = 0;
        while i < self.components.len()
            invariant
                i <= self.components@.len(),
                self.components@.len() == other.components@.len(),
                forall|k: int| 0 <= k < i ==> self@[k] == other@[k],
            decreases self.components@.len() - i,
        {
            if self.components[i] != other.components[i] {
                assert(self@[i as int] != other@[i as int]);
                return false;
            }
            i = i + 1;
        }
        assert(self@ =~= other@);
        true
    }

    /// This path with the components of `rest` appended.
    pub fn join(&self, rest: &FsPath) -> (r: FsPath)
        ensures
            r@ == self@ + rest@,
    {
        let mut out: Vec<String> = Vec::new();
        let mut i: usize = 0;
        while i < self.components.len()
            invariant
                i <= self@.len(),
                out@.len() == i,
                forall|k: int| 0 <= k < i ==> out@[k]@ == self@[k],
            decreases self@.len() - i,
        {
            out.push(self.components[i].clone());
            i = i + 1;
        }
        let mut j: usize = 0;
        while j < rest.components.len()
            invariant
                j <= rest@.len(),
                out@.len() == self@.len() + j,
                forall|k: int| 0 <= k < self@.len() ==> out@[k]@ == self@[k],
                forall|k: int| 0 <= k < j ==> out@[self@.len() + k]@ == rest@[k],
            decreases rest@.len() - j,
        {
            out.push(rest.components[j].clone());
            j = j + 1;
        }
        let r = FsPath { components: out };
        assert(r@ =~= self@ + rest@);
        r
    }

    /// The components of this path that follow `base`, where `base` is a
    /// leading run of them; `None` where it is not.
    pub fn strip_prefix(&self, base: &FsPath) -> (r: Option<FsPath>)
        ensures
            r is Some <==> is_prefix_of(base@, self@),
            r matches Some(q) ==> q@ == strip_spec(base@, self@),
    {
        if base.components.len() > self.components.len() {
            return None;
        }
        let mut i: usize = 0;
        while i < base.components.len()
            invariant
                base@.len() <= self@.len(),
                i <= base@.len(),
                forall|k: int| 0 <= k < i ==> self@[k] == base@[k],
            decreases base@.len() - i,
        {
            if self.components[i] != base.components[i] {
                assert(self@.subrange(0, base@.len() as int)[i as int] != base@[i as int]);
                return None;
            }
            i = i + 1;
        }
        assert(self@.subrange(0, base@.len() as int) =~= base@);
        let mut out: Vec<String> = Vec::new();
        let mut j: usize = base.components.len();
        while j < self.components.len()
            invariant
                base@.len() <= j <= self@.len(),
                out@.len() == j - base@.len(),
                forall|k: int| 0 <= k < out@.len() ==> out@[k]@ == self@[base@.len() + k],
            decreases self@.len() - j,
        {
            out.push(self.components[j].clone());
            j = j + 1;
        }
        let r = FsPath { components: out };
        assert(r@ =~= strip_spec(base@, self@));
        Some(r)
    }
}

impl PartialEq for FsPath {
    fn eq(&self, other: &FsPath) -> (r: bool) {
        self.same_as(other)
    }
}

impl vstd::std_specs::cmp::PartialEqSpecImpl for FsPath {
    open spec fn obeys_eq_spec() -> bool {
        true
    }

    open spec fn eq_spec(&self, other: &FsPath) -> bool {
        self@ == other@
    }
}

} // verus!
