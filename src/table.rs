//! A registry that hands out one space per name.

use vstd::prelude::*;

use crate::region::RegionModel;
use crate::space::Space;

verus! {

/// Handle to a space held by a [`SpaceTable`].
#[derive(Clone, Copy, Debug, PartialEq, Eq, Structural)]
pub struct SpaceId {
    pub index: usize,
}

/// Named spaces, each created on first lookup of its name and never
/// removed.
pub struct SpaceTable {
    names: Vec<String>,
    spaces: Vec<Space>,
}

impl SpaceTable {
    /// The names, in order of creation.
    pub closed spec fn names(&self) -> Seq<Seq<char>> {
        self.names@.map_values(|n: String| n@)
    }

    /// The spaces, in the order of their names.
    pub closed spec fn spaces(&self) -> Seq<Space> {
        self.spaces@
    }

    /// One space per name, names unique, and every space well formed.
    pub open spec fn wf(&self) -> bool {
        self.names().len() == self.spaces().len() && self.inner_wf()
    }

    /// Names are unique and every space is well formed.
    pub closed spec fn inner_wf(&self) -> bool {
        &&& self.names@.len() == self.spaces@.len()
        &&& forall|i: int, j: int| 0 <= i < j < self.names().len() ==> self.names()[i] != self.names()[j]
        &&& forall|i: int| 0 <= i < self.spaces@.len() ==> #[trigger] self.spaces@[i].wf()
    }

    /// Position of the space named `name`.
    pub open spec fn lookup(&self, name: Seq<char>) -> Option<int> {
        if exists|i: int| 0 <= i < self.names().len() && self.names()[i] == name {
            Some(choose|i: int| 0 <= i < self.names().len() && self.names()[i] == name)
        } else {
            None
        }
    }

    /// `after` is `before` once `get_space(name)` has returned `id`: the
    /// space already named `name`, or else a new empty one added last.
    pub open spec fn fetched(before: SpaceTable, name: Seq<char>, after: SpaceTable, id: SpaceId) -> bool {
        &&& after.lookup(name) == Some(id.index as int)
        &&& id.index < after.spaces().len()
        &&& after.names().len() == after.spaces().len()
        &&& match before.lookup(name) {
            Some(i) => after.names() == before.names() && after.spaces() == before.spaces(),
            None => {
                &&& after.names() == before.names().push(name)
                &&& after.spaces().len() == before.spaces().len() + 1
                &&& after.spaces().subrange(0, before.spaces().len() as int) == before.spaces()
                &&& after.spaces().last()@ == Seq::<(Seq<char>, RegionModel)>::empty()
                &&& forall|n: Seq<char>| after.spaces().last().pending(n) == Seq::<u64>::empty()
            },
        }
    }

    proof fn lemma_name_at(&self, i: int)
        requires
            self.wf(),
            0 <= i < self.names().len(),
        ensures
            self.lookup(self.names()[i]) == Some(i),
    {
        let n = self.names()[i];
        let k = choose|k: int| 0 <= k < self.names().len() && self.names()[k] == n;
        assert(k == i);
    }

    /// An empty registry.
    pub fn new() -> (t: SpaceTable)
        ensures
            t.wf(),
            t.names() == Seq::<Seq<char>>::empty(),
            t.spaces() == Seq::<Space>::empty(),
    {
        let t = SpaceTable { names: Vec::new(), spaces: Vec::new() };
        assert(t.names() =~= Seq::<Seq<char>>::empty());
        assert(t.spaces() =~= Seq::<Space>::empty());
        t
    }

    fn find(&self, name: &String) -> (r: Option<usize>)
        requires
            self.wf(),
        ensures
            r matches Some(i) ==> self.lookup(name@) == Some(i as int),
            r is None ==> self.lookup(name@) is None,
    {
        let mut i: usize = 0;
        while i < self.names.len()
            invariant
                0 <= i <= self.names@.len(),
                self.wf(),
                forall|j: int| 0 <= j < i ==> self.names()[j] != name@,
            decreases self.names.len() - i,
        {
            if self.names[i] == *name {
                proof {
                    self.lemma_name_at(i as int);
                }
                return Some(i);
            }
            i += 1;
        }
        None
    }

    /// Whether a space named `name` exists.
    pub fn contains(&self, name: &str) -> (r: bool)
        requires
            self.wf(),
        ensures
            r == self.lookup(name@) is Some,
    {
        let name_s = name.to_owned();
        self.find(&name_s).is_some()
    }

    /// The space named `name`, created empty if there is none yet.
    /// Repeated calls with one name give one handle.
    pub fn get_space(&mut self, name: &str) -> (id: SpaceId)
        requires
            old(self).wf(),
        ensures
            final(self).wf(),
            SpaceTable::fetched(*old(self), name@, *final(self), id),
    {
        let name_s = name.to_owned();
        match self.find(&name_s) {
            Some(i) => SpaceId { index: i },
            None => {
                let ghost before = *self;
                let i = self.names.len();
                self.names.push(name_s);
                self.spaces.push(Space::new());
                proof {
                    assert(self.names() =~= before.names().push(name@));
                    assert(self.spaces().subrange(0, before.spaces().len() as int)
                        =~= before.spaces());
                    assert forall|a: int| 0 <= a < self.spaces@.len() implies #[trigger] self.spaces@[a].wf() by {
                        if a < i {
                            assert(self.spaces@[a] == before.spaces@[a]);
                        }
                    }
                    self.lemma_name_at(i as int);
                }
                SpaceId { index: i }
            },
        }
    }

    /// Number of spaces.
    pub fn len(&self) -> (n: usize)
        requires
            self.wf(),
        ensures
            n == self.spaces().len(),
    {
        self.spaces.len()
    }

    /// The space behind `id`.
    pub fn space(&self, id: SpaceId) -> (s: &Space)
        requires
            id.index < self.spaces().len(),
        ensures
            *s == self.spaces()[id.index as int],
    {
        &self.spaces[id.index]
    }

    /// The space behind `id`, to change in place. The table stays well
    /// formed when the space does (see `lemma_space_changed`).
    pub fn space_mut(&mut self, id: SpaceId) -> (s: &mut Space)
        requires
            old(self).wf(),
            id.index < old(self).spaces().len(),
        ensures
            *s == old(self).spaces()[id.index as int],
            s.wf(),
            final(self).names() == old(self).names(),
            final(self).spaces() == old(self).spaces().update(id.index as int, *final(s)),
    {
        proof {
            assert(self.spaces@[id.index as int].wf());
        }
        &mut self.spaces[id.index]
    }
}

/// A table stays well formed when one of its spaces is replaced by a well
/// formed space.
pub proof fn lemma_space_changed(before: SpaceTable, after: SpaceTable, i: int, s: Space)
    requires
        before.wf(),
        s.wf(),
        0 <= i < before.spaces().len(),
        after.names() == before.names(),
        after.spaces() == before.spaces().update(i, s),
    ensures
        after.wf(),
{
    assert(after.names@.len() == after.names().len());
    assert(before.names@.len() == before.names().len());
    assert forall|a: int| 0 <= a < after.spaces@.len() implies #[trigger] after.spaces@[a].wf() by {
        if a != i {
            assert(after.spaces@[a] == before.spaces@[a]);
        }
    }
}

/// Two lookups of one name give one handle, and the second changes nothing:
/// what is done through the first handle is seen through the second.
pub proof fn lemma_get_space_stable(
    t0: SpaceTable,
    t1: SpaceTable,
    t2: SpaceTable,
    name: Seq<char>,
    first: SpaceId,
    second: SpaceId,
)
    requires
        t0.wf(),
        t1.wf(),
        SpaceTable::fetched(t0, name, t1, first),
        SpaceTable::fetched(t1, name, t2, second),
    ensures
        first == second,
        t2.names() == t1.names(),
        t2.spaces() == t1.spaces(),
{
}

} // verus!
