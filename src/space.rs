//! A named collection of disjoint regions forming one address space.

use vstd::prelude::*;
use vstd::string::StringExecFns;

use crate::le::{le_bytes, lemma_le_bytes_len, lemma_le_round_trip, pow256};
use crate::region::{Region, RegionModel};
use crate::text::{append_range, append_region_line, range_text, region_line};

verus! {

/// Why a region was not added to a space.
#[derive(Debug, PartialEq, Eq)]
pub enum Error {
    /// The range meets the range of the named region already there.
    Overlap(String, String),
    /// A region of that name is already there.
    Renamed(String, String),
    /// The region holds no byte, or runs past the top of the address space.
    Invalid(String, String),
}

/// The message of a `Renamed` error for `name`.
pub open spec fn renamed_note(name: Seq<char>) -> Seq<char> {
    "region name "@ + name + " has existed!"@
}

/// The message of an `Invalid` error for a region at `base` of `size` bytes.
pub open spec fn invalid_note(name: Seq<char>, base: u64, size: u64) -> Seq<char> {
    "region "@ + range_text(name, base, size) + " is empty or passes the top of the space!"@
}

/// The message of an `Overlap` error between two named ranges.
pub open spec fn overlap_note(
    name: Seq<char>,
    base: u64,
    size: u64,
    other: Seq<char>,
    other_base: u64,
    other_size: u64,
) -> Seq<char> {
    "region "@ + range_text(name, base, size) + " is overlapped with "@ + range_text(
        other,
        other_base,
        other_size,
    ) + "!"@
}

fn renamed_message(name: &str) -> (r: String)
    ensures
        r@ == renamed_note(name@),
{
    String::from_str("region name ").concat(name).concat(" has existed!")
}

fn invalid_message(name: &str, base: u64, size: u64) -> (r: String)
    ensures
        r@ == invalid_note(name@, base, size),
{
    let mut out = String::from_str("region ");
    append_range(&mut out, name, base, size);
    out.append(" is empty or passes the top of the space!");
    assert(out@ =~= invalid_note(name@, base, size));
    out
}

fn overlap_message(
    name: &str,
    base: u64,
    size: u64,
    other: &str,
    other_base: u64,
    other_size: u64,
) -> (r: String)
    ensures
        r@ == overlap_note(name@, base, size, other@, other_base, other_size),
{
    let mut out = String::from_str("region ");
    append_range(&mut out, name, base, size);
    out.append(" is overlapped with ");
    append_range(&mut out, other, other_base, other_size);
    out.append("!");
    assert(out@ =~= overlap_note(name@, base, size, other@, other_base, other_size));
    out
}

/// The lines that list the first `n` regions of `s`.
pub open spec fn listing(s: Seq<(Seq<char>, RegionModel)>, n: nat) -> Seq<char>
    decreases n,
{
    if n == 0 || n > s.len() {
        Seq::empty()
    } else {
        let e = s[n - 1];
        listing(s, (n - 1) as nat) + region_line(
            e.0,
            e.1.kind,
            e.1.base,
            (e.1.end() - 1) as u64,
        )
    }
}

/// The ranges of two regions share an address.
pub open spec fn overlap(a: RegionModel, b: RegionModel) -> bool {
    a.base < b.end() && b.base < a.end()
}

/// Regions strictly ordered by base, each ending before the next begins.
pub open spec fn ordered(s: Seq<(Seq<char>, RegionModel)>) -> bool {
    forall|i: int, j: int| 0 <= i < j < s.len() ==> s[i].1.end() <= s[j].1.base
}

/// Each region is valid, the regions are ordered and disjoint, and no name
/// appears twice.
pub open spec fn regions_wf(s: Seq<(Seq<char>, RegionModel)>) -> bool {
    &&& forall|i: int| 0 <= i < s.len() ==> #[trigger] s[i].1.valid()
    &&& ordered(s)
    &&& forall|i: int, j: int| 0 <= i < j < s.len() ==> s[i].0 != s[j].0
}

struct Entry {
    name: String,
    region: Region,
}

struct Pending {
    name: String,
    handles: Vec<u64>,
}

/// Regions keyed by name and ordered by base address, none overlapping
/// another, together with the foreign handles to release when a name goes.
///
/// A space owns its regions: lookups lend a region out by shared
/// reference, and writes go through `&mut Space`. Callers that share a space
/// between threads wrap it in a lock of their own.
pub struct Space {
    entries: Vec<Entry>,
    pending: Vec<Pending>,
}

impl View for Space {
    type V = Seq<(Seq<char>, RegionModel)>;

    /// The regions with their names, by increasing base address.
    closed spec fn view(&self) -> Seq<(Seq<char>, RegionModel)> {
        self.entries@.map_values(|e: Entry| (e.name@, e.region@))
    }
}

impl Space {
    /// Every region is valid, the regions are ordered and disjoint, names
    /// are unique, and no handle waits twice under one name.
    pub open spec fn wf(&self) -> bool {
        regions_wf(self@) && self.pending_wf()
    }

    /// Pending names are unique, and no handle waits twice under one name.
    pub closed spec fn pending_wf(&self) -> bool {
        &&& forall|i: int, j: int|
            0 <= i < j < self.pending@.len() ==> self.pending@[i].name@ != self.pending@[j].name@
        &&& forall|g: int, a: int, b: int|
            0 <= g < self.pending@.len() && 0 <= a < b < self.pending@[g].handles@.len()
                ==> self.pending@[g].handles@[a] != self.pending@[g].handles@[b]
    }

    /// The handles waiting for release under `name`, in registration order.
    pub closed spec fn pending(&self, name: Seq<char>) -> Seq<u64> {
        if exists|g: int| 0 <= g < self.pending@.len() && self.pending@[g].name@ == name {
            let g = choose|g: int| 0 <= g < self.pending@.len() && self.pending@[g].name@ == name;
            self.pending@[g].handles@
        } else {
            Seq::empty()
        }
    }

    pub open spec fn has_name(&self, name: Seq<char>) -> bool {
        exists|i: int| 0 <= i < self@.len() && self@[i].0 == name
    }

    /// Position of the region named `name`.
    pub open spec fn index_of(&self, name: Seq<char>) -> Option<int> {
        if self.has_name(name) {
            Some(choose|i: int| 0 <= i < self@.len() && self@[i].0 == name)
        } else {
            None
        }
    }

    /// Position of the region that covers `addr`.
    pub open spec fn resolve(&self, addr: int) -> Option<int> {
        if exists|i: int| 0 <= i < self@.len() && self@[i].1.covers(addr) {
            Some(choose|i: int| 0 <= i < self@.len() && self@[i].1.covers(addr))
        } else {
            None
        }
    }

    pub open spec fn mapped(&self, addr: int) -> bool {
        self.resolve(addr) is Some
    }

    /// `i` is the lowest position whose region overlaps `r`.
    pub open spec fn is_first_overlap(&self, r: RegionModel, i: int) -> bool {
        &&& 0 <= i < self@.len()
        &&& overlap(self@[i].1, r)
        &&& forall|j: int| 0 <= j < i ==> !overlap(self@[j].1, r)
    }

    /// Position of the first region, by base, that overlaps `r`.
    pub open spec fn first_overlap(&self, r: RegionModel) -> Option<int> {
        if exists|i: int| self.is_first_overlap(r, i) {
            Some(choose|i: int| self.is_first_overlap(r, i))
        } else {
            None
        }
    }

    /// `add_region` takes `r` under `name`.
    pub open spec fn admits(&self, name: Seq<char>, r: RegionModel) -> bool {
        !self.has_name(name) && r.valid() && self.first_overlap(r) is None
    }

    /// The regions left once `name` is deleted.
    pub open spec fn after_delete(&self, name: Seq<char>) -> Seq<(Seq<char>, RegionModel)> {
        match self.index_of(name) {
            Some(i) => self@.remove(i),
            None => self@,
        }
    }

    proof fn lemma_name_at(&self, i: int)
        requires
            self.wf(),
            0 <= i < self@.len(),
        ensures
            self.index_of(self@[i].0) == Some(i),
    {
        let n = self@[i].0;
        assert(self.has_name(n));
        let k = choose|k: int| 0 <= k < self@.len() && self@[k].0 == n;
        assert(k == i);
    }

    /// An address inside a region of the space resolves to that region.
    pub proof fn lemma_covers_at(&self, i: int, addr: int)
        requires
            self.wf(),
            0 <= i < self@.len(),
            self@[i].1.covers(addr),
        ensures
            self.resolve(addr) == Some(i),
    {
        let k = choose|k: int| 0 <= k < self@.len() && self@[k].1.covers(addr);
        assert(k == i);
    }

    proof fn lemma_first_overlap_at(&self, r: RegionModel, i: int)
        requires
            self.is_first_overlap(r, i),
        ensures
            self.first_overlap(r) == Some(i),
    {
        let k = choose|k: int| self.is_first_overlap(r, k);
        assert(k == i);
    }

    /// The little-endian value of the `n` bytes read from `addr` on in the
    /// region that covers `addr`, if one does.
    pub open spec fn read_le(&self, addr: u64, n: nat) -> Option<nat> {
        match self.resolve(addr as int) {
            Some(i) => Some(self@[i].1.read_le(addr as int, n)),
            None => None,
        }
    }

    /// The regions after writing `v` as `n` little-endian bytes at `addr`
    /// into the region that covers `addr`, if one does.
    pub open spec fn write_le(&self, addr: u64, n: nat, v: nat) -> Option<
        Seq<(Seq<char>, RegionModel)>,
    > {
        match self.resolve(addr as int) {
            Some(i) => Some(self@.update(i, (self@[i].0, self@[i].1.write_le(addr as int, n, v)))),
            None => None,
        }
    }

    proof fn lemma_pending_at(&self, g: int)
        requires
            self.wf(),
            0 <= g < self.pending@.len(),
        ensures
            self.pending(self.pending@[g].name@) == self.pending@[g].handles@,
    {
        let n = self.pending@[g].name@;
        let k = choose|k: int| 0 <= k < self.pending@.len() && self.pending@[k].name@ == n;
        assert(k == g);
    }

    /// An empty space.
    pub fn new() -> (s: Space)
        ensures
            s.wf(),
            s@ == Seq::<(Seq<char>, RegionModel)>::empty(),
            forall|n: Seq<char>| s.pending(n) == Seq::<u64>::empty(),
    {
        let s = Space { entries: Vec::new(), pending: Vec::new() };
        assert(s@ =~= Seq::<(Seq<char>, RegionModel)>::empty());
        s
    }

    /// Adds `region` under `name`.
    ///
    /// Fails with `Renamed` when the name is taken, then with `Invalid` when
    /// the region is empty or runs past the top of the address space, then
    /// with `Overlap` naming the first region, by base, whose range meets
    /// it. On failure nothing changes.
    pub fn add_region(&mut self, name: &str, region: Region) -> (r: Result<(), Error>)
        requires
            old(self).wf(),
        ensures
            final(self).wf(),
            r is Ok <==> old(self).admits(name@, region@),
            r is Ok ==> exists|k: int|
                0 <= k <= old(self)@.len() && final(self)@ == old(self)@.insert(
                    k,
                    (name@, region@),
                ),
            r is Err ==> final(self)@ == old(self)@,
            forall|n: Seq<char>| final(self).pending(n) == old(self).pending(n),
            old(self).has_name(name@) ==> (r matches Err(Error::Renamed(n, m)) && n@ == name@
                && m@ == renamed_note(name@)),
            !old(self).has_name(name@) && !region@.valid() ==> (r matches Err(
                Error::Invalid(n, m),
            ) && n@ == name@ && m@ == invalid_note(
                name@,
                region@.base,
                region@.size() as u64,
            )),
            !old(self).has_name(name@) && region@.valid() ==> (
            match old(self).first_overlap(region@) {
                Some(i) => r matches Err(Error::Overlap(n, m)) && n@ == old(self)@[i].0 && m@
                    == overlap_note(
                    name@,
                    region@.base,
                    region@.size() as u64,
                    old(self)@[i].0,
                    old(self)@[i].1.base,
                    old(self)@[i].1.size() as u64,
                ),
                None => r is Ok,
            }),
    {
        let name_s = name.to_owned();
        if let Some(_) = self.find_name(&name_s) {
            return Err(Error::Renamed(name_s, renamed_message(name)));
        }
        let info = region.info();
        if info.size == 0 || info.base > u64::MAX - info.size {
            return Err(Error::Invalid(name_s, invalid_message(name, info.base, info.size)));
        }
        let last = info.base + (info.size - 1);
        let mut i: usize = 0;
        while i < self.entries.len()
            invariant
                0 <= i <= self@.len(),
                self@.len() == self.entries@.len(),
                self.wf(),
                region@.valid(),
                !self.has_name(name@),
                info.base == region@.base,
                info.size == region@.size(),
                last == region@.end() - 1,
                forall|j: int| 0 <= j < i ==> !overlap(self@[j].1, region@),
            decreases self.entries.len() - i,
        {
            let v = self.entries[i].region.info();
            assert(self@[i as int].1.valid());
            let v_last = v.base + (v.size - 1);
            // the start or the last byte of either range falls inside the other
            if (info.base >= v.base && info.base <= v_last) || (last >= v.base && last <= v_last)
                || (v.base >= info.base && v.base <= last) || (v_last >= info.base && v_last
                <= last) {
                proof {
                    self.lemma_first_overlap_at(region@, i as int);
                }
                let other = &self.entries[i].name;
                let m = overlap_message(name, info.base, info.size, other.as_str(), v.base, v.size);
                return Err(Error::Overlap(other.clone(), m));
            }
            i += 1;
        }
        assert(self.first_overlap(region@) is None);
        let k = self.lower_bound(info.base);
        let ghost before = self@;
        let ghost added = (name@, region@);
        self.entries.insert(k, Entry { name: name_s, region });
        proof {
            assert(self.pending == old(self).pending);
            assert(self@ =~= before.insert(k as int, added));
            assert forall|a: int, b: int| 0 <= a < b < self@.len() implies self@[a].1.end()
                <= self@[b].1.base by {
                if a < k && b == k {
                    assert(!overlap(before[a].1, region@));
                } else if a == k {
                    assert(!overlap(before[b - 1].1, region@));
                    assert(before[b - 1].1.valid());
                } else if b < k {
                    assert(self@[a] == before[a] && self@[b] == before[b]);
                } else if a < k {
                    assert(self@[a] == before[a] && self@[b] == before[b - 1]);
                } else {
                    assert(self@[a] == before[a - 1]);
                }
            }
            assert forall|a: int, b: int| 0 <= a < b < self@.len() implies self@[a].0
                != self@[b].0 by {
                if a == k {
                    assert(before[b - 1].0 != name@);
                } else if b == k {
                    assert(before[a].0 != name@);
                }
            }
            assert forall|a: int| 0 <= a < self@.len() implies #[trigger] self@[a].1.valid() by {
                if a < k {
                    assert(self@[a] == before[a]);
                } else if a > k {
                    assert(self@[a] == before[a - 1]);
                }
            }
        }
        Ok(())
    }

    /// Removes the region named `name`, if there is one, and hands back the
    /// foreign handles registered under `name`, in registration order, for
    /// the caller to release. Each handle comes back once: the registration
    /// is gone afterwards.
    pub fn delete_region(&mut self, name: &str) -> (r: Vec<u64>)
        requires
            old(self).wf(),
        ensures
            final(self).wf(),
            final(self)@ == old(self).after_delete(name@),
            !old(self).has_name(name@) ==> final(self)@ == old(self)@,
            r@ == old(self).pending(name@),
            final(self).pending(name@) == Seq::<u64>::empty(),
            forall|n: Seq<char>| n != name@ ==> final(self).pending(n) == old(self).pending(n),
    {
        let name_s = name.to_owned();
        if let Some(i) = self.find_name(&name_s) {
            let ghost before = self@;
            self.entries.remove(i);
            assert(self@ =~= before.remove(i as int));
            assert forall|a: int, b: int| 0 <= a < b < self@.len() implies self@[a].1.end()
                <= self@[b].1.base by {
                if a >= i {
                    assert(self@[a] == before[a + 1] && self@[b] == before[b + 1]);
                } else if b >= i {
                    assert(self@[a] == before[a] && self@[b] == before[b + 1]);
                } else {
                    assert(self@[a] == before[a] && self@[b] == before[b]);
                }
            }
            assert forall|a: int, b: int| 0 <= a < b < self@.len() implies self@[a].0
                != self@[b].0 by {
                if a >= i {
                    assert(self@[a] == before[a + 1] && self@[b] == before[b + 1]);
                } else if b >= i {
                    assert(self@[a] == before[a] && self@[b] == before[b + 1]);
                }
            }
            assert forall|a: int| 0 <= a < self@.len() implies #[trigger] self@[a].1.valid() by {
                if a >= i {
                    assert(self@[a] == before[a + 1]);
                }
            }
        }
        let ghost mid = *self;
        assert(mid.pending == old(self).pending);
        assert forall|n: Seq<char>| mid.pending(n) == old(self).pending(n) by {}
        match self.find_group(&name_s) {
            Some(g) => {
                proof {
                    mid.lemma_pending_at(g as int);
                }
                let p = self.pending.remove(g);
                proof {
                    assert forall|n: Seq<char>| n != name@ implies self.pending(n) == mid.pending(
                        n,
                    ) by {
                        if exists|h: int|
                            0 <= h < mid.pending@.len() && mid.pending@[h].name@ == n {
                            let h = choose|h: int|
                                0 <= h < mid.pending@.len() && mid.pending@[h].name@ == n;
                            mid.lemma_pending_at(h);
                            let h2 = if h < g { h } else { h - 1 };
                            assert(self.pending@[h2] == mid.pending@[h]);
                            self.lemma_pending_at(h2);
                        } else {
                            assert forall|h: int| 0 <= h < self.pending@.len() implies
                                self.pending@[h].name@ != n by {
                                if h >= g {
                                    assert(self.pending@[h] == mid.pending@[h + 1]);
                                }
                            }
                        }
                    }
                    assert forall|h: int| 0 <= h < self.pending@.len() implies
                        self.pending@[h].name@ != name@ by {
                        if h >= g {
                            assert(self.pending@[h] == mid.pending@[h + 1]);
                        }
                    }
                }
                assert forall|n: Seq<char>| n != name@ implies self.pending(n) == old(
                    self,
                ).pending(n) by {
                    assert(mid.pending(n) == old(self).pending(n));
                }
                p.handles
            },
            None => {
                assert(self.pending == mid.pending);
                assert forall|n: Seq<char>| n != name@ implies self.pending(n) == old(
                    self,
                ).pending(n) by {
                    assert(mid.pending(n) == old(self).pending(n));
                }
                Vec::new()
            },
        }
    }

    /// Registers `handle` for release when the name `name` is deleted.
    /// A handle already waiting under that name is not registered twice.
    pub fn clean(&mut self, name: &str, handle: u64)
        requires
            old(self).wf(),
        ensures
            final(self).wf(),
            final(self)@ == old(self)@,
            final(self).pending(name@) == (if old(self).pending(name@).contains(handle) {
                old(self).pending(name@)
            } else {
                old(self).pending(name@).push(handle)
            }),
            forall|n: Seq<char>| n != name@ ==> final(self).pending(n) == old(self).pending(n),
    {
        let name_s = name.to_owned();
        match self.find_group(&name_s) {
            Some(g) => {
                proof {
                    self.lemma_pending_at(g as int);
                }
                let mut j: usize = 0;
                let len = self.pending[g].handles.len();
                while j < len
                    invariant
                        0 <= j <= len,
                        self.wf(),
                        self.pending(name@) == self.pending@[g as int].handles@,
                        g < self.pending@.len(),
                        len == self.pending@[g as int].handles@.len(),
                        forall|a: int| 0 <= a < j ==> self.pending@[g as int].handles@[a] != handle,
                    decreases len - j,
                {
                    if self.pending[g].handles[j] == handle {
                        return;
                    }
                    j += 1;
                }
                let ghost before = *self;
                let ghost old_handles = self.pending@[g as int].handles@;
                self.pending[g].handles.push(handle);
                proof {
                    assert(!old_handles.contains(handle));
                    assert forall|h: int| 0 <= h < self.pending@.len() && h != g implies
                        self.pending@[h] == before.pending@[h] by {}
                    self.lemma_pending_at(g as int);
                    assert forall|n: Seq<char>| n != name@ implies self.pending(n)
                        == before.pending(n) by {
                        if exists|h: int|
                            0 <= h < before.pending@.len() && before.pending@[h].name@ == n {
                            let h = choose|h: int|
                                0 <= h < before.pending@.len() && before.pending@[h].name@ == n;
                            before.lemma_pending_at(h);
                            self.lemma_pending_at(h);
                        }
                    }
                }
            },
            None => {
                let ghost before = *self;
                let mut handles: Vec<u64> = Vec::new();
                handles.push(handle);
                self.pending.push(Pending { name: name_s, handles });
                proof {
                    let last = self.pending@.len() - 1;
                    self.lemma_pending_at(last);
                    assert forall|n: Seq<char>| n != name@ implies self.pending(n)
                        == before.pending(n) by {
                        if exists|h: int|
                            0 <= h < before.pending@.len() && before.pending@[h].name@ == n {
                            let h = choose|h: int|
                                0 <= h < before.pending@.len() && before.pending@[h].name@ == n;
                            before.lemma_pending_at(h);
                            assert(self.pending@[h] == before.pending@[h]);
                            self.lemma_pending_at(h);
                        } else {
                            assert forall|h: int| 0 <= h < self.pending@.len() implies
                                self.pending@[h].name@ != n by {
                                if h < last {
                                    assert(self.pending@[h] == before.pending@[h]);
                                }
                            }
                        }
                    }
                    assert(handles@ =~= seq![handle]);
                    assert(Seq::<u64>::empty().push(handle) =~= seq![handle]);
                }
            },
        }
    }

    /// The region named `name`.
    pub fn get_region(&self, name: &str) -> (r: Option<&Region>)
        requires
            self.wf(),
        ensures
            r is Some <==> self.has_name(name@),
            r matches Some(g) ==> (self.index_of(name@) matches Some(i) && g@ == self@[i].1),
    {
        let name_s = name.to_owned();
        match self.find_name(&name_s) {
            Some(i) => Some(&self.entries[i].region),
            None => None,
        }
    }

    /// The region that covers `addr`, found by a search for the last region
    /// whose base is at most `addr`; `Err(addr)` when no region covers it.
    pub fn get_region_by_addr(&self, addr: u64) -> (r: Result<&Region, u64>)
        requires
            self.wf(),
        ensures
            r is Ok <==> self.mapped(addr as int),
            r matches Ok(g) ==> (self.resolve(addr as int) matches Some(i) && g@ == self@[i].1),
            r matches Err(a) ==> a == addr,
    {
        match self.find_addr(addr) {
            Some(i) => Ok(&self.entries[i].region),
            None => Err(addr),
        }
    }

    fn find_group(&self, name: &String) -> (r: Option<usize>)
        requires
            self.wf(),
        ensures
            r matches Some(g) ==> g < self.pending@.len() && self.pending@[g as int].name@
                == name@,
            r is None ==> forall|g: int|
                0 <= g < self.pending@.len() ==> self.pending@[g].name@ != name@,
    {
        let mut g: usize = 0;
        while g < self.pending.len()
            invariant
                0 <= g <= self.pending@.len(),
                forall|h: int| 0 <= h < g ==> self.pending@[h].name@ != name@,
            decreases self.pending.len() - g,
        {
            if self.pending[g].name == *name {
                return Some(g);
            }
            g += 1;
        }
        None
    }

    /// Reads the `u8` at `addr` from the region that covers `addr`;
    /// `Err(addr)` when no region covers it.
    pub fn read_u8(&self, addr: u64) -> (r: Result<u8, u64>)
        requires
            self.wf(),
        ensures
            r == (match self.read_le(addr, 1) {
                Some(v) => Ok::<u8, u64>(v as u8),
                None => Err(addr),
            }),
    {
        match self.get_region_by_addr(addr) {
            Ok(region) => Ok(region.read_u8(addr)),
            Err(a) => Err(a),
        }
    }

    /// Writes `data` at `addr` into the region that covers `addr`;
    /// `Err(addr)`, with nothing written, when no region covers it.
    pub fn write_u8(&mut self, addr: u64, data: u8) -> (r: Result<(), u64>)
        requires
            old(self).wf(),
        ensures
            final(self).wf(),
            forall|n: Seq<char>| final(self).pending(n) == old(self).pending(n),
            match old(self).write_le(addr, 1, data as nat) {
                Some(s) => r is Ok && final(self)@ == s,
                None => r == Err::<(), u64>(addr) && final(self)@ == old(self)@,
            },
    {
        let i = match self.find_addr(addr) {
            Some(i) => i,
            None => return Err(addr),
        };
        let ghost before = *self;
        self.entries[i].region.write_u8(addr, data);
        proof {
            Space::lemma_same_shape(before, *self, i as int);
        }
        Ok(())
    }

    /// Reads the `u16` at `addr` from the region that covers `addr`;
    /// `Err(addr)` when no region covers it.
    pub fn read_u16(&self, addr: u64) -> (r: Result<u16, u64>)
        requires
            self.wf(),
        ensures
            r == (match self.read_le(addr, 2) {
                Some(v) => Ok::<u16, u64>(v as u16),
                None => Err(addr),
            }),
    {
        match self.get_region_by_addr(addr) {
            Ok(region) => Ok(region.read_u16(addr)),
            Err(a) => Err(a),
        }
    }

    /// Writes `data` at `addr` into the region that covers `addr`;
    /// `Err(addr)`, with nothing written, when no region covers it.
    pub fn write_u16(&mut self, addr: u64, data: u16) -> (r: Result<(), u64>)
        requires
            old(self).wf(),
        ensures
            final(self).wf(),
            forall|n: Seq<char>| final(self).pending(n) == old(self).pending(n),
            match old(self).write_le(addr, 2, data as nat) {
                Some(s) => r is Ok && final(self)@ == s,
                None => r == Err::<(), u64>(addr) && final(self)@ == old(self)@,
            },
    {
        let i = match self.find_addr(addr) {
            Some(i) => i,
            None => return Err(addr),
        };
        let ghost before = *self;
        self.entries[i].region.write_u16(addr, data);
        proof {
            Space::lemma_same_shape(before, *self, i as int);
        }
        Ok(())
    }

    /// Reads the `u32` at `addr` from the region that covers `addr`;
    /// `Err(addr)` when no region covers it.
    pub fn read_u32(&self, addr: u64) -> (r: Result<u32, u64>)
        requires
            self.wf(),
        ensures
            r == (match self.read_le(addr, 4) {
                Some(v) => Ok::<u32, u64>(v as u32),
                None => Err(addr),
            }),
    {
        match self.get_region_by_addr(addr) {
            Ok(region) => Ok(region.read_u32(addr)),
            Err(a) => Err(a),
        }
    }

    /// Writes `data` at `addr` into the region that covers `addr`;
    /// `Err(addr)`, with nothing written, when no region covers it.
    pub fn write_u32(&mut self, addr: u64, data: u32) -> (r: Result<(), u64>)
        requires
            old(self).wf(),
        ensures
            final(self).wf(),
            forall|n: Seq<char>| final(self).pending(n) == old(self).pending(n),
            match old(self).write_le(addr, 4, data as nat) {
                Some(s) => r is Ok && final(self)@ == s,
                None => r == Err::<(), u64>(addr) && final(self)@ == old(self)@,
            },
    {
        let i = match self.find_addr(addr) {
            Some(i) => i,
            None => return Err(addr),
        };
        let ghost before = *self;
        self.entries[i].region.write_u32(addr, data);
        proof {
            Space::lemma_same_shape(before, *self, i as int);
        }
        Ok(())
    }

    /// Reads the `u64` at `addr` from the region that covers `addr`;
    /// `Err(addr)` when no region covers it.
    pub fn read_u64(&self, addr: u64) -> (r: Result<u64, u64>)
        requires
            self.wf(),
        ensures
            r == (match self.read_le(addr, 8) {
                Some(v) => Ok::<u64, u64>(v as u64),
                None => Err(addr),
            }),
    {
        match self.get_region_by_addr(addr) {
            Ok(region) => Ok(region.read_u64(addr)),
            Err(a) => Err(a),
        }
    }

    /// Writes `data` at `addr` into the region that covers `addr`;
    /// `Err(addr)`, with nothing written, when no region covers it.
    pub fn write_u64(&mut self, addr: u64, data: u64) -> (r: Result<(), u64>)
        requires
            old(self).wf(),
        ensures
            final(self).wf(),
            forall|n: Seq<char>| final(self).pending(n) == old(self).pending(n),
            match old(self).write_le(addr, 8, data as nat) {
                Some(s) => r is Ok && final(self)@ == s,
                None => r == Err::<(), u64>(addr) && final(self)@ == old(self)@,
            },
    {
        let i = match self.find_addr(addr) {
            Some(i) => i,
            None => return Err(addr),
        };
        let ghost before = *self;
        self.entries[i].region.write_u64(addr, data);
        proof {
            Space::lemma_same_shape(before, *self, i as int);
        }
        Ok(())
    }

    /// Fills `data` with the bytes read from `addr` on in the region that
    /// covers `addr`; `Err(addr)`, with `data` untouched, when no region
    /// covers it.
    pub fn read_bytes(&self, addr: u64, data: &mut [u8]) -> (r: Result<(), u64>)
        requires
            self.wf(),
        ensures
            r is Ok <==> self.mapped(addr as int),
            r matches Ok(_) ==> (self.resolve(addr as int) matches Some(i) && final(data)@
                == self@[i].1.load(addr as int, old(data)@.len())),
            r matches Err(a) ==> a == addr && final(data)@ == old(data)@,
    {
        match self.get_region_by_addr(addr) {
            Ok(region) => {
                region.read_bytes(addr, data);
                Ok(())
            },
            Err(a) => Err(a),
        }
    }

    /// Copies `data` from `addr` on into the region that covers `addr`;
    /// `Err(addr)`, with nothing written, when no region covers it.
    pub fn write_bytes(&mut self, addr: u64, data: &[u8]) -> (r: Result<(), u64>)
        requires
            old(self).wf(),
        ensures
            final(self).wf(),
            forall|n: Seq<char>| final(self).pending(n) == old(self).pending(n),
            r is Ok <==> old(self).mapped(addr as int),
            r matches Ok(_) ==> (old(self).resolve(addr as int) matches Some(i) && final(self)@
                == old(self)@.update(
                i,
                (old(self)@[i].0, old(self)@[i].1.store(addr as int, data@)),
            )),
            r matches Err(a) ==> a == addr && final(self)@ == old(self)@,
    {
        let i = match self.find_addr(addr) {
            Some(i) => i,
            None => return Err(addr),
        };
        let ghost before = *self;
        self.entries[i].region.write_bytes(addr, data);
        proof {
            Space::lemma_same_shape(before, *self, i as int);
        }
        Ok(())
    }

    /// Replacing one region by another of the same base and size keeps the
    /// space well formed.
    proof fn lemma_same_shape(a: Space, b: Space, i: int)
        requires
            a.wf(),
            0 <= i < a@.len(),
            b.pending == a.pending,
            b.entries@.len() == a.entries@.len(),
            forall|j: int| 0 <= j < a@.len() && j != i ==> b.entries@[j] == a.entries@[j],
            b.entries@[i].name == a.entries@[i].name,
            b@[i].1.base == a@[i].1.base,
            b@[i].1.size() == a@[i].1.size(),
        ensures
            b.wf(),
            b@ == a@.update(i, (a@[i].0, b@[i].1)),
            forall|n: Seq<char>| b.pending(n) == a.pending(n),
    {
        assert(b@ =~= a@.update(i, (a@[i].0, b@[i].1)));
        assert forall|j: int| 0 <= j < b@.len() implies #[trigger] b@[j].1.valid() by {
            assert(a@[j].1.valid());
        }
    }

    /// A listing of the regions by base: a heading line, then one line per
    /// region with its name, type label, and first and last address.
    pub fn to_string(&self) -> (r: String)
        requires
            self.wf(),
        ensures
            r@ == "regions:\n"@ + listing(self@, self@.len()),
    {
        let mut out = String::new();
        out.append("regions:\n");
        proof {
            reveal_strlit("regions:\n");
        }
        let mut i: usize = 0;
        while i < self.entries.len()
            invariant
                0 <= i <= self@.len(),
                self@.len() == self.entries@.len(),
                self.wf(),
                out@ == "regions:\n"@ + listing(self@, i as nat),
            decreases self.entries.len() - i,
        {
            let e = &self.entries[i];
            let info = e.region.info();
            assert(self@[i as int].1.valid());
            append_region_line(
                &mut out,
                e.name.as_str(),
                e.region.kind(),
                info.base,
                info.base + (info.size - 1),
            );
            i += 1;
            assert(out@ =~= "regions:\n"@ + listing(self@, i as nat));
        }
        out
    }

    fn find_name(&self, name: &String) -> (r: Option<usize>)
        requires
            self.wf(),
        ensures
            r matches Some(i) ==> self.index_of(name@) == Some(i as int),
            r is None ==> !self.has_name(name@),
    {
        let mut i: usize = 0;
        while i < self.entries.len()
            invariant
                0 <= i <= self@.len(),
                self@.len() == self.entries@.len(),
                self.wf(),
                forall|j: int| 0 <= j < i ==> self@[j].0 != name@,
            decreases self.entries.len() - i,
        {
            if self.entries[i].name == *name {
                proof {
                    self.lemma_name_at(i as int);
                }
                return Some(i);
            }
            i += 1;
        }
        None
    }

    /// Number of regions whose base is below `base`: where a region at
    /// `base` goes in the order.
    fn lower_bound(&self, base: u64) -> (k: usize)
        requires
            self.wf(),
        ensures
            k <= self@.len(),
            forall|j: int| 0 <= j < k ==> self@[j].1.base < base,
            forall|j: int| k <= j < self@.len() ==> self@[j].1.base >= base,
    {
        let mut lo: usize = 0;
        let mut hi: usize = self.entries.len();
        while lo < hi
            invariant
                0 <= lo <= hi <= self@.len(),
                self@.len() == self.entries@.len(),
                self.wf(),
                forall|j: int| 0 <= j < lo ==> self@[j].1.base < base,
                forall|j: int| hi <= j < self@.len() ==> self@[j].1.base >= base,
            decreases hi - lo,
        {
            let mid = lo + (hi - lo) / 2;
            let m = self.entries[mid].region.info();
            assert(self@[mid as int].1.valid());
            if m.base < base {
                lo = mid + 1;
            } else {
                hi = mid;
            }
        }
        lo
    }

    fn find_addr(&self, addr: u64) -> (r: Option<usize>)
        requires
            self.wf(),
        ensures
            r matches Some(i) ==> self.resolve(addr as int) == Some(i as int),
            r is None ==> self.resolve(addr as int) is None,
    {
        // the regions at or after `k` start above `addr`
        let k = if addr == u64::MAX {
            self.entries.len()
        } else {
            self.lower_bound(addr + 1)
        };
        if k == 0 {
            assert forall|j: int| 0 <= j < self@.len() implies !self@[j].1.covers(
                addr as int,
            ) by {}
            return None;
        }
        let i = k - 1;
        let info = self.entries[i].region.info();
        assert(self@[i as int].1.valid());
        if addr - info.base < info.size {
            proof {
                self.lemma_covers_at(i as int, addr as int);
            }
            Some(i)
        } else {
            assert forall|j: int| 0 <= j < self@.len() implies !self@[j].1.covers(
                addr as int,
            ) by {
                if j < i {
                    assert(self@[j].1.end() <= self@[i as int].1.base);
                }
            }
            None
        }
    }
}

/// A region of which no byte is in a region of the space, under a name the
/// space does not hold, is taken by `add_region`.
pub proof fn lemma_disjoint_admitted(s: Space, name: Seq<char>, r: RegionModel)
    requires
        s.wf(),
        r.valid(),
        !s.has_name(name),
        forall|i: int| 0 <= i < s@.len() ==> !overlap(#[trigger] s@[i].1, r),
    ensures
        s.admits(name, r),
{
    if exists|i: int| s.is_first_overlap(r, i) {
        let i = choose|i: int| s.is_first_overlap(r, i);
        assert(!overlap(s@[i].1, r));
    }
}

/// Once a region is added, each address of the new region resolves to it,
/// each address of a region already there still resolves to that region,
/// and no other address resolves.
pub proof fn lemma_added_resolution(
    before: Space,
    after: Space,
    name: Seq<char>,
    r: RegionModel,
    k: int,
    addr: int,
)
    requires
        before.wf(),
        after.wf(),
        0 <= k <= before@.len(),
        after@ == before@.insert(k, (name, r)),
    ensures
        r.covers(addr) ==> after.resolve(addr) == Some(k),
        forall|i: int|
            0 <= i < before@.len() && #[trigger] before@[i].1.covers(addr) ==> (
            after.resolve(addr) matches Some(j) && after@[j] == before@[i]),
        !r.covers(addr) && !before.mapped(addr) ==> after.resolve(addr) is None,
{
    if r.covers(addr) {
        after.lemma_covers_at(k, addr);
    }
    assert forall|i: int|
        0 <= i < before@.len() && #[trigger] before@[i].1.covers(addr) implies (after.resolve(
        addr,
    ) matches Some(j) && after@[j] == before@[i]) by {
        let j = if i < k { i } else { i + 1 };
        assert(after@[j] == before@[i]);
        after.lemma_covers_at(j, addr);
    }
    if !r.covers(addr) && !before.mapped(addr) {
        assert forall|j: int| 0 <= j < after@.len() implies !after@[j].1.covers(addr) by {
            if j < k {
                assert(after@[j] == before@[j]);
            } else if j > k {
                assert(after@[j] == before@[j - 1]);
            }
        }
    }
}

/// For valid regions, sharing an address is the same as one of four cases:
/// the start or the last byte of either range falls inside the other.
pub proof fn lemma_overlap_cases(a: RegionModel, b: RegionModel)
    requires
        a.valid(),
        b.valid(),
    ensures
        overlap(a, b) <==> ((b.base <= a.base <= b.end() - 1) || (b.base <= a.end() - 1 <= b.end()
            - 1) || (a.base <= b.base <= a.end() - 1) || (a.base <= b.end() - 1 <= a.end() - 1)),
{
}

proof fn lemma_some_first_overlap(s: Space, r: RegionModel, i: int)
    requires
        0 <= i < s@.len(),
        overlap(s@[i].1, r),
    ensures
        exists|j: int| 0 <= j <= i && s.is_first_overlap(r, j),
    decreases i,
{
    if exists|j: int| 0 <= j < i && overlap(s@[j].1, r) {
        let j = choose|j: int| 0 <= j < i && overlap(s@[j].1, r);
        lemma_some_first_overlap(s, r, j);
    } else {
        assert(s.is_first_overlap(r, i));
    }
}

/// A region that shares an address with a region of the space is refused
/// with `Overlap`: the region named is the first by base that it meets, and
/// it is the one it meets when it meets only one.
pub proof fn lemma_overlap_refused(s: Space, name: Seq<char>, r: RegionModel, i: int)
    requires
        s.wf(),
        r.valid(),
        !s.has_name(name),
        0 <= i < s@.len(),
        overlap(s@[i].1, r),
    ensures
        !s.admits(name, r),
        s.first_overlap(r) matches Some(j) && j <= i,
        (forall|j: int| 0 <= j < s@.len() && j != i ==> !overlap(#[trigger] s@[j].1, r)) ==> s.first_overlap(r) == Some(i),
{
    lemma_some_first_overlap(s, r, i);
    let j = choose|j: int| 0 <= j <= i && s.is_first_overlap(r, j);
    s.lemma_first_overlap_at(r, j);
    if forall|k: int| 0 <= k < s@.len() && k != i ==> !overlap(#[trigger] s@[k].1, r) {
        assert(j == i);
    }
}

/// Once a name is deleted, the addresses of its region are unmapped.
pub proof fn lemma_deleted_unmapped(s: Space, t: Space, name: Seq<char>, addr: int)
    requires
        s.wf(),
        t@ == s.after_delete(name),
        s.index_of(name) matches Some(i) && s@[i].1.covers(addr),
    ensures
        !t.mapped(addr),
{
    let i = s.index_of(name)->Some_0;
    assert forall|j: int| 0 <= j < t@.len() implies !t@[j].1.covers(addr) by {
        if j < i {
            assert(t@[j] == s@[j]);
            assert(s@[j].1.end() <= s@[i].1.base);
        } else {
            assert(t@[j] == s@[j + 1]);
            assert(s@[i].1.end() <= s@[j + 1].1.base);
        }
    }
}

/// Reading `n` bytes back from where they were just written gives the value
/// written, when it fits in `n` bytes and the `n` bytes lie in the region
/// that covers `addr`.
pub proof fn lemma_write_then_read(before: Space, after: Space, addr: u64, n: nat, v: nat)
    requires
        before.wf(),
        after.wf(),
        v < pow256(n),
        before.resolve(addr as int) matches Some(i) && before@[i].1.holds(addr as int, n),
        before.write_le(addr, n, v) == Some(after@),
    ensures
        after.read_le(addr, n) == Some(v),
{
    let i = before.resolve(addr as int)->Some_0;
    let m = before@[i].1;
    lemma_le_bytes_len(v, n);
    let m2 = m.store(addr as int, le_bytes(v, n));
    assert(after@[i].1 == m2);
    assert(m2.bytes.len() == m.bytes.len());
    after.lemma_covers_at(i, addr as int);
    assert(m.valid());
    assert(m2.load(addr as int, n) =~= le_bytes(v, n));
    lemma_le_round_trip(v, n);
}

} // verus!
