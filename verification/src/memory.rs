//! Engine variable memory: a mapping from variable names to indexed cells
//! of string values, kept as association vectors with unique keys so that
//! iteration order is deterministic.

use vstd::prelude::*;
use vstd::map::*;
use crate::text::str_eq;

verus! {

/// The indexed cells of one variable.
#[derive(Debug, PartialEq, Eq)]
pub struct Cells {
    pub entries: Vec<(usize, String)>,
}

/// The mapping an association vector of cells denotes; a later entry for
/// the same index wins.
pub open spec fn cells_map(s: Seq<(usize, String)>) -> Map<usize, Seq<char>>
    decreases s.len(),
{
    if s.len() == 0 {
        Map::empty()
    } else {
        cells_map(s.drop_last()).insert(s.last().0, s.last().1@)
    }
}

/// No two entries share an index.
pub open spec fn cell_keys_unique(s: Seq<(usize, String)>) -> bool {
    forall|i: int, j: int| 0 <= i < j < s.len() ==> (#[trigger] s[i]).0 != (#[trigger] s[j]).0
}

impl View for Cells {
    type V = Map<usize, Seq<char>>;

    open spec fn view(&self) -> Map<usize, Seq<char>> {
        cells_map(self.entries@)
    }
}

proof fn lemma_cells_map_member(s: Seq<(usize, String)>, k: usize)
    ensures
        cells_map(s).contains_key(k) <==> exists|i: int|
            0 <= i < s.len() && (#[trigger] s[i]).0 == k,
    decreases s.len(),
{
    if s.len() > 0 {
        lemma_cells_map_member(s.drop_last(), k);
        assert(forall|i: int|
            0 <= i < s.len() - 1 ==> (#[trigger] s[i]) == s.drop_last()[i]);
        if cells_map(s).contains_key(k) {
            if s.last().0 == k {
                assert((s[s.len() - 1]).0 == k);
            }
        }
        if exists|i: int| 0 <= i < s.len() && (#[trigger] s[i]).0 == k {
            let i = choose|i: int| 0 <= i < s.len() && (#[trigger] s[i]).0 == k;
            if i < s.len() - 1 {
                assert(s.drop_last()[i].0 == k);
            }
        }
    }
}

proof fn lemma_cells_map_lookup(s: Seq<(usize, String)>, i: int)
    requires
        cell_keys_unique(s),
        0 <= i < s.len(),
    ensures
        cells_map(s).contains_key(s[i].0),
        cells_map(s)[s[i].0] == s[i].1@,
    decreases s.len(),
{
    if i == s.len() - 1 {
    } else {
        assert(forall|k: int|
            0 <= k < s.len() - 1 ==> (#[trigger] s.drop_last()[k]) == s[k]);
        lemma_cells_map_lookup(s.drop_last(), i);
        assert(s[i].0 != s.last().0);
    }
}

proof fn lemma_cells_map_update(s: Seq<(usize, String)>, i: int, e: (usize, String))
    requires
        cell_keys_unique(s),
        0 <= i < s.len(),
        e.0 == s[i].0,
    ensures
        cells_map(s.update(i, e)) == cells_map(s).insert(e.0, e.1@),
    decreases s.len(),
{
    let t = s.update(i, e);
    if i == s.len() - 1 {
        assert(t.drop_last() =~= s.drop_last());
        assert(t.last() == e);
    } else {
        assert(t.drop_last() =~= s.drop_last().update(i, e));
        assert(s.drop_last()[i] == s[i]);
        assert(cell_keys_unique(s.drop_last())) by {
            assert(forall|k: int|
                0 <= k < s.len() - 1 ==> (#[trigger] s.drop_last()[k]) == s[k]);
        }
        lemma_cells_map_update(s.drop_last(), i, e);
        assert(t.last() == s.last());
        assert(s.last().0 != e.0);
        assert(cells_map(s.drop_last()).insert(e.0, e.1@).insert(s.last().0, s.last().1@)
            =~= cells_map(s.drop_last()).insert(s.last().0, s.last().1@).insert(e.0, e.1@));
    }
}

impl Cells {
    /// An empty cell group.
    pub fn new() -> (r: Cells)
        ensures
            r@ == Map::<usize, Seq<char>>::empty(),
            cell_keys_unique(r.entries@),
    {
        let r = Cells { entries: Vec::new() };
        r
    }

    /// The value at `idx`, if the cell was ever written.
    pub fn get(&self, idx: usize) -> (r: Option<&String>)
        requires
            cell_keys_unique(self.entries@),
        ensures
            match r {
                Some(v) => self@.contains_key(idx) && self@[idx] == v@,
                None => !self@.contains_key(idx),
            },
    {
        let n = self.entries.len();
        let mut i: usize = 0;
        while i < n
            invariant
                0 <= i <= n,
                n == self.entries@.len(),
                cell_keys_unique(self.entries@),
                forall|k: int| 0 <= k < i ==> (#[trigger] self.entries@[k]).0 != idx,
            decreases n - i,
        {
            if self.entries[i].0 == idx {
                proof {
                    lemma_cells_map_lookup(self.entries@, i as int);
                }
                return Some(&self.entries[i].1);
            }
            i = i + 1;
        }
        proof {
            lemma_cells_map_member(self.entries@, idx);
        }
        None
    }

    /// Write `val` at `idx`, creating or overwriting the cell.
    pub fn set(&mut self, idx: usize, val: String)
        requires
            cell_keys_unique(old(self).entries@),
        ensures
            cell_keys_unique(final(self).entries@),
            final(self)@ == old(self)@.insert(idx, val@),
    {
        let n = self.entries.len();
        let mut i: usize = 0;
        while i < n
            invariant
                0 <= i <= n,
                n == self.entries@.len(),
                cell_keys_unique(self.entries@),
                self.entries@ == old(self).entries@,
                forall|k: int| 0 <= k < i ==> (#[trigger] self.entries@[k]).0 != idx,
            decreases n - i,
        {
            if self.entries[i].0 == idx {
                let (k, _old_val) = self.entries.remove(i);
                self.entries.insert(i, (k, val));
                proof {
                    assert(self.entries@ =~= old(self).entries@.update(i as int, (idx, val)));
                    lemma_cells_map_update(old(self).entries@, i as int, (idx, val));
                }
                return ;
            }
            i = i + 1;
        }
        self.entries.push((idx, val));
        proof {
            assert(self.entries@.drop_last() =~= old(self).entries@);
            lemma_cells_map_member(old(self).entries@, idx);
        }
    }

    /// A copy with the same mathematical value.
    pub fn dup(&self) -> (r: Cells)
        ensures
            r.entries@.len() == self.entries@.len(),
            forall|k: int|
                0 <= k < self.entries@.len() ==> #[trigger] r.entries@[k]
                    == self.entries@[k],
            r@ == self@,
            cell_keys_unique(self.entries@) ==> cell_keys_unique(r.entries@),
    {
        let n = self.entries.len();
        let mut out: Vec<(usize, String)> = Vec::new();
        let mut i: usize = 0;
        while i < n
            invariant
                0 <= i <= n,
                n == self.entries@.len(),
                out@.len() == i,
                forall|k: int| 0 <= k < i ==> #[trigger] out@[k] == self.entries@[k],
            decreases n - i,
        {
            let k = self.entries[i].0;
            let v = self.entries[i].1.clone();
            out.push((k, v));
            i = i + 1;
        }
        let r = Cells { entries: out };
        assert(r.entries@ =~= self.entries@);
        r
    }
}

/// All variable memory of a running engine.
#[derive(Debug, PartialEq, Eq)]
pub struct Memory {
    pub entries: Vec<(String, Cells)>,
}

/// The nested mapping an association vector of variables denotes.
pub open spec fn mem_map(s: Seq<(String, Cells)>) -> Map<Seq<char>, Map<usize, Seq<char>>>
    decreases s.len(),
{
    if s.len() == 0 {
        Map::empty()
    } else {
        mem_map(s.drop_last()).insert(s.last().0@, s.last().1@)
    }
}

/// No two entries share a name, and each group's indices are unique.
pub open spec fn mem_wf(s: Seq<(String, Cells)>) -> bool {
    &&& forall|i: int, j: int|
        0 <= i < j < s.len() ==> (#[trigger] s[i]).0@ != (#[trigger] s[j]).0@
    &&& forall|i: int| 0 <= i < s.len() ==> cell_keys_unique((#[trigger] s[i]).1.entries@)
}

impl View for Memory {
    type V = Map<Seq<char>, Map<usize, Seq<char>>>;

    open spec fn view(&self) -> Map<Seq<char>, Map<usize, Seq<char>>> {
        mem_map(self.entries@)
    }
}

proof fn lemma_mem_map_member(s: Seq<(String, Cells)>, k: Seq<char>)
    ensures
        mem_map(s).contains_key(k) <==> exists|i: int|
            0 <= i < s.len() && (#[trigger] s[i]).0@ == k,
    decreases s.len(),
{
    if s.len() > 0 {
        lemma_mem_map_member(s.drop_last(), k);
        assert(forall|i: int|
            0 <= i < s.len() - 1 ==> (#[trigger] s[i]) == s.drop_last()[i]);
        if mem_map(s).contains_key(k) {
            if s.last().0@ == k {
                assert((s[s.len() - 1]).0@ == k);
            }
        }
        if exists|i: int| 0 <= i < s.len() && (#[trigger] s[i]).0@ == k {
            let i = choose|i: int| 0 <= i < s.len() && (#[trigger] s[i]).0@ == k;
            if i < s.len() - 1 {
                assert(s.drop_last()[i].0@ == k);
            }
        }
    }
}

proof fn lemma_mem_map_lookup(s: Seq<(String, Cells)>, i: int)
    requires
        mem_wf(s),
        0 <= i < s.len(),
    ensures
        mem_map(s).contains_key(s[i].0@),
        mem_map(s)[s[i].0@] == s[i].1@,
    decreases s.len(),
{
    if i == s.len() - 1 {
    } else {
        assert(forall|k: int|
            0 <= k < s.len() - 1 ==> (#[trigger] s.drop_last()[k]) == s[k]);
        lemma_mem_map_lookup(s.drop_last(), i);
        assert(s[i].0@ != s.last().0@);
    }
}

proof fn lemma_mem_map_update(s: Seq<(String, Cells)>, i: int, e: (String, Cells))
    requires
        mem_wf(s),
        0 <= i < s.len(),
        e.0@ == s[i].0@,
    ensures
        mem_map(s.update(i, e)) == mem_map(s).insert(e.0@, e.1@),
    decreases s.len(),
{
    let t = s.update(i, e);
    if i == s.len() - 1 {
        assert(t.drop_last() =~= s.drop_last());
        assert(t.last() == e);
    } else {
        assert(t.drop_last() =~= s.drop_last().update(i, e));
        assert(s.drop_last()[i] == s[i]);
        assert(mem_wf(s.drop_last())) by {
            assert(forall|k: int|
                0 <= k < s.len() - 1 ==> (#[trigger] s.drop_last()[k]) == s[k]);
        }
        lemma_mem_map_update(s.drop_last(), i, e);
        assert(t.last() == s.last());
        assert(s.last().0@ != e.0@);
        assert(mem_map(s.drop_last()).insert(e.0@, e.1@).insert(s.last().0@, s.last().1@)
            =~= mem_map(s.drop_last()).insert(s.last().0@, s.last().1@).insert(e.0@, e.1@));
    }
}

impl Memory {
    /// Empty memory.
    pub fn new() -> (r: Memory)
        ensures
            r@ == Map::<Seq<char>, Map<usize, Seq<char>>>::empty(),
            mem_wf(r.entries@),
    {
        Memory { entries: Vec::new() }
    }

    /// The value of cell `(name, idx)`, if present.
    pub fn get(&self, name: &str, idx: usize) -> (r: Option<&String>)
        requires
            mem_wf(self.entries@),
        ensures
            match r {
                Some(v) => {
                    &&& self@.contains_key(name@)
                    &&& self@[name@].contains_key(idx)
                    &&& self@[name@][idx] == v@
                },
                None => !self@.contains_key(name@) || !self@[name@].contains_key(idx),
            },
    {
        let n = self.entries.len();
        let mut i: usize = 0;
        while i < n
            invariant
                0 <= i <= n,
                n == self.entries@.len(),
                mem_wf(self.entries@),
                forall|k: int| 0 <= k < i ==> (#[trigger] self.entries@[k]).0@ != name@,
            decreases n - i,
        {
            if str_eq(self.entries[i].0.as_str(), name) {
                proof {
                    lemma_mem_map_lookup(self.entries@, i as int);
                }
                return self.entries[i].1.get(idx);
            }
            i = i + 1;
        }
        proof {
            lemma_mem_map_member(self.entries@, name@);
        }
        None
    }

    /// Write `val` into cell `(name, idx)`, creating the variable's group
    /// when it does not exist yet.
    pub fn set(&mut self, name: &str, idx: usize, val: String)
        requires
            mem_wf(old(self).entries@),
        ensures
            mem_wf(final(self).entries@),
            final(self)@ == old(self)@.insert(
                name@,
                (if old(self)@.contains_key(name@) {
                    old(self)@[name@]
                } else {
                    Map::empty()
                }).insert(idx, val@),
            ),
    {
        let n = self.entries.len();
        let mut i: usize = 0;
        while i < n
            invariant
                0 <= i <= n,
                n == self.entries@.len(),
                mem_wf(self.entries@),
                self.entries@ == old(self).entries@,
                forall|k: int| 0 <= k < i ==> (#[trigger] self.entries@[k]).0@ != name@,
            decreases n - i,
        {
            if str_eq(self.entries[i].0.as_str(), name) {
                proof {
                    lemma_mem_map_lookup(self.entries@, i as int);
                }
                let (key, mut cells) = self.entries.remove(i);
                cells.set(idx, val);
                self.entries.insert(i, (key, cells));
                proof {
                    let e = (key, cells);
                    assert(self.entries@ =~= old(self).entries@.update(i as int, e));
                    lemma_mem_map_update(old(self).entries@, i as int, e);
                    assert(forall|a: int, b: int|
                        0 <= a < b < self.entries@.len() ==> (#[trigger] self.entries@[a]).0@
                            != (#[trigger] self.entries@[b]).0@);
                }
                return ;
            }
            i = i + 1;
        }
        let mut cells = Cells::new();
        cells.set(idx, val);
        let owned = copy_str(name);
        self.entries.push((owned, cells));
        proof {
            assert(self.entries@.drop_last() =~= old(self).entries@);
            lemma_mem_map_member(old(self).entries@, name@);
            assert(Map::<usize, Seq<char>>::empty().insert(idx, val@)
                == (if old(self)@.contains_key(name@) {
                    old(self)@[name@]
                } else {
                    Map::<usize, Seq<char>>::empty()
                }).insert(idx, val@));
        }
    }

    /// A copy with the same mathematical value.
    pub fn dup(&self) -> (r: Memory)
        ensures
            r@ == self@,
            mem_wf(self.entries@) ==> mem_wf(r.entries@),
    {
        let n = self.entries.len();
        let mut out: Vec<(String, Cells)> = Vec::new();
        let mut i: usize = 0;
        while i < n
            invariant
                0 <= i <= n,
                n == self.entries@.len(),
                out@.len() == i,
                forall|k: int|
                    0 <= k < i ==> (#[trigger] out@[k]).0@ == self.entries@[k].0@
                        && out@[k].1@ == self.entries@[k].1@ && (cell_keys_unique(
                        self.entries@[k].1.entries@,
                    ) ==> cell_keys_unique(out@[k].1.entries@)),
            decreases n - i,
        {
            let k = self.entries[i].0.clone();
            let v = self.entries[i].1.dup();
            out.push((k, v));
            i = i + 1;
        }
        let r = Memory { entries: out };
        proof {
            lemma_mem_map_congruent(r.entries@, self.entries@);
        }
        r
    }
}

proof fn lemma_mem_map_congruent(a: Seq<(String, Cells)>, b: Seq<(String, Cells)>)
    requires
        a.len() == b.len(),
        forall|k: int|
            0 <= k < a.len() ==> (#[trigger] a[k]).0@ == b[k].0@ && a[k].1@ == b[k].1@,
    ensures
        mem_map(a) == mem_map(b),
    decreases a.len(),
{
    if a.len() > 0 {
        assert(forall|k: int|
            0 <= k < a.len() - 1 ==> (#[trigger] a.drop_last()[k]) == a[k]);
        assert(forall|k: int|
            0 <= k < b.len() - 1 ==> (#[trigger] b.drop_last()[k]) == b[k]);
        lemma_mem_map_congruent(a.drop_last(), b.drop_last());
        assert(a.last() == a[a.len() - 1]);
        assert(b.last() == b[b.len() - 1]);
        assert(mem_map(a) =~= mem_map(b));
    }
}

/// An owned copy of a borrowed string slice.
pub fn copy_str(s: &str) -> (r: String)
    ensures
        r@ == s@,
{
    String::from_str(s)
}

} // verus!
