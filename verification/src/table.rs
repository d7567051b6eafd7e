//! The cache of compiled scripts, keyed by script name.

use vstd::prelude::*;
use vstd::map::*;
use crate::script::{InstrV, Script};
use crate::text::str_eq;

verus! {

/// Compiled scripts by name; compiling a name again replaces its entry.
#[derive(Debug)]
pub struct ScriptTable {
    pub entries: Vec<(String, Script)>,
}

/// The mapping an association vector of scripts denotes.
pub open spec fn tbl_map(s: Seq<(String, Script)>) -> Map<Seq<char>, Seq<InstrV>>
    decreases s.len(),
{
    if s.len() == 0 {
        Map::empty()
    } else {
        tbl_map(s.drop_last()).insert(s.last().0@, s.last().1@)
    }
}

/// No two entries share a name.
pub open spec fn tbl_wf(s: Seq<(String, Script)>) -> bool {
    forall|i: int, j: int|
        0 <= i < j < s.len() ==> (#[trigger] s[i]).0@ != (#[trigger] s[j]).0@
}

impl View for ScriptTable {
    type V = Map<Seq<char>, Seq<InstrV>>;

    open spec fn view(&self) -> Map<Seq<char>, Seq<InstrV>> {
        tbl_map(self.entries@)
    }
}

proof fn lemma_tbl_map_member(s: Seq<(String, Script)>, k: Seq<char>)
    ensures
        tbl_map(s).contains_key(k) <==> exists|i: int|
            0 <= i < s.len() && (#[trigger] s[i]).0@ == k,
    decreases s.len(),
{
    if s.len() > 0 {
        lemma_tbl_map_member(s.drop_last(), k);
        assert(forall|i: int|
            0 <= i < s.len() - 1 ==> (#[trigger] s[i]) == s.drop_last()[i]);
        if tbl_map(s).contains_key(k) {
            if s.last().0@ == k {
                assert((s[s.len() - 1]).0@ == k);
            }
        }
        if exists|i: int| 0 <= i < s.len() && (#[trigger] s[i]).0@ == k {
            let i = choose|i: int| 0 <= i < s.len() && (#[trigger] s[i]).0@ == k;
            if i < s.len() - 1 {
                assert(s.drop_last()[i].0@ == k);
            }
        }
    }
}

proof fn lemma_tbl_map_lookup(s: Seq<(String, Script)>, i: int)
    requires
        tbl_wf(s),
        0 <= i < s.len(),
    ensures
        tbl_map(s).contains_key(s[i].0@),
        tbl_map(s)[s[i].0@] == s[i].1@,
    decreases s.len(),
{
    if i == s.len() - 1 {
    } else {
        assert(forall|k: int|
            0 <= k < s.len() - 1 ==> (#[trigger] s.drop_last()[k]) == s[k]);
        lemma_tbl_map_lookup(s.drop_last(), i);
        assert(s[i].0@ != s.last().0@);
    }
}

proof fn lemma_tbl_map_update(s: Seq<(String, Script)>, i: int, e: (String, Script))
    requires
        tbl_wf(s),
        0 <= i < s.len(),
        e.0@ == s[i].0@,
    ensures
        tbl_map(s.update(i, e)) == tbl_map(s).insert(e.0@, e.1@),
    decreases s.len(),
{
    let t = s.update(i, e);
    if i == s.len() - 1 {
        assert(t.drop_last() =~= s.drop_last());
        assert(t.last() == e);
    } else {
        assert(t.drop_last() =~= s.drop_last().update(i, e));
        assert(s.drop_last()[i] == s[i]);
        assert(tbl_wf(s.drop_last())) by {
            assert(forall|k: int|
                0 <= k < s.len() - 1 ==> (#[trigger] s.drop_last()[k]) == s[k]);
        }
        lemma_tbl_map_update(s.drop_last(), i, e);
        assert(t.last() == s.last());
        assert(s.last().0@ != e.0@);
        assert(tbl_map(s.drop_last()).insert(e.0@, e.1@).insert(s.last().0@, s.last().1@)
            =~= tbl_map(s.drop_last()).insert(s.last().0@, s.last().1@).insert(e.0@, e.1@));
    }
}

impl ScriptTable {
    /// An empty table.
    pub fn new() -> (r: ScriptTable)
        ensures
            r@ == Map::<Seq<char>, Seq<InstrV>>::empty(),
            tbl_wf(r.entries@),
    {
        ScriptTable { entries: Vec::new() }
    }

    /// The compiled script under `name`, if any.
    pub fn get(&self, name: &str) -> (r: Option<&Script>)
        requires
            tbl_wf(self.entries@),
        ensures
            match r {
                Some(sc) => self@.contains_key(name@) && self@[name@] == sc@,
                None => !self@.contains_key(name@),
            },
    {
        let n = self.entries.len();
        let mut i: usize = 0;
        while i < n
            invariant
                0 <= i <= n,
                n == self.entries@.len(),
                tbl_wf(self.entries@),
                forall|k: int| 0 <= k < i ==> (#[trigger] self.entries@[k]).0@ != name@,
            decreases n - i,
        {
            if str_eq(self.entries[i].0.as_str(), name) {
                proof {
                    lemma_tbl_map_lookup(self.entries@, i as int);
                }
                return Some(&self.entries[i].1);
            }
            i = i + 1;
        }
        proof {
            lemma_tbl_map_member(self.entries@, name@);
        }
        None
    }

    /// Store `script` under `name`, replacing any earlier entry.
    pub fn set(&mut self, name: &str, script: Script)
        requires
            tbl_wf(old(self).entries@),
        ensures
            tbl_wf(final(self).entries@),
            final(self)@ == old(self)@.insert(name@, script@),
    {
        let n = self.entries.len();
        let mut i: usize = 0;
        while i < n
            invariant
                0 <= i <= n,
                n == self.entries@.len(),
                tbl_wf(self.entries@),
                self.entries@ == old(self).entries@,
                forall|k: int| 0 <= k < i ==> (#[trigger] self.entries@[k]).0@ != name@,
            decreases n - i,
        {
            if str_eq(self.entries[i].0.as_str(), name) {
                let (key, _old_script) = self.entries.remove(i);
                self.entries.insert(i, (key, script));
                proof {
                    let e = self.entries@[i as int];
                    assert(self.entries@ =~= old(self).entries@.update(i as int, e));
                    lemma_tbl_map_update(old(self).entries@, i as int, e);
                    assert(forall|a: int, b: int|
                        0 <= a < b < self.entries@.len() ==> (#[trigger] self.entries@[a]).0@
                            != (#[trigger] self.entries@[b]).0@);
                }
                return ;
            }
            i = i + 1;
        }
        let owned = crate::memory::copy_str(name);
        self.entries.push((owned, script));
        proof {
            assert(self.entries@.drop_last() =~= old(self).entries@);
            lemma_tbl_map_member(old(self).entries@, name@);
        }
    }
}

} // verus!
