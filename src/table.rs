//! Tables from names to values, where a later entry overrides an earlier one.
use vstd::prelude::*;

verus! {

/// The mapping that a list of entries stands for: each entry, in order,
/// sets its name to its value.
pub open spec fn table_map<V: View>(s: Seq<(String, V)>) -> Map<Seq<char>, V::V>
    decreases s.len(),
{
    if s.len() == 0 {
        Map::empty()
    } else {
        table_map(s.drop_last()).insert(s.last().0@, s.last().1@)
    }
}

proof fn lemma_map_skips_other_keys<V: View>(s: Seq<(String, V)>, j: int, k: Seq<char>)
    requires
        0 <= j <= s.len(),
        forall|m: int| j <= m < s.len() ==> (#[trigger] s[m]).0@ != k,
    ensures
        table_map(s).contains_key(k) == table_map(s.take(j)).contains_key(k),
        table_map(s).contains_key(k) ==> table_map(s)[k] == table_map(s.take(j))[k],
    decreases s.len(),
{
    if j == s.len() {
        assert(s.take(j) =~= s);
    } else {
        let t = s.drop_last();
        assert(s.last() == s[s.len() - 1]);
        assert forall|m: int| j <= m < t.len() implies (#[trigger] t[m]).0@ != k by {
            assert(t[m] == s[m]);
        }
        lemma_map_skips_other_keys(t, j, k);
        assert(t.take(j) =~= s.take(j));
    }
}

/// An ordered table of named values; a later entry overrides an earlier one
/// with the same name.
pub struct Table<V> {
    pub entries: Vec<(String, V)>,
}

impl<V: View> Table<V> {
    /// The mapping from names to (views of) values.
    pub open spec fn map(&self) -> Map<Seq<char>, V::V> {
        table_map(self.entries@)
    }

    /// An empty table.
    pub fn new() -> (r: Self)
        ensures
            r.map() == Map::<Seq<char>, V::V>::empty(),
    {
        Table { entries: Vec::new() }
    }

    /// Sets `key` to `value`, replacing what it held.
    pub fn insert(&mut self, key: String, value: V)
        ensures
            final(self).map() == old(self).map().insert(key@, value@),
    {
        let ghost before = self.entries@;
        self.entries.push((key, value));
        proof {
            assert(self.entries@.drop_last() =~= before);
        }
    }

    /// The value held under `key`.
    pub fn get(&self, key: &String) -> (r: Option<&V>)
        ensures
            match r {
                Some(v) => self.map().contains_key(key@) && self.map()[key@] == v@,
                None => !self.map().contains_key(key@),
            },
    {
        let mut j: usize = self.entries.len();
        while j > 0
            invariant
                j <= self.entries@.len(),
                forall|m: int| j <= m < self.entries@.len() ==> (#[trigger] self.entries@[m]).0@
                    != key@,
            decreases j,
        {
            if self.entries[j - 1].0 == *key {
                proof {
                    let s = self.entries@;
                    lemma_map_skips_other_keys(s, j as int, key@);
                    assert(s.take(j as int).drop_last() =~= s.take(j - 1));
                    assert(s.take(j as int).last() == s[j - 1]);
                }
                return Some(&self.entries[j - 1].1);
            }
            j = j - 1;
        }
        proof {
            lemma_map_skips_other_keys(self.entries@, 0, key@);
            assert(self.entries@.take(0) =~= Seq::<(String, V)>::empty());
        }
        None
    }

    /// A table with the same mapping, whose values are copies of these.
    pub fn copied(&self) -> (r: Self)
        where
            V: Copy,
        ensures
            r.map() == self.map(),
    {
        let mut out: Vec<(String, V)> = Vec::new();
        let mut i: usize = 0;
        proof {
            assert(self.entries@.take(0) =~= Seq::<(String, V)>::empty());
        }
        while i < self.entries.len()
            invariant
                i <= self.entries@.len(),
                table_map(out@) == table_map(self.entries@.take(i as int)),
            decreases self.entries@.len() - i,
        {
            let ghost before = out@;
            let k = self.entries[i].0.clone();
            let v = self.entries[i].1;
            out.push((k, v));
            proof {
                assert(out@.drop_last() =~= before);
                let s = self.entries@;
                assert(s.take(i + 1).drop_last() =~= s.take(i as int));
                assert(s.take(i + 1).last() == s[i as int]);
            }
            i = i + 1;
        }
        proof {
            assert(self.entries@.take(self.entries@.len() as int) =~= self.entries@);
        }
        Table { entries: out }
    }
}

} // verus!
