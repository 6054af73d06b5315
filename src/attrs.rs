//! Named numeric attributes, at most `MAX_ATTRS` of them.

use vstd::prelude::*;
use crate::dice::RogErr;
use crate::num::Num;

verus! {

/// The most attributes that a store may hold.
pub const MAX_ATTRS: usize = 100;

/// The value under `k` in a list of named values.
pub open spec fn lookup(s: Seq<(Seq<char>, Num)>, k: Seq<char>) -> Option<Num>
    decreases s.len(),
{
    if s.len() == 0 {
        None
    } else if s.last().0 == k {
        Some(s.last().1)
    } else {
        lookup(s.drop_last(), k)
    }
}

/// No name occurs twice.
pub open spec fn distinct_keys(s: Seq<(Seq<char>, Num)>) -> bool {
    forall|i: int, j: int| 0 <= i < j < s.len() ==> s[i].0 != s[j].0
}

proof fn lemma_lookup_absent(s: Seq<(Seq<char>, Num)>, k: Seq<char>)
    requires
        forall|i: int| 0 <= i < s.len() ==> s[i].0 != k,
    ensures
        lookup(s, k) is None,
    decreases s.len(),
{
    if s.len() > 0 {
        lemma_lookup_absent(s.drop_last(), k);
    }
}

proof fn lemma_lookup_at(s: Seq<(Seq<char>, Num)>, i: int)
    requires
        distinct_keys(s),
        0 <= i < s.len(),
    ensures
        lookup(s, s[i].0) == Some(s[i].1),
    decreases s.len(),
{
    if i < s.len() - 1 {
        lemma_lookup_at(s.drop_last(), i);
    }
}

proof fn lemma_lookup_update(s: Seq<(Seq<char>, Num)>, i: int, v: Num, k: Seq<char>)
    requires
        distinct_keys(s),
        0 <= i < s.len(),
    ensures
        lookup(s.update(i, (s[i].0, v)), k) == if k == s[i].0 { Some(v) } else { lookup(s, k) },
    decreases s.len(),
{
    let t = s.update(i, (s[i].0, v));
    if i == s.len() - 1 {
        assert(t.drop_last() =~= s.drop_last());
    } else {
        assert(t.drop_last() =~= s.drop_last().update(i, (s[i].0, v)));
        lemma_lookup_update(s.drop_last(), i, v, k);
    }
}

/// A named value as a name and a number.
pub open spec fn entry_view(e: (String, Num)) -> (Seq<char>, Num) {
    (e.0@, e.1)
}

/// A store of named numbers with distinct names.
pub struct Attrs {
    entries: Vec<(String, Num)>,
}

impl Attrs {
    /// The named values, in the order they were first set.
    pub closed spec fn entries(&self) -> Seq<(Seq<char>, Num)> {
        self.entries@.map_values(|e: (String, Num)| entry_view(e))
    }

    /// The value under `k`, if any.
    pub open spec fn get_spec(&self, k: Seq<char>) -> Option<Num> {
        lookup(self.entries(), k)
    }

    /// How many names the store holds.
    pub open spec fn len_spec(&self) -> nat {
        self.entries().len()
    }

    /// Names are distinct and there are at most `MAX_ATTRS` of them.
    pub open spec fn wf(&self) -> bool {
        distinct_keys(self.entries()) && self.len_spec() <= MAX_ATTRS
    }

    /// An empty store.
    pub fn new() -> (r: Self)
        ensures
            r.wf(),
            r.len_spec() == 0,
            forall|k: Seq<char>| r.get_spec(k) is None,
    {
        let r = Attrs { entries: Vec::new() };
        assert(r.entries() =~= Seq::empty());
        r
    }

    pub fn len(&self) -> (r: usize)
        ensures
            r == self.len_spec(),
    {
        self.entries.len()
    }

    /// The named values, in the order they were first set.
    pub fn to_vec(&self) -> (r: Vec<(String, Num)>)
        ensures
            r@.map_values(|e: (String, Num)| entry_view(e)) == self.entries(),
    {
        let mut r: Vec<(String, Num)> = Vec::new();
        let mut i: usize = 0;
        while i < self.entries.len()
            invariant
                i <= self.entries@.len(),
                r@.len() == i,
                r@.map_values(|e: (String, Num)| entry_view(e)) == self.entries().subrange(0, i as int),
            decreases self.entries@.len() - i,
        {
            let k = self.entries[i].0.clone();
            let ghost before = r@;
            r.push((k, self.entries[i].1));
            assert forall|j: int| 0 <= j < i + 1 implies #[trigger] entry_view(r@[j]) == self.entries()[j] by {
                if j < i {
                    assert(r@[j] == before[j]);
                    assert(before.map_values(|e: (String, Num)| entry_view(e))[j] == self.entries().subrange(0, i as int)[j]);
                }
            }
            assert(r@.map_values(|e: (String, Num)| entry_view(e)) =~= self.entries().subrange(0, i + 1));
            i += 1;
        }
        assert(self.entries().subrange(0, i as int) =~= self.entries());
        r
    }

    /// The position of `key`, if it is there.
    fn find(&self, key: &String) -> (r: Option<usize>)
        requires
            self.wf(),
        ensures
            r is None ==> self.get_spec(key@) is None,
            r matches Some(i) ==> i < self.len_spec() && self.entries()[i as int].0 == key@
                && self.get_spec(key@) == Some(self.entries()[i as int].1),
    {
        let mut i: usize = 0;
        while i < self.entries.len()
            invariant
                i <= self.entries@.len(),
                self.wf(),
                forall|j: int| 0 <= j < i ==> self.entries()[j].0 != key@,
            decreases self.entries@.len() - i,
        {
            if self.entries[i].0 == *key {
                proof {
                    lemma_lookup_at(self.entries(), i as int);
                }
                return Some(i);
            }
            i += 1;
        }
        proof {
            lemma_lookup_absent(self.entries(), key@);
        }
        None
    }

    /// The value under `key`, if any.
    pub fn get(&self, key: &String) -> (r: Option<Num>)
        requires
            self.wf(),
        ensures
            r == self.get_spec(key@),
    {
        match self.find(key) {
            Some(i) => Some(self.entries[i].1),
            None => None,
        }
    }

    /// Sets `key` to `v`. A new name is refused with `AttributeMax` when
    /// the store is full, and the store is then left as it was.
    pub fn set(&mut self, key: String, v: Num) -> (r: Result<(), RogErr>)
        requires
            old(self).wf(),
        ensures
            final(self).wf(),
            r is Err <==> old(self).get_spec(key@) is None && old(self).len_spec() == MAX_ATTRS,
            r matches Err(e) ==> e == RogErr::AttributeMax && *final(self) == *old(self),
            r is Ok ==> forall|k: Seq<char>| #[trigger] final(self).get_spec(k) == if k == key@ {
                Some(v)
            } else {
                old(self).get_spec(k)
            },
            r is Ok ==> final(self).len_spec() == old(self).len_spec() + if old(self).get_spec(key@) is None { 1int } else { 0int },
    {
        match self.find(&key) {
            Some(i) => {
                let ghost s = self.entries();
                let k = self.entries[i].0.clone();
                self.entries.set(i, (k, v));
                proof {
                    assert(self.entries() =~= s.update(i as int, (s[i as int].0, v)));
                    assert forall|k: Seq<char>| #[trigger] self.get_spec(k) == if k == key@ {
                        Some(v)
                    } else {
                        old(self).get_spec(k)
                    } by {
                        lemma_lookup_update(s, i as int, v, k);
                    }
                }
                Ok(())
            },
            None => {
                if self.entries.len() >= MAX_ATTRS {
                    return Err(RogErr::AttributeMax);
                }
                let ghost s = self.entries();
                let ghost kv = key@;
                self.entries.push((key, v));
                proof {
                    assert(self.entries() =~= s.push((kv, v)));
                    assert(self.entries().drop_last() =~= s);
                    assert forall|i: int| 0 <= i < s.len() implies s[i].0 != kv by {
                        if s[i].0 == kv {
                            lemma_lookup_at(s, i);
                        }
                    }
                }
                Ok(())
            },
        }
    }
}

} // verus!
