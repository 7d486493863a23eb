//! An ordered header map: names are compared byte for byte, each name occurs
//! once, and a later insert of a name replaces its value in place.
use vstd::prelude::*;

verus! {

pub type Entries = Seq<(Seq<u8>, Seq<u8>)>;

/// Position of the last entry named `k`, or -1.
pub open spec fn key_pos(s: Entries, k: Seq<u8>) -> int
    decreases s.len(),
{
    if s.len() == 0 {
        -1
    } else if s.last().0 == k {
        s.len() - 1
    } else {
        key_pos(s.drop_last(), k)
    }
}

/// `s` after setting `k` to `v`: replaced where `k` is, appended otherwise.
pub open spec fn insert_entry(s: Entries, k: Seq<u8>, v: Seq<u8>) -> Entries {
    let p = key_pos(s, k);
    if p >= 0 {
        s.update(p, (k, v))
    } else {
        s.push((k, v))
    }
}

/// No name occurs twice.
pub open spec fn unique_keys(s: Entries) -> bool {
    forall|i: int, j: int| 0 <= i < s.len() && 0 <= j < s.len() && i != j ==> #[trigger] s[i].0 != #[trigger] s[j].0
}

/// The value stored under `k`, if any.
pub open spec fn lookup(s: Entries, k: Seq<u8>) -> Option<Seq<u8>> {
    let p = key_pos(s, k);
    if p >= 0 {
        Some(s[p].1)
    } else {
        None
    }
}

pub proof fn lemma_key_pos(s: Entries, k: Seq<u8>)
    ensures
        -1 <= key_pos(s, k) < s.len(),
        key_pos(s, k) >= 0 ==> s[key_pos(s, k)].0 == k,
        key_pos(s, k) < 0 <==> forall|i: int| 0 <= i < s.len() ==> s[i].0 != k,
        forall|i: int| key_pos(s, k) < i < s.len() ==> s[i].0 != k,
    decreases s.len(),
{
    if s.len() > 0 {
        lemma_key_pos(s.drop_last(), k);
        if s.last().0 != k {
            assert forall|i: int| 0 <= i < s.len() - 1 implies s[i] == s.drop_last()[i] by {}
        }
    }
}

pub proof fn lemma_insert_unique(s: Entries, k: Seq<u8>, v: Seq<u8>)
    requires
        unique_keys(s),
    ensures
        unique_keys(insert_entry(s, k, v)),
{
    lemma_key_pos(s, k);
    let r = insert_entry(s, k, v);
    assert forall|i: int, j: int| 0 <= i < r.len() && 0 <= j < r.len() && i != j implies #[trigger] r[i].0
        != #[trigger] r[j].0 by {
        if key_pos(s, k) < 0 {
            if i == s.len() {
                assert(s[j].0 != k);
            } else if j == s.len() {
                assert(s[i].0 != k);
            }
        }
    }
}

pub struct HeaderMap {
    entries: Vec<(Vec<u8>, Vec<u8>)>,
}

impl View for HeaderMap {
    type V = Entries;

    closed spec fn view(&self) -> Entries {
        self.entries@.map_values(|e: (Vec<u8>, Vec<u8>)| (e.0@, e.1@))
    }
}

impl HeaderMap {
    pub open spec fn wf(&self) -> bool {
        unique_keys(self@)
    }

    pub fn new() -> (r: HeaderMap)
        ensures
            r@ == Seq::<(Seq<u8>, Seq<u8>)>::empty(),
            r.wf(),
    {
        let r = HeaderMap { entries: Vec::new() };
        assert(r@ =~= Seq::<(Seq<u8>, Seq<u8>)>::empty());
        r
    }

    pub fn len(&self) -> (r: usize)
        ensures
            r == self@.len(),
    {
        self.entries.len()
    }

    /// The name of the `i`-th entry, in insertion order.
    pub fn name_at(&self, i: usize) -> (r: &Vec<u8>)
        requires
            i < self@.len(),
        ensures
            r@ == self@[i as int].0,
    {
        &self.entries[i].0
    }

    /// The value of the `i`-th entry, in insertion order.
    pub fn value_at(&self, i: usize) -> (r: &Vec<u8>)
        requires
            i < self@.len(),
        ensures
            r@ == self@[i as int].1,
    {
        &self.entries[i].1
    }

    /// Where the name `k` is stored.
    fn position(&self, k: &[u8]) -> (r: Option<usize>)
        ensures
            r.is_some() == (key_pos(self@, k@) >= 0),
            r matches Some(p) ==> p == key_pos(self@, k@) && p < self@.len(),
    {
        proof {
            lemma_key_pos(self@, k@);
            assert(self@.subrange(0, self@.len() as int) =~= self@);
        }
        let mut i: usize = self.entries.len();
        while i > 0
            invariant
                i <= self@.len(),
                key_pos(self@, k@) == key_pos(self@.subrange(0, i as int), k@),
            decreases i,
        {
            let ghost pre = self@.subrange(0, i as int);
            assert(pre.drop_last() =~= self@.subrange(0, i as int - 1));
            if crate::text::bytes_eq(self.entries[i - 1].0.as_slice(), k) {
                return Some(i - 1);
            }
            i = i - 1;
        }
        None
    }

    /// The value stored under `k`.
    pub fn get(&self, k: &[u8]) -> (r: Option<&Vec<u8>>)
        ensures
            r matches Some(v) ==> lookup(self@, k@) == Some(v@),
            r is None ==> lookup(self@, k@) is None,
    {
        match self.position(k) {
            Some(p) => Some(&self.entries[p].1),
            None => None,
        }
    }

    pub fn contains(&self, k: &[u8]) -> (r: bool)
        ensures
            r == lookup(self@, k@) is Some,
    {
        self.position(k).is_some()
    }

    /// Sets `k` to `v`, keeping the place of an existing `k`.
    pub fn insert(&mut self, k: Vec<u8>, v: Vec<u8>)
        requires
            old(self).wf(),
        ensures
            final(self).wf(),
            final(self)@ == insert_entry(old(self)@, k@, v@),
    {
        proof {
            lemma_insert_unique(self@, k@, v@);
        }
        let ghost kv = (k@, v@);
        match self.position(k.as_slice()) {
            Some(p) => {
                self.entries.set(p, (k, v));
                assert(self@ =~= old(self)@.update(p as int, kv));
            },
            None => {
                self.entries.push((k, v));
                assert(self@ =~= old(self)@.push(kv));
            },
        }
    }
}

} // verus!
