//! The grouped view of a parsed header: per record line an insertion-ordered
//! tag-to-value mapping in which a duplicated tag overwrites its earlier
//! value, and per record-type code the ordered list of such mappings, keyed
//! in first-seen order.

use vstd::prelude::*;
use crate::bytes::bytes_eq;

verus! {

/// Model of one record's tag mapping: ordered (tag, value) pairs.
pub type TagMapModel = Seq<(Seq<u8>, Seq<u8>)>;

/// Model of the whole grouped header: ordered (record type, records) pairs.
pub type GroupedModel = Seq<(Seq<u8>, Seq<TagMapModel>)>;

/// Last-write-wins insertion: the first pair whose key is `key` is replaced
/// in place; if no pair has that key, `(key, value)` is appended.
pub open spec fn lww_insert(m: TagMapModel, key: Seq<u8>, value: Seq<u8>) -> TagMapModel
    decreases m.len(),
{
    if m.len() == 0 {
        seq![(key, value)]
    } else if m[0].0 == key {
        seq![(key, value)] + m.drop_first()
    } else {
        seq![m[0]] + lww_insert(m.drop_first(), key, value)
    }
}

/// The value of the first pair whose key is `key`, if any.
pub open spec fn map_get(m: TagMapModel, key: Seq<u8>) -> Option<Seq<u8>>
    decreases m.len(),
{
    if m.len() == 0 {
        None
    } else if m[0].0 == key {
        Some(m[0].1)
    } else {
        map_get(m.drop_first(), key)
    }
}

/// Appends `tm` to the record list of `key`, creating the group at the end
/// on the first occurrence of `key`.
pub open spec fn group_insert(g: GroupedModel, key: Seq<u8>, tm: TagMapModel) -> GroupedModel
    decreases g.len(),
{
    if g.len() == 0 {
        seq![(key, seq![tm])]
    } else if g[0].0 == key {
        seq![(g[0].0, g[0].1.push(tm))] + g.drop_first()
    } else {
        seq![g[0]] + group_insert(g.drop_first(), key, tm)
    }
}

/// The record list of the first group whose key is `key`, if any.
pub open spec fn group_find(g: GroupedModel, key: Seq<u8>) -> Option<Seq<TagMapModel>>
    decreases g.len(),
{
    if g.len() == 0 {
        None
    } else if g[0].0 == key {
        Some(g[0].1)
    } else {
        group_find(g.drop_first(), key)
    }
}

/// A first-match lookup may skip a key-free prefix.
pub proof fn lemma_map_get_skip(m: TagMapModel, key: Seq<u8>, i: int)
    requires
        0 <= i <= m.len(),
        forall|j: int| 0 <= j < i ==> m[j].0 != key,
    ensures
        map_get(m, key) == map_get(m.skip(i), key),
    decreases i,
{
    if i > 0 {
        lemma_map_get_skip(m.drop_first(), key, i - 1);
        assert(m.drop_first().skip(i - 1) =~= m.skip(i));
    } else {
        assert(m.skip(0) =~= m);
    }
}

/// Inserting a key that first occurs at `i` updates that pair in place.
pub proof fn lemma_lww_insert_at(m: TagMapModel, key: Seq<u8>, value: Seq<u8>, i: int)
    requires
        0 <= i < m.len(),
        m[i].0 == key,
        forall|j: int| 0 <= j < i ==> m[j].0 != key,
    ensures
        lww_insert(m, key, value) == m.update(i, (key, value)),
    decreases i,
{
    if i == 0 {
        assert(seq![(key, value)] + m.drop_first() =~= m.update(0, (key, value)));
    } else {
        lemma_lww_insert_at(m.drop_first(), key, value, i - 1);
        assert(seq![m[0]] + m.drop_first().update(i - 1, (key, value)) =~= m.update(
            i,
            (key, value),
        ));
    }
}

/// Inserting an absent key appends the pair.
pub proof fn lemma_lww_insert_absent(m: TagMapModel, key: Seq<u8>, value: Seq<u8>)
    requires
        forall|j: int| 0 <= j < m.len() ==> m[j].0 != key,
    ensures
        lww_insert(m, key, value) == m.push((key, value)),
    decreases m.len(),
{
    if m.len() == 0 {
        assert(seq![(key, value)] =~= m.push((key, value)));
    } else {
        lemma_lww_insert_absent(m.drop_first(), key, value);
        assert(seq![m[0]] + m.drop_first().push((key, value)) =~= m.push((key, value)));
    }
}

/// A group lookup may skip a key-free prefix.
pub proof fn lemma_group_find_skip(g: GroupedModel, key: Seq<u8>, i: int)
    requires
        0 <= i <= g.len(),
        forall|j: int| 0 <= j < i ==> g[j].0 != key,
    ensures
        group_find(g, key) == group_find(g.skip(i), key),
    decreases i,
{
    if i > 0 {
        lemma_group_find_skip(g.drop_first(), key, i - 1);
        assert(g.drop_first().skip(i - 1) =~= g.skip(i));
    } else {
        assert(g.skip(0) =~= g);
    }
}

/// Inserting under a key whose group first occurs at `i` extends that group.
pub proof fn lemma_group_insert_at(g: GroupedModel, key: Seq<u8>, tm: TagMapModel, i: int)
    requires
        0 <= i < g.len(),
        g[i].0 == key,
        forall|j: int| 0 <= j < i ==> g[j].0 != key,
    ensures
        group_insert(g, key, tm) == g.update(i, (g[i].0, g[i].1.push(tm))),
    decreases i,
{
    if i == 0 {
        assert(seq![(g[0].0, g[0].1.push(tm))] + g.drop_first() =~= g.update(
            0,
            (g[0].0, g[0].1.push(tm)),
        ));
    } else {
        lemma_group_insert_at(g.drop_first(), key, tm, i - 1);
        assert(seq![g[0]] + g.drop_first().update(i - 1, (g[i].0, g[i].1.push(tm))) =~= g.update(
            i,
            (g[i].0, g[i].1.push(tm)),
        ));
    }
}

/// Inserting under an absent key appends a fresh singleton group.
pub proof fn lemma_group_insert_absent(g: GroupedModel, key: Seq<u8>, tm: TagMapModel)
    requires
        forall|j: int| 0 <= j < g.len() ==> g[j].0 != key,
    ensures
        group_insert(g, key, tm) == g.push((key, seq![tm])),
    decreases g.len(),
{
    if g.len() == 0 {
        assert(seq![(key, seq![tm])] =~= g.push((key, seq![tm])));
    } else {
        lemma_group_insert_absent(g.drop_first(), key, tm);
        assert(seq![g[0]] + g.drop_first().push((key, seq![tm])) =~= g.push((key, seq![tm])));
    }
}

/// One record's parsed tags: an insertion-ordered list of (tag, value)
/// pairs with unique tags, updated last-write-wins.
#[derive(Debug)]
pub struct TagMap {
    entries: Vec<(Vec<u8>, Vec<u8>)>,
}

impl View for TagMap {
    type V = TagMapModel;

    closed spec fn view(&self) -> TagMapModel {
        Seq::new(self.entries@.len(), |i: int| (self.entries@[i].0@, self.entries@[i].1@))
    }
}

impl TagMap {
    /// An empty tag mapping.
    pub fn new() -> (r: TagMap)
        ensures
            r@ == Seq::<(Seq<u8>, Seq<u8>)>::empty(),
    {
        let r = TagMap { entries: Vec::new() };
        proof {
            assert(r@ =~= Seq::<(Seq<u8>, Seq<u8>)>::empty());
        }
        r
    }

    /// The number of distinct tags held.
    pub fn len(&self) -> (r: usize)
        ensures
            r == self@.len(),
    {
        self.entries.len()
    }

    /// Inserts `value` under `key`, overwriting in place the value of an
    /// already-present key.
    pub fn insert(&mut self, key: Vec<u8>, value: Vec<u8>)
        ensures
            final(self)@ == lww_insert(old(self)@, key@, value@),
    {
        let mut i: usize = 0;
        while i < self.entries.len()
            invariant
                i <= self.entries@.len(),
                forall|j: int| 0 <= j < i ==> self@[j].0 != key@,
                self == old(self),
            decreases self.entries@.len() - i,
        {
            if bytes_eq(self.entries[i].0.as_slice(), key.as_slice()) {
                proof {
                    lemma_lww_insert_at(self@, key@, value@, i as int);
                }
                let ghost pre = self@;
                let _ = self.entries.remove(i);
                self.entries.insert(i, (key, value));
                proof {
                    assert(self@ =~= lww_insert(pre, pre[i as int].0, value@));
                }
                return ;
            }
            i = i + 1;
        }
        proof {
            lemma_lww_insert_absent(self@, key@, value@);
        }
        let ghost pre = self@;
        self.entries.push((key, value));
        proof {
            assert(self@ =~= lww_insert(pre, key@, value@));
        }
    }

    /// Looks a tag up, returning the value it maps to, if any.
    pub fn get(&self, key: &[u8]) -> (r: Option<&Vec<u8>>)
        ensures
            match r {
                Some(v) => map_get(self@, key@) == Some(v@),
                None => map_get(self@, key@) is None,
            },
    {
        let mut i: usize = 0;
        while i < self.entries.len()
            invariant
                i <= self.entries@.len(),
                forall|j: int| 0 <= j < i ==> self@[j].0 != key@,
            decreases self.entries@.len() - i,
        {
            if bytes_eq(self.entries[i].0.as_slice(), key) {
                proof {
                    lemma_map_get_skip(self@, key@, i as int);
                    assert(self@.skip(i as int)[0] == self@[i as int]);
                }
                return Some(&self.entries[i].1);
            }
            i = i + 1;
        }
        proof {
            lemma_map_get_skip(self@, key@, self@.len() as int);
            assert(self@.skip(self@.len() as int) =~= Seq::<(Seq<u8>, Seq<u8>)>::empty());
        }
        None
    }
}

/// The parsed header: record-type codes in first-seen order, each mapped to
/// the ordered list of tag mappings of the record lines of that type.
#[derive(Debug)]
pub struct GroupedHeader {
    groups: Vec<(Vec<u8>, Vec<TagMap>)>,
}

impl View for GroupedHeader {
    type V = GroupedModel;

    closed spec fn view(&self) -> GroupedModel {
        Seq::new(
            self.groups@.len(),
            |i: int|
                (
                    self.groups@[i].0@,
                    Seq::new(self.groups@[i].1@.len(), |k: int| self.groups@[i].1@[k]@),
                ),
        )
    }
}

impl GroupedHeader {
    /// An empty grouping.
    pub fn new() -> (r: GroupedHeader)
        ensures
            r@ == Seq::<(Seq<u8>, Seq<TagMapModel>)>::empty(),
    {
        let r = GroupedHeader { groups: Vec::new() };
        proof {
            assert(r@ =~= Seq::<(Seq<u8>, Seq<TagMapModel>)>::empty());
        }
        r
    }

    /// The number of distinct record-type codes held.
    pub fn len(&self) -> (r: usize)
        ensures
            r == self@.len(),
    {
        self.groups.len()
    }

    /// Appends one record's tag mapping to the group of `key`, creating the
    /// group at the end on the key's first occurrence.
    pub fn add_record(&mut self, key: Vec<u8>, tm: TagMap)
        ensures
            final(self)@ == group_insert(old(self)@, key@, tm@),
    {
        let mut i: usize = 0;
        while i < self.groups.len()
            invariant
                i <= self.groups@.len(),
                forall|j: int| 0 <= j < i ==> self@[j].0 != key@,
                self == old(self),
            decreases self.groups@.len() - i,
        {
            if bytes_eq(self.groups[i].0.as_slice(), key.as_slice()) {
                proof {
                    lemma_group_insert_at(self@, key@, tm@, i as int);
                }
                let ghost pre = self@;
                let mut entry = self.groups.remove(i);
                entry.1.push(tm);
                self.groups.insert(i, entry);
                proof {
                    assert(self@ =~~= pre.update(i as int, (pre[i as int].0, pre[i as int].1.push(
                        tm@,
                    ))));
                }
                return ;
            }
            i = i + 1;
        }
        proof {
            lemma_group_insert_absent(self@, key@, tm@);
        }
        let ghost pre = self@;
        let mut singleton: Vec<TagMap> = Vec::new();
        singleton.push(tm);
        self.groups.push((key, singleton));
        proof {
            assert(self@ =~~= pre.push((key@, seq![tm@])));
        }
    }

    /// Looks a record-type code up, returning its record list, if any.
    pub fn get(&self, key: &[u8]) -> (r: Option<&Vec<TagMap>>)
        ensures
            match r {
                Some(ms) => group_find(self@, key@) == Some(
                    Seq::new(ms@.len(), |k: int| ms@[k]@),
                ),
                None => group_find(self@, key@) is None,
            },
    {
        let mut i: usize = 0;
        while i < self.groups.len()
            invariant
                i <= self.groups@.len(),
                forall|j: int| 0 <= j < i ==> self@[j].0 != key@,
            decreases self.groups@.len() - i,
        {
            if bytes_eq(self.groups[i].0.as_slice(), key) {
                proof {
                    lemma_group_find_skip(self@, key@, i as int);
                    assert(self@.skip(i as int)[0] == self@[i as int]);
                }
                return Some(&self.groups[i].1);
            }
            i = i + 1;
        }
        proof {
            lemma_group_find_skip(self@, key@, self@.len() as int);
            assert(self@.skip(self@.len() as int) =~= Seq::<(Seq<u8>, Seq<TagMapModel>)>::empty());
        }
        None
    }

    /// Whether any record of type `key` was seen.
    pub fn contains_key(&self, key: &[u8]) -> (r: bool)
        ensures
            r <==> group_find(self@, key@) is Some,
    {
        match self.get(key) {
            Some(_) => true,
            None => false,
        }
    }
}

} // verus!
