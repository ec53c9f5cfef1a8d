//! First pass: every distinct tag gets a stable dense id and an occurrence count.

use vstd::prelude::*;
use indexmap::IndexMap;
use fnv::{FnvBuildHasher, FnvHasher};
use std::hash::BuildHasherDefault;
use crate::tags::{tag_models, Tag, TagModel};

verus! {

#[verifier::external_type_specification]
#[verifier::external_body]
#[verifier::reject_recursive_types(K)]
#[verifier::reject_recursive_types(V)]
#[verifier::reject_recursive_types(S)]
pub struct ExIndexMap<K, V, S>(IndexMap<K, V, S>);

#[verifier::external_type_specification]
#[verifier::external_body]
#[verifier::reject_recursive_types(H)]
pub struct ExBuildHasherDefault<H>(BuildHasherDefault<H>);

#[verifier::external_type_specification]
#[verifier::external_body]
pub struct ExFnvHasher(FnvHasher);

/// The id of a tag and how often it was observed.
#[derive(Clone, Copy, Debug, PartialEq, Eq, Structural)]
pub struct NodeSlot {
    pub id: usize,
    pub count: u64,
}

pub type NodeMap = IndexMap<Tag, NodeSlot, FnvBuildHasher>;

/// The entries of a node map in its order: each key as a tag model, with its slot.
pub uninterp spec fn node_entries(m: NodeMap) -> Seq<(TagModel, NodeSlot)>;

/// Relies on `IndexMap::with_hasher`: a new map holds no entry.
#[verifier::external_body]
fn node_map_new() -> (r: NodeMap)
    ensures
        node_entries(r) == Seq::<(TagModel, NodeSlot)>::empty(),
{
    IndexMap::with_hasher(FnvBuildHasher::default())
}

/// Relies on `IndexMap::len`: the number of entries.
#[verifier::external_body]
fn node_map_len(m: &NodeMap) -> (r: usize)
    ensures
        r == node_entries(*m).len(),
{
    m.len()
}

/// Relies on `IndexMap::get_index_of`: the position of the entry whose key
/// equals `tag` (by the derived field-wise equality of `Tag`), if there is one.
#[verifier::external_body]
fn node_map_index_of(m: &NodeMap, tag: &Tag) -> (r: Option<usize>)
    ensures
        match r {
            Some(i) => i < node_entries(*m).len() && node_entries(*m)[i as int].0 == tag@,
            None => forall|i: int|
                0 <= i < node_entries(*m).len() ==> #[trigger] node_entries(*m)[i].0 != tag@,
        },
{
    m.get_index_of(tag)
}

/// Relies on `IndexMap::insert`: a key that is not yet present is added last.
#[verifier::external_body]
fn node_map_insert_new(m: &mut NodeMap, tag: Tag, slot: NodeSlot)
    requires
        forall|i: int|
            0 <= i < node_entries(*old(m)).len() ==> #[trigger] node_entries(*old(m))[i].0 != tag@,
    ensures
        node_entries(*final(m)) == node_entries(*old(m)).push((tag@, slot)),
{
    m.insert(tag, slot);
}

/// Relies on `IndexMut<usize>` of `IndexMap`: replaces the value at a position
/// and leaves keys and order as they are.
#[verifier::external_body]
fn node_map_set(m: &mut NodeMap, i: usize, slot: NodeSlot)
    requires
        i < node_entries(*old(m)).len(),
    ensures
        node_entries(*final(m)) == node_entries(*old(m)).update(
            i as int,
            (node_entries(*old(m))[i as int].0, slot),
        ),
{
    m[i] = slot;
}

/// Relies on `IndexMap::get_index`: the key and value at a position.
#[verifier::external_body]
fn node_map_get(m: &NodeMap, i: usize) -> (r: (Tag, NodeSlot))
    requires
        i < node_entries(*m).len(),
    ensures
        (r.0@, r.1) == node_entries(*m)[i as int],
{
    let (k, v) = m.get_index(i).unwrap();
    (k.clone(), *v)
}

/// Relies on `IndexMap::retain`: keeps the entries that the closure accepts,
/// in their order.
#[verifier::external_body]
fn node_map_retain(m: &mut NodeMap, threshold: u64)
    ensures
        node_entries(*final(m)) == entries_reaching(node_entries(*old(m)), threshold),
{
    m.retain(|_, v| slot_reaches(v, threshold));
}

fn slot_reaches(slot: &NodeSlot, threshold: u64) -> (r: bool)
    ensures
        r == (slot.count >= threshold),
{
    slot.count >= threshold
}

/// The entries whose count reaches `threshold`, in order.
pub open spec fn entries_reaching(s: Seq<(TagModel, NodeSlot)>, threshold: u64) -> Seq<
    (TagModel, NodeSlot),
>
    decreases s.len(),
{
    if s.len() == 0 {
        s
    } else {
        let prev = entries_reaching(s.drop_last(), threshold);
        if s.last().1.count >= threshold {
            prev.push(s.last())
        } else {
            prev
        }
    }
}

/// The ids of those of `tags` that have an entry in `m`, in order.
pub open spec fn known_ids(m: NodeModel, tags: Seq<TagModel>) -> Seq<usize>
    decreases tags.len(),
{
    if tags.len() == 0 {
        Seq::empty()
    } else {
        let prev = known_ids(m, tags.drop_last());
        match id_of(m, tags.last()) {
            Some(id) => prev.push(id),
            None => prev,
        }
    }
}

/// The abstract state of a node index.
pub ghost struct NodeModel {
    /// The live entries in order of first observation.
    pub entries: Seq<(TagModel, NodeSlot)>,
    /// The id that the next new tag receives.
    pub next_id: nat,
    /// How many observations were made in all.
    pub observed: nat,
}

/// The position of the entry for `tag`, if there is one.
pub open spec fn position_of(entries: Seq<(TagModel, NodeSlot)>, tag: TagModel) -> Option<int> {
    if exists|i: int| 0 <= i < entries.len() && entries[i].0 == tag {
        Some(choose|i: int| 0 <= i < entries.len() && entries[i].0 == tag)
    } else {
        None
    }
}

/// The id of `tag`, if it has an entry.
pub open spec fn id_of(m: NodeModel, tag: TagModel) -> Option<usize> {
    match position_of(m.entries, tag) {
        Some(i) => Some(m.entries[i].1.id),
        None => None,
    }
}

/// Keys are distinct, ids strictly increase along the entries and stay below
/// `next_id`, and no count exceeds the number of observations.
pub open spec fn model_wf(m: NodeModel) -> bool {
    &&& forall|i: int, j: int|
        0 <= i < j < m.entries.len() ==> #[trigger] m.entries[i].0 != #[trigger] m.entries[j].0
    &&& forall|i: int, j: int|
        0 <= i < j < m.entries.len() ==> #[trigger] m.entries[i].1.id < #[trigger] m.entries[j].1.id
    &&& forall|i: int| 0 <= i < m.entries.len() ==> #[trigger] m.entries[i].1.id < m.next_id
    &&& forall|i: int| 0 <= i < m.entries.len() ==> #[trigger] m.entries[i].1.count <= m.observed
    &&& forall|i: int| 0 <= i < m.entries.len() ==> #[trigger] m.entries[i].1.count >= 1
    &&& m.next_id <= m.observed
}

/// The state after one observation of `tag`.
pub open spec fn observe_model(m: NodeModel, tag: TagModel) -> NodeModel {
    match position_of(m.entries, tag) {
        Some(i) => NodeModel {
            entries: m.entries.update(
                i,
                (tag, NodeSlot { id: m.entries[i].1.id, count: (m.entries[i].1.count + 1) as u64 }),
            ),
            next_id: m.next_id,
            observed: m.observed + 1,
        },
        None => NodeModel {
            entries: m.entries.push((tag, NodeSlot { id: m.next_id as usize, count: 1 })),
            next_id: m.next_id + 1,
            observed: m.observed + 1,
        },
    }
}

/// The id that one observation of `tag` returns.
pub open spec fn observe_result(m: NodeModel, tag: TagModel) -> usize {
    match position_of(m.entries, tag) {
        Some(i) => m.entries[i].1.id,
        None => m.next_id as usize,
    }
}

/// The state after removing every entry observed fewer than `threshold` times.
pub open spec fn retain_model(m: NodeModel, threshold: u64) -> NodeModel {
    NodeModel {
        entries: entries_reaching(m.entries, threshold),
        next_id: m.next_id,
        observed: m.observed,
    }
}

/// Distinct tags with stable dense ids, in order of first observation.
pub struct NodeIndex {
    map: NodeMap,
    next_id: usize,
    observed: usize,
}

impl View for NodeIndex {
    type V = NodeModel;

    closed spec fn view(&self) -> NodeModel {
        NodeModel {
            entries: node_entries(self.map),
            next_id: self.next_id as nat,
            observed: self.observed as nat,
        }
    }
}

impl NodeIndex {
    pub open spec fn wf(&self) -> bool {
        model_wf(self@)
    }

    /// An index with no entries.
    pub fn new() -> (r: NodeIndex)
        ensures
            r.wf(),
            r@.entries.len() == 0,
            r@.next_id == 0,
            r@.observed == 0,
    {
        NodeIndex { map: node_map_new(), next_id: 0, observed: 0 }
    }

    /// How many observations were made so far.
    pub fn observed(&self) -> (r: usize)
        ensures
            r == self@.observed,
    {
        self.observed
    }

    /// The number of live entries.
    pub fn len(&self) -> (r: usize)
        ensures
            r == self@.entries.len(),
    {
        node_map_len(&self.map)
    }

    /// Counts one occurrence of `tag` and returns its id; a tag seen for the
    /// first time gets the next id.
    pub fn observe(&mut self, tag: Tag) -> (r: usize)
        requires
            old(self).wf(),
            old(self)@.observed < usize::MAX,
        ensures
            final(self).wf(),
            final(self)@ == observe_model(old(self)@, tag@),
            r == observe_result(old(self)@, tag@),
    {
        let ghost m = self@;
        match node_map_index_of(&self.map, &tag) {
            Some(i) => {
                let (_, slot) = node_map_get(&self.map, i);
                assert(m.entries[i as int].1.count <= m.observed);
                let new_slot = NodeSlot { id: slot.id, count: slot.count + 1 };
                node_map_set(&mut self.map, i, new_slot);
                self.observed = self.observed + 1;
                proof {
                    assert(exists|j: int| 0 <= j < m.entries.len() && m.entries[j].0 == tag@);
                    let p = position_of(m.entries, tag@)->0;
                    if p != i {
                        assert(m.entries[p].0 == m.entries[i as int].0);
                    }
                    assert(self@.entries =~= observe_model(m, tag@).entries);
                }
                slot.id
            },
            None => {
                let id = self.next_id;
                node_map_insert_new(&mut self.map, tag, NodeSlot { id, count: 1 });
                self.next_id = self.next_id + 1;
                self.observed = self.observed + 1;
                proof {
                    assert(self@.entries =~= observe_model(m, tag@).entries);
                }
                id
            },
        }
    }

    /// The id of `tag`, if it has a live entry.
    pub fn lookup(&self, tag: &Tag) -> (r: Option<usize>)
        requires
            self.wf(),
        ensures
            r == id_of(self@, tag@),
    {
        match node_map_index_of(&self.map, tag) {
            Some(i) => {
                let (_, slot) = node_map_get(&self.map, i);
                proof {
                    let m = self@;
                    assert(exists|j: int| 0 <= j < m.entries.len() && m.entries[j].0 == tag@);
                    let p = position_of(m.entries, tag@)->0;
                    if p != i {
                        assert(m.entries[p].0 == m.entries[i as int].0);
                    }
                }
                Some(slot.id)
            },
            None => None,
        }
    }

    /// The entry at position `i`: its tag and slot.
    pub fn entry(&self, i: usize) -> (r: (Tag, NodeSlot))
        requires
            i < self@.entries.len(),
        ensures
            (r.0@, r.1) == self@.entries[i as int],
    {
        node_map_get(&self.map, i)
    }

    /// The id that the next new tag would receive.
    pub fn next_id(&self) -> (r: usize)
        ensures
            r == self@.next_id,
    {
        self.next_id
    }

    /// Observes each tag of one record, in order.
    pub fn observe_tags(&mut self, tags: &Vec<Tag>)
        requires
            old(self).wf(),
            old(self)@.observed + tags@.len() < usize::MAX,
        ensures
            final(self).wf(),
            final(self)@ == observe_all(old(self)@, tag_models(tags@)),
    {
        let ghost m0 = self@;
        let ghost all = tag_models(tags@);
        let mut i: usize = 0;
        assert(all.subrange(0, 0) =~= Seq::<TagModel>::empty());
        while i < tags.len()
            invariant
                self.wf(),
                i <= tags@.len(),
                all == tag_models(tags@),
                self@.observed == m0.observed + i,
                m0.observed + tags@.len() < usize::MAX,
                self@ == observe_all(m0, all.subrange(0, i as int)),
            decreases tags@.len() - i,
        {
            assert(all.subrange(0, i + 1).drop_last() =~= all.subrange(0, i as int));
            self.observe(tags[i].duplicate());
            i += 1;
        }
        assert(all.subrange(0, tags@.len() as int) =~= all);
    }

    /// The ids of those of `tags` that have a live entry, in order.
    pub fn record_ids(&self, tags: &Vec<Tag>) -> (r: Vec<usize>)
        requires
            self.wf(),
        ensures
            r@ == known_ids(self@, tag_models(tags@)),
    {
        let ghost all = tag_models(tags@);
        let mut out: Vec<usize> = Vec::new();
        let mut i: usize = 0;
        assert(all.subrange(0, 0) =~= Seq::<TagModel>::empty());
        while i < tags.len()
            invariant
                self.wf(),
                i <= tags@.len(),
                all == tag_models(tags@),
                out@ == known_ids(self@, all.subrange(0, i as int)),
            decreases tags@.len() - i,
        {
            assert(all.subrange(0, i + 1).drop_last() =~= all.subrange(0, i as int));
            match self.lookup(&tags[i]) {
                Some(id) => out.push(id),
                None => {},
            }
            i += 1;
        }
        assert(all.subrange(0, tags@.len() as int) =~= all);
        out
    }

    /// Removes every entry observed fewer than `threshold` times; the ids of
    /// the others do not change.
    pub fn retain_min_count(&mut self, threshold: u64)
        requires
            old(self).wf(),
        ensures
            final(self).wf(),
            final(self)@ == retain_model(old(self)@, threshold),
    {
        let ghost m = self@;
        node_map_retain(&mut self.map, threshold);
        proof {
            lemma_retain_wf(m, threshold);
        }
    }
}

proof fn lemma_wf_drop_last(m: NodeModel)
    requires
        model_wf(m),
        m.entries.len() > 0,
    ensures
        model_wf(NodeModel { entries: m.entries.drop_last(), ..m }),
{
    let d = m.entries.drop_last();
    assert forall|i: int| 0 <= i < d.len() implies #[trigger] d[i] == m.entries[i] by {}
}

/// Every entry that survives retention was an entry before.
proof fn lemma_retained_from(s: Seq<(TagModel, NodeSlot)>, threshold: u64)
    ensures
        forall|i: int| 0 <= i < entries_reaching(s, threshold).len() ==> s.contains(
            #[trigger] entries_reaching(s, threshold)[i],
        ),
    decreases s.len(),
{
    if s.len() > 0 {
        let d = s.drop_last();
        let fd = entries_reaching(d, threshold);
        let f = entries_reaching(s, threshold);
        lemma_retained_from(d, threshold);
        assert forall|i: int| 0 <= i < f.len() implies s.contains(#[trigger] f[i]) by {
            if i < fd.len() {
                assert(f[i] == fd[i]);
                assert(d.contains(fd[i]));
                let k = choose|k: int| 0 <= k < d.len() && d[k] == fd[i];
                assert(s[k] == d[k]);
            } else {
                assert(f[i] == s[s.len() - 1]);
            }
        }
    }
}

/// Retention keeps an index well formed.
proof fn lemma_retain_wf(m: NodeModel, threshold: u64)
    requires
        model_wf(m),
    ensures
        model_wf(retain_model(m, threshold)),
    decreases m.entries.len(),
{
    let s = m.entries;
    let f = entries_reaching(s, threshold);
    if s.len() > 0 {
        let d = s.drop_last();
        let md = NodeModel { entries: d, ..m };
        lemma_wf_drop_last(m);
        lemma_retain_wf(md, threshold);
        let fd = entries_reaching(d, threshold);
        if s.last().1.count >= threshold {
            assert(f == fd.push(s.last()));
            let rd = retain_model(md, threshold);
            assert(rd.entries == fd);
            assert(model_wf(rd));
            lemma_retained_from(d, threshold);
            assert forall|i: int| 0 <= i < fd.len() implies #[trigger] fd[i].0 != s.last().0
                && fd[i].1.id < s.last().1.id by {
                assert(d.contains(fd[i]));
                let k = choose|k: int| 0 <= k < d.len() && d[k] == fd[i];
                assert(s[k] == d[k]);
                assert(s[s.len() - 1] == s.last());
            }
            assert forall|i: int, j: int| 0 <= i < j < f.len() implies #[trigger] f[i].0
                != #[trigger] f[j].0 by {
                if j == f.len() - 1 {
                    assert(f[i] == fd[i]);
                    assert(f[j] == s.last());
                    assert(fd[i].0 != s.last().0 && fd[i].1.id < s.last().1.id);
                } else {
                    assert(f[i] == fd[i]);
                    assert(f[j] == fd[j]);
                    assert(rd.entries[i].0 != rd.entries[j].0);
                    assert(rd.entries[i].1.id < rd.entries[j].1.id);
                }
            }
            assert forall|i: int, j: int| 0 <= i < j < f.len() implies #[trigger] f[i].1.id
                < #[trigger] f[j].1.id by {
                if j == f.len() - 1 {
                    assert(f[i] == fd[i]);
                    assert(f[j] == s.last());
                    assert(fd[i].0 != s.last().0 && fd[i].1.id < s.last().1.id);
                } else {
                    assert(f[i] == fd[i]);
                    assert(f[j] == fd[j]);
                    assert(rd.entries[i].0 != rd.entries[j].0);
                    assert(rd.entries[i].1.id < rd.entries[j].1.id);
                }
            }
            assert forall|i: int| 0 <= i < f.len() implies #[trigger] f[i].1.id < m.next_id
                && f[i].1.count <= m.observed && f[i].1.count >= 1 by {
                if i < fd.len() {
                    assert(f[i] == fd[i]);
                } else {
                    assert(f[i] == s[s.len() - 1]);
                }
            }
        }
    }
}

/// The state after observing each of `tags` in turn.
pub open spec fn observe_all(m: NodeModel, tags: Seq<TagModel>) -> NodeModel
    decreases tags.len(),
{
    if tags.len() == 0 {
        m
    } else {
        observe_model(observe_all(m, tags.drop_last()), tags.last())
    }
}

pub open spec fn keys_distinct(entries: Seq<(TagModel, NodeSlot)>) -> bool {
    forall|i: int, j: int|
        0 <= i < j < entries.len() ==> #[trigger] entries[i].0 != #[trigger] entries[j].0
}

proof fn lemma_position_unique(entries: Seq<(TagModel, NodeSlot)>, tag: TagModel, i: int)
    requires
        keys_distinct(entries),
        0 <= i < entries.len(),
        entries[i].0 == tag,
    ensures
        position_of(entries, tag) == Some(i),
{
    let p = position_of(entries, tag)->0;
    if p < i {
        assert(entries[p].0 != entries[i].0);
    } else if p > i {
        assert(entries[i].0 != entries[p].0);
    }
}

/// One observation keeps keys distinct, and the id of a tag that has an
/// entry stays what it was; the observed tag then has an entry.
proof fn lemma_observe_keeps_ids(m: NodeModel, x: TagModel, tag: TagModel)
    requires
        keys_distinct(m.entries),
    ensures
        keys_distinct(observe_model(m, x).entries),
        id_of(m, tag) is Some ==> id_of(observe_model(m, x), tag) == id_of(m, tag),
        id_of(observe_model(m, x), x) == Some(observe_result(m, x)),
{
    let m1 = observe_model(m, x);
    match position_of(m.entries, x) {
        Some(p) => {
            assert(m.entries[p].0 == x);
            assert forall|i: int, j: int| 0 <= i < j < m1.entries.len() implies #[trigger] m1.entries[i].0
                != #[trigger] m1.entries[j].0 by {
                assert(m1.entries[i].0 == m.entries[i].0);
                assert(m1.entries[j].0 == m.entries[j].0);
            }
            lemma_position_unique(m1.entries, x, p);
            if let Some(i) = position_of(m.entries, tag) {
                assert(m.entries[i].0 == tag);
                assert(m1.entries[i].0 == tag);
                lemma_position_unique(m1.entries, tag, i);
            }
        },
        None => {
            let n = m.entries.len() as int;
            assert forall|i: int, j: int| 0 <= i < j < m1.entries.len() implies #[trigger] m1.entries[i].0
                != #[trigger] m1.entries[j].0 by {
                if j == n {
                    assert(m.entries[i].0 != x);
                } else {
                    assert(m.entries[i].0 != m.entries[j].0);
                }
            }
            lemma_position_unique(m1.entries, x, n);
            if let Some(i) = position_of(m.entries, tag) {
                assert(m.entries[i].0 == tag);
                assert(m1.entries[i] == m.entries[i]);
                lemma_position_unique(m1.entries, tag, i);
            }
        },
    }
}

proof fn lemma_observe_all_keeps_ids(m: NodeModel, tags: Seq<TagModel>, tag: TagModel)
    requires
        keys_distinct(m.entries),
        id_of(m, tag) is Some,
    ensures
        keys_distinct(observe_all(m, tags).entries),
        id_of(observe_all(m, tags), tag) == id_of(m, tag),
    decreases tags.len(),
{
    if tags.len() > 0 {
        lemma_observe_all_keeps_ids(m, tags.drop_last(), tag);
        lemma_observe_keeps_ids(observe_all(m, tags.drop_last()), tags.last(), tag);
    }
}

/// Once an observation has given `tag` an id, any observations in between
/// leave it in place: the next observation of `tag` returns the same id.
pub proof fn lemma_id_stable(m: NodeModel, tag: TagModel, between: Seq<TagModel>)
    requires
        keys_distinct(m.entries),
    ensures
        observe_result(observe_all(observe_model(m, tag), between), tag) == observe_result(m, tag),
{
    let m1 = observe_model(m, tag);
    lemma_observe_keeps_ids(m, tag, tag);
    lemma_observe_all_keeps_ids(m1, between, tag);
    let m2 = observe_all(m1, between);
    let p = position_of(m2.entries, tag);
    assert(p is Some);
}

/// Retention is idempotent, and a higher threshold keeps a subset of what a
/// lower one keeps.
pub proof fn lemma_node_retain_monotone(m: NodeModel, t1: u64, t2: u64)
    requires
        t1 <= t2,
    ensures
        retain_model(retain_model(m, t2), t2) == retain_model(m, t2),
        forall|e: (TagModel, NodeSlot)| #[trigger] retain_model(m, t2).entries.contains(e)
            ==> retain_model(m, t1).entries.contains(e),
{
    lemma_reaching_idempotent(m.entries, t2);
    lemma_reaching_nested(m.entries, t1, t2);
    lemma_retained_from(entries_reaching(m.entries, t1), t2);
    let r1 = entries_reaching(m.entries, t1);
    let r2 = entries_reaching(m.entries, t2);
    assert forall|e: (TagModel, NodeSlot)| #[trigger] r2.contains(e) implies r1.contains(e) by {
        let k = choose|k: int| 0 <= k < r2.len() && r2[k] == e;
        assert(entries_reaching(r1, t2)[k] == e);
    }
}

proof fn lemma_reaching_idempotent(s: Seq<(TagModel, NodeSlot)>, t: u64)
    ensures
        entries_reaching(entries_reaching(s, t), t) == entries_reaching(s, t),
    decreases s.len(),
{
    if s.len() > 0 {
        lemma_reaching_idempotent(s.drop_last(), t);
        let f = entries_reaching(s, t);
        if s.last().1.count >= t {
            assert(f.drop_last() =~= entries_reaching(s.drop_last(), t));
        }
    }
}

proof fn lemma_reaching_nested(s: Seq<(TagModel, NodeSlot)>, t1: u64, t2: u64)
    requires
        t1 <= t2,
    ensures
        entries_reaching(entries_reaching(s, t1), t2) == entries_reaching(s, t2),
    decreases s.len(),
{
    if s.len() > 0 {
        lemma_reaching_nested(s.drop_last(), t1, t2);
        let f = entries_reaching(s, t1);
        if s.last().1.count >= t1 {
            assert(f.drop_last() =~= entries_reaching(s.drop_last(), t1));
        }
    }
}

} // verus!
