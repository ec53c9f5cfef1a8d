//! Emission: the node and edge tables, each sorted by descending weight.

use vstd::prelude::*;
use std::collections::BTreeMap;
use crate::edges::EdgeAggregator;
use crate::nodes::{NodeIndex, NodeModel};
use crate::tags::TagType;

verus! {

broadcast use vstd::laws_cmp::group_laws_cmp, vstd::std_specs::btree::group_btree_axioms;

/// Where `x` goes into `s`: after the last element whose weight is at least
/// that of `x`.
pub open spec fn insert_pos(s: Seq<(u64, usize)>, x: (u64, usize)) -> int
    decreases s.len(),
{
    if s.len() == 0 {
        0
    } else if s.last().0 >= x.0 {
        s.len() as int
    } else {
        insert_pos(s.drop_last(), x)
    }
}

/// `s` sorted by descending weight, equal weights kept in their order in `s`.
pub open spec fn sort_desc(s: Seq<(u64, usize)>) -> Seq<(u64, usize)>
    decreases s.len(),
{
    if s.len() == 0 {
        s
    } else {
        let p = sort_desc(s.drop_last());
        p.insert(insert_pos(p, s.last()), s.last())
    }
}

proof fn lemma_insert_pos_bound(s: Seq<(u64, usize)>, x: (u64, usize))
    ensures
        0 <= insert_pos(s, x) <= s.len(),
    decreases s.len(),
{
    if s.len() > 0 {
        lemma_insert_pos_bound(s.drop_last(), x);
    }
}

proof fn lemma_sort_desc_len(s: Seq<(u64, usize)>)
    ensures
        sort_desc(s).len() == s.len(),
    decreases s.len(),
{
    if s.len() > 0 {
        lemma_sort_desc_len(s.drop_last());
        lemma_insert_pos_bound(sort_desc(s.drop_last()), s.last());
    }
}

fn insert_sorted(v: &mut Vec<(u64, usize)>, x: (u64, usize))
    ensures
        final(v)@ == old(v)@.insert(insert_pos(old(v)@, x), x),
{
    let mut p: usize = v.len();
    assert(v@.subrange(0, p as int) =~= v@);
    while p > 0 && v[p - 1].0 < x.0
        invariant
            p <= v@.len(),
            insert_pos(v@.subrange(0, p as int), x) == insert_pos(v@, x),
        decreases p,
    {
        assert(v@.subrange(0, p as int).drop_last() =~= v@.subrange(0, p - 1));
        p -= 1;
    }
    proof {
        if p > 0 {
            assert(v@.subrange(0, p as int).last() == v@[p - 1]);
        }
    }
    v.insert(p, x);
}

/// Sorts weighted positions by descending weight; equal weights keep their order.
pub fn sort_by_weight_desc(v: &Vec<(u64, usize)>) -> (r: Vec<(u64, usize)>)
    ensures
        r@ == sort_desc(v@),
{
    let mut out: Vec<(u64, usize)> = Vec::new();
    let mut i: usize = 0;
    assert(v@.subrange(0, 0) =~= Seq::<(u64, usize)>::empty());
    while i < v.len()
        invariant
            i <= v@.len(),
            out@ == sort_desc(v@.subrange(0, i as int)),
        decreases v@.len() - i,
    {
        assert(v@.subrange(0, i + 1).drop_last() =~= v@.subrange(0, i as int));
        insert_sorted(&mut out, v[i]);
        i += 1;
    }
    assert(v@.subrange(0, v@.len() as int) =~= v@);
    out
}

/// Ordered by descending weight, equal weights by ascending position.
pub open spec fn weight_ordered(r: Seq<(u64, usize)>) -> bool {
    forall|i: int, j: int|
        0 <= i < j < r.len() ==> #[trigger] r[i].0 > #[trigger] r[j].0 || (r[i].0 == r[j].0 && r[i].1
            < r[j].1)
}

proof fn lemma_insert_pos_split(p: Seq<(u64, usize)>, x: (u64, usize))
    requires
        weight_ordered(p),
    ensures
        forall|k: int| 0 <= k < insert_pos(p, x) ==> #[trigger] p[k].0 >= x.0,
        forall|k: int| insert_pos(p, x) <= k < p.len() ==> #[trigger] p[k].0 < x.0,
    decreases p.len(),
{
    lemma_insert_pos_bound(p, x);
    if p.len() > 0 {
        let d = p.drop_last();
        if p.last().0 >= x.0 {
            assert forall|k: int| 0 <= k < insert_pos(p, x) implies #[trigger] p[k].0 >= x.0 by {
                if k < p.len() - 1 {
                    assert(p[k].0 >= p[p.len() - 1].0);
                }
            }
        } else {
            assert(weight_ordered(d)) by {
                assert forall|i: int, j: int| 0 <= i < j < d.len() implies #[trigger] d[i].0
                    > #[trigger] d[j].0 || (d[i].0 == d[j].0 && d[i].1 < d[j].1) by {
                    assert(d[i] == p[i] && d[j] == p[j]);
                }
            }
            lemma_insert_pos_split(d, x);
            assert forall|k: int| 0 <= k < insert_pos(p, x) implies #[trigger] p[k].0 >= x.0 by {
                assert(p[k] == d[k]);
            }
            assert forall|k: int| insert_pos(p, x) <= k < p.len() implies #[trigger] p[k].0 < x.0 by {
                if k < p.len() - 1 {
                    assert(p[k] == d[k]);
                }
            }
        }
    }
}

/// Sorting by weight orders by descending weight, and equal weights by
/// ascending position when the input's positions ascend.
pub proof fn lemma_sort_desc_ordered(s: Seq<(u64, usize)>)
    requires
        forall|i: int, j: int| 0 <= i < j < s.len() ==> #[trigger] s[i].1 < #[trigger] s[j].1,
    ensures
        weight_ordered(sort_desc(s)),
    decreases s.len(),
{
    if s.len() > 0 {
        let d = s.drop_last();
        let x = s.last();
        assert forall|i: int, j: int| 0 <= i < j < d.len() implies #[trigger] d[i].1 < #[trigger] d[j].1 by {
            assert(d[i] == s[i] && d[j] == s[j]);
        }
        lemma_sort_desc_ordered(d);
        lemma_sort_desc_from_input(d);
        let p = sort_desc(d);
        lemma_insert_pos_split(p, x);
        lemma_insert_pos_bound(p, x);
        lemma_sort_desc_len(d);
        let q = insert_pos(p, x);
        let r = sort_desc(s);
        assert(r == p.insert(q, x));
        assert forall|k: int| 0 <= k < p.len() implies #[trigger] p[k].1 < x.1 by {
            assert(d.contains(p[k]));
            let j = choose|j: int| 0 <= j < d.len() && d[j] == p[k];
            assert(s[j] == d[j]);
            assert(s[j].1 < s[s.len() - 1].1);
        }
        assert forall|i: int, j: int| 0 <= i < j < r.len() implies #[trigger] r[i].0
            > #[trigger] r[j].0 || (r[i].0 == r[j].0 && r[i].1 < r[j].1) by {
            if j < q {
                assert(r[i] == p[i] && r[j] == p[j]);
                assert(p[i].0 > p[j].0 || (p[i].0 == p[j].0 && p[i].1 < p[j].1));
            } else if j == q {
                assert(r[i] == p[i]);
                assert(p[i].1 < x.1);
            } else if i < q {
                assert(r[i] == p[i] && r[j] == p[j - 1]);
                assert(p[i].0 > p[j - 1].0 || (p[i].0 == p[j - 1].0 && p[i].1 < p[j - 1].1));
            } else if i == q {
                assert(r[j] == p[j - 1]);
            } else {
                assert(r[i] == p[i - 1] && r[j] == p[j - 1]);
                assert(p[i - 1].0 > p[j - 1].0 || (p[i - 1].0 == p[j - 1].0 && p[i - 1].1 < p[j - 1].1));
            }
        }
    }
}

/// Each entry of a sequence of weights, paired with its position.
pub open spec fn weighted(ws: Seq<u64>) -> Seq<(u64, usize)> {
    Seq::new(ws.len(), |i: int| (ws[i], i as usize))
}

/// A row of the node table.
pub struct NodeRow {
    /// Row number, from 1.
    pub row: usize,
    /// The node's id in the index.
    pub id: usize,
    pub expression_type: TagType,
    pub text: String,
    pub weight: u64,
}

/// A row of the edge table: the row numbers of the two nodes, smaller first.
#[derive(Clone, Copy, Debug, PartialEq, Eq, Structural)]
pub struct EdgeRow {
    pub node_1: usize,
    pub node_2: usize,
    pub weight: u64,
}

/// The counts of the entries of `m`, in order.
pub open spec fn entry_counts(m: NodeModel) -> Seq<u64> {
    m.entries.map_values(|e: (crate::tags::TagModel, crate::nodes::NodeSlot)| e.1.count)
}

/// The order of the node table: positions of entries by descending count.
pub open spec fn node_order(m: NodeModel) -> Seq<(u64, usize)> {
    sort_desc(weighted(entry_counts(m)))
}

proof fn lemma_sort_desc_from_input(s: Seq<(u64, usize)>)
    ensures
        sort_desc(s).len() == s.len(),
        forall|k: int| 0 <= k < sort_desc(s).len() ==> s.contains(#[trigger] sort_desc(s)[k]),
    decreases s.len(),
{
    lemma_sort_desc_len(s);
    if s.len() > 0 {
        let d = s.drop_last();
        let p = sort_desc(d);
        lemma_sort_desc_from_input(d);
        lemma_insert_pos_bound(p, s.last());
        let q = insert_pos(p, s.last());
        let r = sort_desc(s);
        assert forall|k: int| 0 <= k < r.len() implies s.contains(#[trigger] r[k]) by {
            if k < q {
                assert(r[k] == p[k]);
                assert(d.contains(p[k]));
                let j = choose|j: int| 0 <= j < d.len() && d[j] == p[k];
                assert(s[j] == d[j]);
            } else if k == q {
                assert(s[s.len() - 1] == r[k]);
            } else {
                assert(r[k] == p[k - 1]);
                assert(d.contains(p[k - 1]));
                let j = choose|j: int| 0 <= j < d.len() && d[j] == p[k - 1];
                assert(s[j] == d[j]);
            }
        }
    }
}

/// Row `k` of the node table of `m` is `r`: it is numbered `k + 1` and shows
/// the entry at position `node_order(m)[k].1`.
pub open spec fn is_node_row(m: NodeModel, k: int, r: NodeRow) -> bool {
    let i = node_order(m)[k].1 as int;
    let e = m.entries[i];
    &&& 0 <= i < m.entries.len()
    &&& r.row == k + 1
    &&& r.id == e.1.id
    &&& r.expression_type == e.0.expression_type
    &&& r.text@ == e.0.text
    &&& r.weight == e.1.count
    &&& r.weight == node_order(m)[k].0
}

/// The node table: one row per live entry, by descending count, equal counts
/// in order of first observation, numbered from 1.
pub fn node_rows(nodes: &NodeIndex) -> (r: Vec<NodeRow>)
    requires
        nodes.wf(),
    ensures
        r@.len() == nodes@.entries.len(),
        forall|k: int| 0 <= k < r@.len() ==> is_node_row(nodes@, k, #[trigger] r@[k]),
        forall|a: int, b: int|
            0 <= a < b < r@.len() ==> #[trigger] r@[a].weight >= #[trigger] r@[b].weight,
{
    let n = nodes.len();
    let mut ws: Vec<(u64, usize)> = Vec::new();
    let mut i: usize = 0;
    while i < n
        invariant
            n == nodes@.entries.len(),
            i <= n,
            ws@ == weighted(entry_counts(nodes@)).subrange(0, i as int),
        decreases n - i,
    {
        let (_, slot) = nodes.entry(i);
        ws.push((slot.count, i));
        assert(ws@ =~= weighted(entry_counts(nodes@)).subrange(0, i + 1));
        i += 1;
    }
    assert(ws@ =~= weighted(entry_counts(nodes@)));
    let order = sort_by_weight_desc(&ws);
    proof {
        lemma_sort_desc_from_input(ws@);
    }
    let mut out: Vec<NodeRow> = Vec::new();
    let mut k: usize = 0;
    while k < n
        invariant
            n == nodes@.entries.len(),
            k <= n,
            order@ == node_order(nodes@),
            order@.len() == n,
            ws@ == weighted(entry_counts(nodes@)),
            forall|j: int| 0 <= j < order@.len() ==> ws@.contains(#[trigger] order@[j]),
            out@.len() == k,
            forall|j: int| 0 <= j < k ==> is_node_row(nodes@, j, #[trigger] out@[j]),
        decreases n - k,
    {
        let pos = order[k].1;
        assert(ws@.contains(order@[k as int]));
        proof {
            let j = choose|j: int| 0 <= j < ws@.len() && ws@[j] == order@[k as int];
            assert(ws@[j].1 == j as usize);
            assert(ws@[j].0 == nodes@.entries[j].1.count);
        }
        let (tag, slot) = nodes.entry(pos);
        let ghost tm = tag@;
        let ghost before = out@;
        out.push(NodeRow {
            row: k + 1,
            id: slot.id,
            expression_type: tag.expression_type,
            text: tag.text,
            weight: slot.count,
        });
        proof {
            assert forall|j: int| 0 <= j < k + 1 implies is_node_row(nodes@, j, #[trigger] out@[j]) by {
                if j < k {
                    assert(out@[j] == before[j]);
                } else {
                    assert(tm == nodes@.entries[pos as int].0);
                }
            }
        }
        k += 1;
    }
    proof {
        lemma_sort_desc_ordered(ws@);
        assert forall|a: int, b: int| 0 <= a < b < out@.len() implies #[trigger] out@[a].weight
            >= #[trigger] out@[b].weight by {
            assert(is_node_row(nodes@, a, out@[a]));
            assert(is_node_row(nodes@, b, out@[b]));
            assert(order@[a].0 > order@[b].0 || (order@[a].0 == order@[b].0 && order@[a].1 < order@[b].1));
        }
    }
    out
}

/// The row of the last row in `ids` that carries `id`, counted from 1; 0 if none.
pub open spec fn row_for(ids: Seq<usize>, id: usize) -> nat
    decreases ids.len(),
{
    if ids.len() == 0 {
        0
    } else if ids.last() == id {
        ids.len()
    } else {
        row_for(ids.drop_last(), id)
    }
}

/// The ids that the rows of a node table carry, in order.
pub open spec fn row_ids(rows: Seq<NodeRow>) -> Seq<usize> {
    rows.map_values(|r: NodeRow| r.id)
}

/// The edge row of the pair `key` counted `w` times, when both ids have a row.
pub open spec fn edge_row_of(ids: Seq<usize>, key: (usize, usize), w: u64) -> Option<EdgeRow> {
    let a = row_for(ids, key.0);
    let b = row_for(ids, key.1);
    if a == 0 || b == 0 {
        None
    } else if a < b {
        Some(EdgeRow { node_1: a as usize, node_2: b as usize, weight: w })
    } else {
        Some(EdgeRow { node_1: b as usize, node_2: a as usize, weight: w })
    }
}

/// The edge rows of the pairs `keys`, in order, skipping pairs without rows.
pub open spec fn edge_candidates(
    ids: Seq<usize>,
    keys: Seq<(usize, usize)>,
    counts: Map<(usize, usize), u64>,
) -> Seq<EdgeRow>
    decreases keys.len(),
{
    if keys.len() == 0 {
        Seq::empty()
    } else {
        let prev = edge_candidates(ids, keys.drop_last(), counts);
        match edge_row_of(ids, keys.last(), counts[keys.last()]) {
            Some(e) => prev.push(e),
            None => prev,
        }
    }
}

pub open spec fn edge_weights(c: Seq<EdgeRow>) -> Seq<u64> {
    c.map_values(|e: EdgeRow| e.weight)
}

/// The edge table: each pair's two ids translated to node table rows, by
/// descending weight, equal weights in order of the pairs' first occurrence.
pub fn edge_rows(edges: &EdgeAggregator, rows: &Vec<NodeRow>) -> (r: Vec<EdgeRow>)
    requires
        edges.wf(),
    ensures
        ({
            let c = edge_candidates(row_ids(rows@), edges.key_order(), edges.counts());
            let order = sort_desc(weighted(edge_weights(c)));
            &&& r@.len() == c.len()
            &&& forall|k: int|
                0 <= k < r@.len() ==> 0 <= order[k].1 < c.len() && #[trigger] r@[k] == c[order[k].1 as int]
        }),
        forall|a: int, b: int|
            0 <= a < b < r@.len() ==> #[trigger] r@[a].weight >= #[trigger] r@[b].weight,
{
    let ghost ids = row_ids(rows@);
    let mut table: BTreeMap<usize, usize> = BTreeMap::new();
    let mut k: usize = 0;
    assert(ids.subrange(0, 0) =~= Seq::<usize>::empty());
    while k < rows.len()
        invariant
            k <= rows@.len(),
            ids == row_ids(rows@),
            forall|id: usize| #[trigger] table@.contains_key(id) <==> row_for(ids.subrange(0, k as int), id) != 0,
            forall|id: usize| #[trigger] table@.contains_key(id) ==> table@[id] as nat == row_for(ids.subrange(0, k as int), id),
        decreases rows@.len() - k,
    {
        assert(ids.subrange(0, k + 1).drop_last() =~= ids.subrange(0, k as int));
        table.insert(rows[k].id, k + 1);
        k += 1;
    }
    assert(ids.subrange(0, rows@.len() as int) =~= ids);
    let ghost keys = edges.key_order();
    let ghost counts = edges.counts();
    let mut cands: Vec<EdgeRow> = Vec::new();
    let mut j: usize = 0;
    let m = edges.key_count();
    assert(keys.subrange(0, 0) =~= Seq::<(usize, usize)>::empty());
    while j < m
        invariant
            m == keys.len(),
            keys == edges.key_order(),
            counts == edges.counts(),
            edges.wf(),
            j <= m,
            forall|id: usize| #[trigger] table@.contains_key(id) <==> row_for(ids, id) != 0,
            forall|id: usize| #[trigger] table@.contains_key(id) ==> table@[id] as nat == row_for(ids, id),
            cands@ == edge_candidates(ids, keys.subrange(0, j as int), counts),
        decreases m - j,
    {
        let (key, w) = edges.entry(j);
        assert(keys.subrange(0, j + 1).drop_last() =~= keys.subrange(0, j as int));
        let ra = table.get(&key.0);
        let rb = table.get(&key.1);
        match (ra, rb) {
            (Some(a), Some(b)) => {
                let a = *a;
                let b = *b;
                if a < b {
                    cands.push(EdgeRow { node_1: a, node_2: b, weight: w });
                } else {
                    cands.push(EdgeRow { node_1: b, node_2: a, weight: w });
                }
            },
            _ => {},
        }
        j += 1;
    }
    assert(keys.subrange(0, m as int) =~= keys);
    let ghost c = cands@;
    let mut ws: Vec<(u64, usize)> = Vec::new();
    let mut i: usize = 0;
    while i < cands.len()
        invariant
            i <= cands@.len(),
            ws@ == weighted(edge_weights(cands@)).subrange(0, i as int),
        decreases cands@.len() - i,
    {
        ws.push((cands[i].weight, i));
        assert(ws@ =~= weighted(edge_weights(cands@)).subrange(0, i + 1));
        i += 1;
    }
    assert(ws@ =~= weighted(edge_weights(cands@)));
    let order = sort_by_weight_desc(&ws);
    proof {
        lemma_sort_desc_from_input(ws@);
    }
    let mut out: Vec<EdgeRow> = Vec::new();
    let mut k: usize = 0;
    while k < cands.len()
        invariant
            k <= cands@.len(),
            order@ == sort_desc(weighted(edge_weights(cands@))),
            order@.len() == cands@.len(),
            ws@ == weighted(edge_weights(cands@)),
            forall|j: int| 0 <= j < order@.len() ==> ws@.contains(#[trigger] order@[j]),
            out@.len() == k,
            forall|j: int|
                0 <= j < k ==> 0 <= order@[j].1 < cands@.len() && #[trigger] out@[j] == cands@[order@[j].1 as int]
                    && out@[j].weight == order@[j].0,
        decreases cands@.len() - k,
    {
        assert(ws@.contains(order@[k as int]));
        proof {
            let j = choose|j: int| 0 <= j < ws@.len() && ws@[j] == order@[k as int];
            assert(ws@[j].1 == j as usize);
        }
        out.push(cands[order[k].1]);
        k += 1;
    }
    proof {
        lemma_sort_desc_ordered(ws@);
        assert forall|a: int, b: int| 0 <= a < b < out@.len() implies #[trigger] out@[a].weight
            >= #[trigger] out@[b].weight by {
            assert(order@[a].0 > order@[b].0 || (order@[a].0 == order@[b].0 && order@[a].1 < order@[b].1));
        }
    }
    out
}

} // verus!
