//! Second pass: co-occurrence counts of unordered pairs of node ids.

use vstd::prelude::*;
use std::collections::BTreeMap;

verus! {

broadcast use vstd::laws_cmp::group_laws_cmp, vstd::std_specs::btree::group_btree_axioms;

/// The key of the unordered pair `{a, b}`: smaller id first.
pub open spec fn pair_key(a: usize, b: usize) -> (usize, usize) {
    if a < b {
        (a, b)
    } else {
        (b, a)
    }
}

/// The counts after one co-occurrence of `a` and `b`; an id never pairs with itself.
pub open spec fn add_pair(m: Map<(usize, usize), u64>, a: usize, b: usize) -> Map<(usize, usize), u64> {
    if a == b {
        m
    } else {
        let k = pair_key(a, b);
        m.insert(k, (if m.contains_key(k) { m[k] } else { 0 } + 1) as u64)
    }
}

/// The counts after pairing `x` with each id of `prefix`.
pub open spec fn add_with(m: Map<(usize, usize), u64>, prefix: Seq<usize>, x: usize) -> Map<
    (usize, usize),
    u64,
>
    decreases prefix.len(),
{
    if prefix.len() == 0 {
        m
    } else {
        add_pair(add_with(m, prefix.drop_last(), x), prefix.last(), x)
    }
}

/// The counts after one record: every pair of positions of `ids` counts once.
pub open spec fn add_record(m: Map<(usize, usize), u64>, ids: Seq<usize>) -> Map<(usize, usize), u64>
    decreases ids.len(),
{
    if ids.len() == 0 {
        m
    } else {
        add_with(add_record(m, ids.drop_last()), ids.drop_last(), ids.last())
    }
}

/// The counts that reach `threshold`.
pub open spec fn retain_counts(m: Map<(usize, usize), u64>, threshold: u64) -> Map<(usize, usize), u64> {
    Map::new(|k: (usize, usize)| m.contains_key(k) && m[k] >= threshold, |k: (usize, usize)| m[k])
}

/// Two distinct ids observed together count under one key, whichever order
/// they come in: the pair's counter goes up by one.
pub proof fn lemma_edge_symmetric(m: Map<(usize, usize), u64>, a: usize, b: usize)
    requires
        a != b,
    ensures
        add_record(m, seq![a, b]) == add_record(m, seq![b, a]),
        add_record(m, seq![a, b]) == m.insert(
            pair_key(a, b),
            (if m.contains_key(pair_key(a, b)) { m[pair_key(a, b)] } else { 0 } + 1) as u64,
        ),
{
    assert(seq![a, b].drop_last() =~= seq![a]);
    assert(seq![b, a].drop_last() =~= seq![b]);
    assert(seq![a].drop_last() =~= Seq::<usize>::empty());
    assert(seq![b].drop_last() =~= Seq::<usize>::empty());
    assert(add_record(m, Seq::<usize>::empty()) == m);
    assert(add_with(m, Seq::<usize>::empty(), a) == m);
    assert(add_with(m, Seq::<usize>::empty(), b) == m);
    assert(add_record(m, seq![a]) == m);
    assert(add_record(m, seq![b]) == m);
    assert(add_with(m, seq![a], b) == add_pair(m, a, b));
    assert(add_with(m, seq![b], a) == add_pair(m, b, a));
}

/// Edge retention is idempotent, and a higher threshold keeps a subset of
/// the pairs that a lower one keeps, with the same counts.
pub proof fn lemma_edge_retain_monotone(m: Map<(usize, usize), u64>, t1: u64, t2: u64)
    requires
        t1 <= t2,
    ensures
        retain_counts(retain_counts(m, t2), t2) == retain_counts(m, t2),
        retain_counts(m, t2).submap_of(retain_counts(m, t1)),
{
    assert(retain_counts(retain_counts(m, t2), t2) =~= retain_counts(m, t2));
}

/// Co-occurrence counts keyed by ordered pairs of distinct ids.
pub struct EdgeAggregator {
    counts: BTreeMap<(usize, usize), u64>,
    keys: Vec<(usize, usize)>,
    total: u64,
}

impl EdgeAggregator {
    /// The count of each pair that occurred.
    pub closed spec fn counts(&self) -> Map<(usize, usize), u64> {
        self.counts@
    }

    /// How many increments were made in all.
    pub closed spec fn total(&self) -> nat {
        self.total as nat
    }

    /// The keys in order of first occurrence.
    pub closed spec fn key_order(&self) -> Seq<(usize, usize)> {
        self.keys@
    }

    pub closed spec fn wf(&self) -> bool {
        &&& self.keys@.no_duplicates()
        &&& forall|k: (usize, usize)| #[trigger]
            self.counts@.contains_key(k) <==> self.keys@.contains(k)
        &&& forall|k: (usize, usize)| #[trigger]
            self.counts@.contains_key(k) ==> self.counts@[k] <= self.total
        &&& forall|k: (usize, usize)| #[trigger] self.counts@.contains_key(k) ==> k.0 < k.1
    }

    /// An aggregator with no pair.
    pub fn new() -> (r: EdgeAggregator)
        ensures
            r.wf(),
            r.counts() == Map::<(usize, usize), u64>::empty(),
            r.total() == 0,
    {
        EdgeAggregator { counts: BTreeMap::new(), keys: Vec::new(), total: 0 }
    }

    /// How many increments were made so far.
    pub fn total_increments(&self) -> (r: u64)
        ensures
            r == self.total(),
    {
        self.total
    }

    /// The number of distinct pairs.
    pub fn len(&self) -> (r: usize)
        requires
            self.wf(),
        ensures
            r == self.counts().dom().len(),
    {
        proof {
            self.lemma_dom_is_keys();
        }
        self.keys.len()
    }

    proof fn lemma_dom_is_keys(&self)
        requires
            self.wf(),
        ensures
            self.counts@.dom() == self.keys@.to_set(),
            self.counts@.dom().len() == self.keys@.len(),
    {
        assert(self.counts@.dom() =~= self.keys@.to_set());
        self.keys@.unique_seq_to_set();
    }

    /// The key at position `i` in order of first occurrence, and its count.
    pub fn entry(&self, i: usize) -> (r: ((usize, usize), u64))
        requires
            self.wf(),
            i < self.key_order().len(),
        ensures
            r.0 == self.key_order()[i as int],
            self.counts().contains_key(r.0),
            r.1 == self.counts()[r.0],
    {
        let k = self.keys[i];
        assert(self.keys@.contains(k));
        let c = *self.counts.get(&k).unwrap();
        (k, c)
    }

    /// The count of the pair `key`, if it occurred.
    pub fn count_of(&self, key: (usize, usize)) -> (r: Option<u64>)
        ensures
            match r {
                Some(c) => self.counts().contains_key(key) && self.counts()[key] == c,
                None => !self.counts().contains_key(key),
            },
    {
        match self.counts.get(&key) {
            Some(c) => Some(*c),
            None => None,
        }
    }

    /// The number of keys, as listed in order of first occurrence.
    pub fn key_count(&self) -> (r: usize)
        ensures
            r == self.key_order().len(),
    {
        self.keys.len()
    }

    fn bump(&mut self, a: usize, b: usize)
        requires
            old(self).wf(),
            old(self).total() < u64::MAX,
            a != b,
        ensures
            final(self).wf(),
            final(self).counts() == add_pair(old(self).counts(), a, b),
            final(self).total() == old(self).total() + 1,
    {
        let k = if a < b {
            (a, b)
        } else {
            (b, a)
        };
        let (c, present): (u64, bool) = match self.counts.get(&k) {
            Some(v) => (*v, true),
            None => (0, false),
        };
        assert(c <= self.total);
        if !present {
            self.keys.push(k);
        }
        self.counts.insert(k, c + 1);
        self.total = self.total + 1;
        proof {
            assert forall|q: (usize, usize)| #[trigger]
                self.counts@.contains_key(q) <==> self.keys@.contains(q) by {
                if q != k {
                    if old(self).keys@.contains(q) {
                        let j = choose|j: int| 0 <= j < old(self).keys@.len() && old(self).keys@[j] == q;
                        assert(self.keys@[j] == q);
                    }
                } else {
                    assert(self.keys@.contains(k)) by {
                        if old(self).keys@.contains(k) {
                            let j = choose|j: int| 0 <= j < old(self).keys@.len() && old(self).keys@[j] == k;
                            assert(self.keys@[j] == k);
                        } else {
                            assert(self.keys@[self.keys@.len() - 1] == k);
                        }
                    }
                }
            }
        }
    }

    /// Counts one record: every pair of positions of `ids` holding distinct
    /// ids adds one to the count of their ordered pair.
    pub fn observe_record(&mut self, ids: &Vec<usize>)
        requires
            old(self).wf(),
            old(self).total() + ids@.len() * ids@.len() <= u64::MAX,
        ensures
            final(self).wf(),
            final(self).counts() == add_record(old(self).counts(), ids@),
            final(self).total() <= old(self).total() + ids@.len() * ids@.len(),
    {
        let ghost m0 = self.counts();
        let ghost t0 = self.total();
        let n = ids.len();
        let mut j: usize = 0;
        assert(ids@.subrange(0, 0) =~= Seq::<usize>::empty());
        while j < n
            invariant
                n == ids@.len(),
                j <= n,
                t0 + n * n <= u64::MAX,
                self.wf(),
                self.counts() == add_record(m0, ids@.subrange(0, j as int)),
                self.total() <= t0 + j * j,
            decreases n - j,
        {
            let mut i: usize = 0;
            assert(ids@.subrange(0, 0) =~= Seq::<usize>::empty());
            let ghost before = self.counts();
            while i < j
                invariant
                    n == ids@.len(),
                    i <= j < n,
                    t0 + n * n <= u64::MAX,
                    self.wf(),
                    self.counts() == add_with(before, ids@.subrange(0, i as int), ids@[j as int]),
                    self.total() <= t0 + j * j + i,
                decreases j - i,
            {
                proof {
                    assert(j * j + i < n * n) by (nonlinear_arith)
                        requires
                            i < j,
                            j < n,
                    ;
                }
                assert(ids@.subrange(0, i + 1).drop_last() =~= ids@.subrange(0, i as int));
                if ids[i] != ids[j] {
                    self.bump(ids[i], ids[j]);
                }
                i += 1;
            }
            proof {
                let pre = ids@.subrange(0, j as int);
                let next = ids@.subrange(0, j + 1);
                assert(next.drop_last() =~= pre);
                assert(self.total() <= t0 + (j + 1) * (j + 1)) by (nonlinear_arith)
                    requires
                        self.total() <= t0 + j * j + j,
                ;
            }
            j += 1;
        }
        assert(ids@.subrange(0, n as int) =~= ids@);
        proof {
            assert(self.total() <= t0 + n * n);
        }
    }

    /// Removes every pair counted fewer than `threshold` times.
    pub fn retain_min_count(&mut self, threshold: u64)
        requires
            old(self).wf(),
        ensures
            final(self).wf(),
            final(self).counts() == retain_counts(old(self).counts(), threshold),
            final(self).total() == old(self).total(),
    {
        let mut counts: BTreeMap<(usize, usize), u64> = BTreeMap::new();
        let mut keys: Vec<(usize, usize)> = Vec::new();
        let n = self.keys.len();
        let mut i: usize = 0;
        while i < n
            invariant
                self.wf(),
                self == old(self),
                n == self.keys@.len(),
                i <= n,
                keys@.no_duplicates(),
                forall|k: (usize, usize)| #[trigger] counts@.contains_key(k) <==> keys@.contains(k),
                forall|k: (usize, usize)| #[trigger] keys@.contains(k) ==> exists|j: int|
                    0 <= j < i && self.keys@[j] == k,
                counts@ == Map::new(
                    |k: (usize, usize)| self.keys@.subrange(0, i as int).contains(k)
                        && self.counts@.contains_key(k) && self.counts@[k] >= threshold,
                    |k: (usize, usize)| self.counts@[k],
                ),
            decreases n - i,
        {
            let (k, c) = self.entry(i);
            let ghost pre = self.keys@.subrange(0, i as int);
            let ghost next = self.keys@.subrange(0, i + 1);
            assert(next =~= pre.push(k));
            if c >= threshold {
                assert(!keys@.contains(k)) by {
                    if keys@.contains(k) {
                        let j = choose|j: int| 0 <= j < i && self.keys@[j] == k;
                        assert(self.keys@[j] == self.keys@[i as int]);
                    }
                }
                let ghost old_keys = keys@;
                keys.push(k);
                counts.insert(k, c);
                proof {
                    assert forall|q: (usize, usize)| #[trigger] keys@.contains(q) implies exists|j: int|
                        0 <= j < i + 1 && self.keys@[j] == q by {
                        if q != k {
                            let p = choose|p: int| 0 <= p < keys@.len() && keys@[p] == q;
                            assert(old_keys[p] == q);
                            assert(old_keys.contains(q));
                        }
                    }
                    assert forall|q: (usize, usize)| #[trigger] counts@.contains_key(q) <==> keys@.contains(q) by {
                        if q != k && old_keys.contains(q) {
                            let p = choose|p: int| 0 <= p < old_keys.len() && old_keys[p] == q;
                            assert(keys@[p] == q);
                        }
                        if q == k {
                            assert(keys@[keys@.len() - 1] == k);
                        }
                    }
                }
            }
            assert(counts@ =~= Map::new(
                |q: (usize, usize)| next.contains(q) && self.counts@.contains_key(q)
                    && self.counts@[q] >= threshold,
                |q: (usize, usize)| self.counts@[q],
            )) by {
                assert forall|q: (usize, usize)| next.contains(q) <==> (pre.contains(q) || q == k) by {
                    if next.contains(q) && q != k {
                        let p = choose|p: int| 0 <= p < next.len() && next[p] == q;
                        assert(pre[p] == q);
                    }
                    if pre.contains(q) {
                        let p = choose|p: int| 0 <= p < pre.len() && pre[p] == q;
                        assert(next[p] == q);
                    }
                    if q == k {
                        assert(next[i as int] == k);
                    }
                }
            }
            i += 1;
        }
        assert(self.keys@.subrange(0, n as int) =~= self.keys@);
        assert(counts@ =~= retain_counts(self.counts@, threshold));
        self.counts = counts;
        self.keys = keys;
    }
}

} // verus!
