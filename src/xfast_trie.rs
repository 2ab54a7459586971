//! An x-fast trie over fixed-width `u32` keys.
use std::collections::HashMap;
use vstd::prelude::*;
use vstd::arithmetic::power2::{lemma2_to64, pow2};
use vstd::bits::lemma_u32_shr_is_div;
use crate::node::XFastNode;
use crate::prefix::{
    lemma_prefix_full,
    lemma_prefix_order,
    lemma_prefix_parent,
    lemma_prefix_shorter,
    lemma_prefix_top_bit,
    lemma_shr_prefix,
    pfx,
};

verus! {

broadcast use vstd::std_specs::hash::group_hash_axioms;

/// Key width used by [`XFastTrie::new`].
pub const DEFAULT_WIDTH: u32 = 31;

/// Why an insertion was refused.
#[derive(Debug, Clone, Copy, PartialEq, Eq)]
pub enum TrieError {
    /// The key does not fit in the trie's key width.
    KeyTooWide,
}

/// `s` is the largest key of `keys` below `q`.
pub open spec fn is_pred(keys: Set<u32>, q: int, s: u32) -> bool {
    &&& keys.contains(s)
    &&& s < q
    &&& forall|t: u32| #[trigger] keys.contains(t) && t < q ==> t <= s
}

/// `s` is the smallest key of `keys` above `q`.
pub open spec fn is_succ(keys: Set<u32>, q: int, s: u32) -> bool {
    &&& keys.contains(s)
    &&& s > q
    &&& forall|t: u32| #[trigger] keys.contains(t) && t > q ==> s <= t
}

/// No key of `keys` lies below `q`.
pub open spec fn none_below(keys: Set<u32>, q: int) -> bool {
    forall|t: u32| #[trigger] keys.contains(t) ==> q <= t
}

/// No key of `keys` lies above `q`.
pub open spec fn none_above(keys: Set<u32>, q: int) -> bool {
    forall|t: u32| #[trigger] keys.contains(t) ==> t <= q
}

/// `m` is the least key of `keys`.
pub open spec fn is_min(keys: Set<u32>, m: u32) -> bool {
    keys.contains(m) && none_below(keys, m as int)
}

/// `m` is the greatest key of `keys`.
pub open spec fn is_max(keys: Set<u32>, m: u32) -> bool {
    keys.contains(m) && none_above(keys, m as int)
}

/// The predecessor of `q` in `keys`, stated as a relation on the result.
pub open spec fn pred_result(keys: Set<u32>, q: int, r: Option<u32>) -> bool {
    match r {
        None => none_below(keys, q),
        Some(s) => is_pred(keys, q, s),
    }
}

/// Adding `k` changes the predecessor of a key only for the successor of `k`.
pub proof fn lemma_pred_after_insert(keys: Set<u32>, k: u32, q: u32)
    requires
        !keys.contains(k),
        keys.contains(q),
    ensures
        forall|x: u32| is_pred(keys, q as int, x) && !is_succ(keys, k as int, q) ==> is_pred(
            keys.insert(k),
            q as int,
            x,
        ),
        none_below(keys, q as int) && !is_succ(keys, k as int, q) ==> none_below(
            keys.insert(k),
            q as int,
        ),
        is_succ(keys, k as int, q) ==> is_pred(keys.insert(k), q as int, k),
{
    let ks = keys.insert(k);
    assert forall|x: u32| is_pred(keys, q as int, x) && !is_succ(keys, k as int, q) implies is_pred(
        ks,
        q as int,
        x,
    ) by {
        if x < k && k < q {
            assert forall|t: u32| #[trigger] keys.contains(t) && t > k implies q <= t by {
                if t < q {
                    assert(t <= x);
                }
            }
        }
    }
    if none_below(keys, q as int) && !is_succ(keys, k as int, q) {
        if k < q {
            assert forall|t: u32| #[trigger] keys.contains(t) && t > k implies q <= t by {}
        }
    }
    if is_succ(keys, k as int, q) {
        assert forall|t: u32| #[trigger] ks.contains(t) && t < q implies t <= k by {
            if t != k && t > k {
                assert(q <= t);
            }
        }
    }
}

/// Adding `k` changes the successor of a key only for the predecessor of `k`.
pub proof fn lemma_succ_after_insert(keys: Set<u32>, k: u32, q: u32)
    requires
        !keys.contains(k),
        keys.contains(q),
    ensures
        forall|x: u32| is_succ(keys, q as int, x) && !is_pred(keys, k as int, q) ==> is_succ(
            keys.insert(k),
            q as int,
            x,
        ),
        none_above(keys, q as int) && !is_pred(keys, k as int, q) ==> none_above(
            keys.insert(k),
            q as int,
        ),
        is_pred(keys, k as int, q) ==> is_succ(keys.insert(k), q as int, k),
{
    let ks = keys.insert(k);
    assert forall|x: u32| is_succ(keys, q as int, x) && !is_pred(keys, k as int, q) implies is_succ(
        ks,
        q as int,
        x,
    ) by {
        if q < k && k < x {
            assert forall|t: u32| #[trigger] keys.contains(t) && t < k implies t <= q by {
                if t > q {
                    assert(x <= t);
                }
            }
        }
    }
    if none_above(keys, q as int) && !is_pred(keys, k as int, q) {
        if q < k {
            assert forall|t: u32| #[trigger] keys.contains(t) && t < k implies t <= q by {}
        }
    }
    if is_pred(keys, k as int, q) {
        assert forall|t: u32| #[trigger] ks.contains(t) && t > q implies k <= t by {
            if t != k && t < k {
                assert(t <= q);
            }
        }
    }
}

/// An ordered index over `u32` keys of a fixed bit width `W`.
///
/// Every inserted key owns a leaf in `nodes`. For each depth `L` in `1..=W`,
/// `hashmaps[L - 1]` maps each `L`-bit prefix of an inserted key to the node
/// standing for it; at depth `W` that node is the key's leaf. The leaves are
/// linked in ascending key order, and `min_leaf` / `max_leaf` are its ends.
pub struct XFastTrie<V> {
    width: u32,
    max_leaf: Option<usize>,
    min_leaf: Option<usize>,
    nodes: Vec<XFastNode<V>>,
    hashmaps: Vec<HashMap<u32, usize>>,
    /// For each node, the depth and prefix it stands for.
    tags: Ghost<Seq<(nat, int)>>,
}

impl<V> XFastTrie<V> {
    /// The key width `W`.
    pub closed spec fn w(&self) -> nat {
        self.width as nat
    }

    /// The set of inserted keys.
    pub closed spec fn keys(&self) -> Set<u32> {
        self.hashmaps@[self.w() - 1]@.dom()
    }

    /// The prefix `p` of depth `l` is registered.
    pub closed spec fn has(&self, l: nat, p: int) -> bool {
        &&& 0 <= p <= u32::MAX
        &&& self.hashmaps@[l - 1]@.contains_key(p as u32)
    }

    /// The node registered for prefix `p` at depth `l`.
    pub closed spec fn at(&self, l: nat, p: int) -> usize {
        self.hashmaps@[l - 1]@[p as u32]
    }

    /// The leaf index of key `k`.
    pub closed spec fn leaf(&self, k: u32) -> usize {
        self.hashmaps@[self.w() - 1]@[k]
    }

    /// Node `j` is the leaf of key `k`.
    pub closed spec fn is_leaf_of(&self, j: usize, k: u32) -> bool {
        &&& j < self.nodes@.len()
        &&& self.nodes@[j as int].key == Some(k)
        &&& self.keys().contains(k)
        &&& self.leaf(k) == j
    }

    /// The key held by node `j`.
    pub closed spec fn key_of(&self, j: usize) -> u32 {
        self.nodes@[j as int].key.unwrap()
    }

    /// `link` refers to the leaf of the predecessor of `q`, or is empty if there is none.
    pub closed spec fn links_pred(&self, link: Option<usize>, q: int) -> bool {
        match link {
            None => none_below(self.keys(), q),
            Some(j) => self.is_leaf_of(j, self.key_of(j)) && is_pred(self.keys(), q, self.key_of(j)),
        }
    }

    /// `link` refers to the leaf of the successor of `q`, or is empty if there is none.
    pub closed spec fn links_succ(&self, link: Option<usize>, q: int) -> bool {
        match link {
            None => none_above(self.keys(), q),
            Some(j) => self.is_leaf_of(j, self.key_of(j)) && is_succ(self.keys(), q, self.key_of(j)),
        }
    }

    /// The leaf of `k` is in place and linked to its neighbours.
    pub closed spec fn leaf_ok(&self, k: u32) -> bool {
        let i = self.leaf(k);
        &&& i < self.nodes@.len()
        &&& self.tags@[i as int] == (self.w(), k as int)
        &&& self.nodes@[i as int].key == Some(k)
        &&& self.nodes@[i as int].value is Some
        &&& self.links_pred(self.nodes@[i as int].left, k as int)
        &&& self.links_succ(self.nodes@[i as int].right, k as int)
    }

    /// A slot of the node for prefix `p` at depth `l`: the child on that side
    /// if there is one, else the leaf of the nearest key of the subtree.
    pub closed spec fn slot_ok(&self, l: nat, p: int, slot: Option<usize>, right: bool) -> bool {
        let c = if right { 2 * p + 1 } else { 2 * p };
        if self.has(l + 1, c) {
            slot == Some(self.at(l + 1, c))
        } else {
            match slot {
                None => false,
                Some(j) => {
                    let m = self.key_of(j);
                    &&& self.is_leaf_of(j, m)
                    &&& pfx(m as int, self.w(), l) == p
                    &&& right ==> forall|t: u32| #[trigger] self.keys().contains(t)
                        && pfx(t as int, self.w(), l) == p ==> t <= m
                    &&& !right ==> forall|t: u32| #[trigger] self.keys().contains(t)
                        && pfx(t as int, self.w(), l) == p ==> m <= t
                },
            }
        }
    }

    /// The internal node for prefix `p` at depth `l` is in place.
    pub closed spec fn node_ok(&self, l: nat, p: int) -> bool {
        let n = self.at(l, p);
        &&& n < self.nodes@.len()
        &&& self.tags@[n as int] == (l, p)
        &&& self.nodes@[n as int].key is None
        &&& self.slot_ok(l, p, self.nodes@[n as int].left, false)
        &&& self.slot_ok(l, p, self.nodes@[n as int].right, true)
    }

    /// Depth `l` registers exactly the `l`-bit prefixes of the keys, each
    /// with a node in place.
    pub closed spec fn level_ok(&self, l: nat) -> bool {
        &&& forall|k: u32| #[trigger] self.keys().contains(k) ==> self.has(
            l,
            pfx(k as int, self.w(), l),
        )
        &&& forall|p: int| #[trigger] self.has(l, p) ==> self.covered(l, p)
        &&& forall|p: int| #[trigger] self.has(l, p) ==> self.node_ok(l, p)
    }

    /// Prefix `p` of depth `l` is the prefix of some key.
    #[verifier::opaque]
    pub closed spec fn covered(&self, l: nat, p: int) -> bool {
        exists|k: u32| #[trigger] self.keys().contains(k) && pfx(k as int, self.w(), l) == p
    }

    /// The cached end `link` is the leaf of the least (or greatest) key.
    pub closed spec fn end_ok(&self, link: Option<usize>, greatest: bool) -> bool {
        match link {
            None => self.keys() =~= Set::empty(),
            Some(j) => {
                &&& self.is_leaf_of(j, self.key_of(j))
                &&& greatest ==> is_max(self.keys(), self.key_of(j))
                &&& !greatest ==> is_min(self.keys(), self.key_of(j))
            },
        }
    }

    /// The trie is well formed: every depth, every leaf and both ends are in place.
    pub closed spec fn wf(&self) -> bool {
        &&& 2 <= self.width <= 32
        &&& self.hashmaps@.len() == self.width
        &&& self.tags@.len() == self.nodes@.len()
        &&& forall|k: u32| #[trigger] self.keys().contains(k) ==> (k as int) < pow2(self.w())
        &&& forall|k: u32| #[trigger] self.keys().contains(k) ==> self.leaf_ok(k)
        &&& forall|l: nat| 1 <= l < self.w() ==> #[trigger] self.level_ok(l)
        &&& self.end_ok(self.min_leaf, false)
        &&& self.end_ok(self.max_leaf, true)
    }

    /// The stored values, by key.
    pub closed spec fn view(&self) -> Map<u32, V> {
        Map::new(
            |k: u32| self.keys().contains(k),
            |k: u32| self.nodes@[self.leaf(k) as int].value.unwrap(),
        )
    }

    /// An empty trie over keys of [`DEFAULT_WIDTH`] bits.
    pub fn new() -> (r: Self)
        ensures
            r.wf(),
            r.w() == DEFAULT_WIDTH,
            r@ == Map::<u32, V>::empty(),
    {
        Self::with_width(DEFAULT_WIDTH)
    }

    /// An empty trie over keys of `width` bits.
    pub fn with_width(width: u32) -> (r: Self)
        requires
            2 <= width <= 32,
        ensures
            r.wf(),
            r.w() == width,
            r@ == Map::<u32, V>::empty(),
    {
        let mut hashmaps: Vec<HashMap<u32, usize>> = Vec::new();
        let mut i: u32 = 0;
        while i < width
            invariant
                i <= width,
                hashmaps@.len() == i,
                forall|j: int| 0 <= j < i ==> #[trigger] hashmaps@[j]@ == Map::<u32, usize>::empty(),
            decreases width - i,
        {
            hashmaps.push(HashMap::new());
            i = i + 1;
        }
        let r = XFastTrie {
            width,
            max_leaf: None,
            min_leaf: None,
            nodes: Vec::new(),
            hashmaps,
            tags: Ghost(Seq::empty()),
        };
        assert(r.keys() =~= Set::empty());
        assert(r@ =~= Map::<u32, V>::empty());
        assert forall|l: nat| 1 <= l < r.w() implies #[trigger] r.level_ok(l) by {
            assert(r.hashmaps@[l - 1]@ == Map::<u32, usize>::empty());
        }
        r
    }

    /// The value stored under `key`, if any.
    pub fn get(&self, key: &u32) -> (r: Option<V>)
        where V: Clone,
        requires
            self.wf(),
        ensures
            r is None <==> !self@.contains_key(*key),
            r is Some ==> cloned(self@[*key], r.unwrap()),
    {
        let top = (self.width - 1) as usize;
        match self.hashmaps[top].get(key) {
            None => None,
            Some(i) => {
                proof {
                    assert(self.leaf_ok(*key));
                }
                match &self.nodes[*i].value {
                    Some(v) => Some(v.clone()),
                    None => None,
                }
            },
        }
    }

    /// What holds part way through inserting `k` into `o`: the leaf of `k` is
    /// linked in, and depths above `l` are done; depths up to `l` and their
    /// nodes are as they were in `o`.
    #[verifier::opaque]
    pub closed spec fn insert_frame(&self, o: Self, k: u32, l: nat) -> bool {
        let w = self.w();
        &&& o.wf()
        &&& self.width == o.width
        &&& self.hashmaps@.len() == o.hashmaps@.len()
        &&& self.tags@.len() == self.nodes@.len()
        &&& o.nodes@.len() <= self.nodes@.len()
        &&& l < w
        &&& w >= 2
        &&& !o.keys().contains(k)
        &&& self.keys() == o.keys().insert(k)
        &&& forall|i: int| 0 <= i < o.nodes@.len() ==> #[trigger] self.tags@[i] == o.tags@[i]
        &&& forall|i: int| 0 <= i < o.nodes@.len() ==> #[trigger] self.nodes@[i].key == o.nodes@[i].key
        &&& forall|i: int| 0 <= i < o.nodes@.len() && (#[trigger] self.tags@[i]).0 <= l
            ==> self.nodes@[i] == o.nodes@[i]
        &&& forall|m: nat| 1 <= m <= l ==> #[trigger] self.hashmaps@[m - 1] == o.hashmaps@[m - 1]
        &&& forall|m: nat, p: int| l < m <= w && p != pfx(k as int, w, m) ==> (#[trigger] self.has(m, p)
            == o.has(m, p) && (o.has(m, p) ==> self.at(m, p) == o.at(m, p)))
        &&& forall|m: nat| l < m <= w ==> #[trigger] self.has(m, pfx(k as int, w, m))
        &&& forall|m: nat| l < m < w ==> #[trigger] self.level_ok(m)
        &&& forall|j: u32| #[trigger] self.keys().contains(j) ==> (j as int) < pow2(w)
        &&& forall|j: u32| #[trigger] self.keys().contains(j) ==> self.leaf_ok(j)
        &&& self.end_ok(self.min_leaf, false)
        &&& self.end_ok(self.max_leaf, true)
    }

    /// `self` is `o` with a leaf for `key` at index `leaf`, spliced between
    /// the leaves `pred` and `succ`.
    pub closed spec fn spliced(
        &self,
        o: Self,
        key: u32,
        leaf: usize,
        pred: Option<usize>,
        succ: Option<usize>,
    ) -> bool {
        let w = o.w();
        &&& o.wf()
        &&& w >= 2
        &&& !o.keys().contains(key)
        &&& (key as int) < pow2(w)
        &&& o.links_pred(pred, key as int)
        &&& o.links_succ(succ, key as int)
        &&& self.width == o.width
        &&& self.hashmaps@.len() == o.hashmaps@.len()
        &&& self.hashmaps@[w - 1]@ == o.hashmaps@[w - 1]@.insert(key, leaf)
        &&& forall|m: int| 0 <= m < w - 1 ==> #[trigger] self.hashmaps@[m] == o.hashmaps@[m]
        &&& leaf == o.nodes@.len()
        &&& self.nodes@.len() == leaf + 1
        &&& self.tags@ == o.tags@.push((w, key as int))
        &&& self.nodes@[leaf as int].key == Some(key)
        &&& self.nodes@[leaf as int].value is Some
        &&& self.nodes@[leaf as int].left == pred
        &&& self.nodes@[leaf as int].right == succ
        &&& forall|i: int| 0 <= i < leaf ==> {
            &&& (#[trigger] self.nodes@[i]).key == o.nodes@[i].key
            &&& self.nodes@[i].value == o.nodes@[i].value
            &&& self.nodes@[i].left == (if succ == Some(i as usize) { Some(leaf) } else { o.nodes@[i].left })
            &&& self.nodes@[i].right == (if pred == Some(i as usize) { Some(leaf) } else { o.nodes@[i].right })
        }
        &&& self.min_leaf == (if o.min_leaf is None || key < o.key_of(o.min_leaf.unwrap()) {
            Some(leaf)
        } else {
            o.min_leaf
        })
        &&& self.max_leaf == (if o.max_leaf is None || key > o.key_of(o.max_leaf.unwrap()) {
            Some(leaf)
        } else {
            o.max_leaf
        })
    }

    /// An old key keeps its leaf through the splice.
    proof fn lemma_spliced_is_leaf(&self, o: Self, key: u32, leaf: usize, pred: Option<usize>, succ: Option<usize>, j: u32)
        requires
            self.spliced(o, key, leaf, pred, succ),
            o.keys().contains(j),
        ensures
            self.is_leaf_of(o.leaf(j), j),
            self.key_of(o.leaf(j)) == j,
            self.leaf(j) == o.leaf(j),
    {
        assert(o.leaf_ok(j));
        assert(self.keys() =~= o.keys().insert(key));
    }

    /// Every leaf is linked to its neighbours after the splice.
    proof fn lemma_spliced_leaf_ok(&self, o: Self, key: u32, leaf: usize, pred: Option<usize>, succ: Option<usize>, j: u32)
        requires
            self.spliced(o, key, leaf, pred, succ),
            self.keys().contains(j),
        ensures
            self.leaf_ok(j),
    {
        let w = o.w();
        let kk = o.keys();
        let ks = kk.insert(key);
        assert(self.keys() =~= ks);
        if j == key {
            if let Some(pj) = pred {
                self.lemma_spliced_is_leaf(o, key, leaf, pred, succ, o.key_of(pj));
            }
            if let Some(sj) = succ {
                self.lemma_spliced_is_leaf(o, key, leaf, pred, succ, o.key_of(sj));
            }
        } else {
            assert(o.leaf_ok(j));
            lemma_pred_after_insert(kk, key, j);
            lemma_succ_after_insert(kk, key, j);
            let i = o.leaf(j);
            let ol = o.nodes@[i as int].left;
            let or = o.nodes@[i as int].right;
            if let Some(x) = ol {
                self.lemma_spliced_is_leaf(o, key, leaf, pred, succ, o.key_of(x));
            }
            if let Some(x) = or {
                self.lemma_spliced_is_leaf(o, key, leaf, pred, succ, o.key_of(x));
            }
            if succ == Some(i) {
                assert(is_succ(kk, key as int, j));
            } else if is_succ(kk, key as int, j) {
                assert(o.leaf(o.key_of(succ.unwrap())) == succ.unwrap());
            }
            if pred == Some(i) {
                assert(is_pred(kk, key as int, j));
            } else if is_pred(kk, key as int, j) {
                assert(o.leaf(o.key_of(pred.unwrap())) == pred.unwrap());
            }
        }
    }

    /// The cached ends are the least and greatest keys after the splice.
    proof fn lemma_spliced_ends(&self, o: Self, key: u32, leaf: usize, pred: Option<usize>, succ: Option<usize>)
        requires
            self.spliced(o, key, leaf, pred, succ),
        ensures
            self.end_ok(self.min_leaf, false),
            self.end_ok(self.max_leaf, true),
    {
        let ks = o.keys().insert(key);
        assert(self.keys() =~= ks);
        if let Some(m) = o.min_leaf {
            self.lemma_spliced_is_leaf(o, key, leaf, pred, succ, o.key_of(m));
        }
        if let Some(m) = o.max_leaf {
            self.lemma_spliced_is_leaf(o, key, leaf, pred, succ, o.key_of(m));
        }
        if o.min_leaf is None {
            assert(ks =~= set![key]);
        }
    }

    /// After the splice, the insertion is done at the depth of the leaves.
    #[verifier::rlimit(50)]
    proof fn lemma_spliced_frame(&self, o: Self, key: u32, leaf: usize, pred: Option<usize>, succ: Option<usize>)
        requires
            self.spliced(o, key, leaf, pred, succ),
        ensures
            self.insert_frame(o, key, (o.w() - 1) as nat),
            self.leaf(key) == leaf,
    {
        reveal(XFastTrie::insert_frame);
        let w = o.w();
        let ks = o.keys().insert(key);
        assert(self.keys() =~= ks);
        lemma_prefix_full(key as int, w);
        assert forall|j: u32| #[trigger] self.keys().contains(j) implies self.leaf_ok(j) by {
            self.lemma_spliced_leaf_ok(o, key, leaf, pred, succ, j);
        }
        self.lemma_spliced_ends(o, key, leaf, pred, succ);
        assert forall|i: int| 0 <= i < o.nodes@.len() && (#[trigger] self.tags@[i]).0 <= w - 1
            implies self.nodes@[i] == o.nodes@[i] by {
            if pred == Some(i as usize) {
                assert(o.leaf_ok(o.key_of(i as usize)));
            }
            if succ == Some(i as usize) {
                assert(o.leaf_ok(o.key_of(i as usize)));
            }
        }
        assert forall|m: nat| 1 <= m <= w - 1 implies #[trigger] self.hashmaps@[m - 1]
            == o.hashmaps@[m - 1] by {
            assert(self.hashmaps@[(m - 1) as int] == o.hashmaps@[(m - 1) as int]);
        }
        assert forall|m: nat, p: int| w - 1 < m <= w && p != pfx(key as int, w, m)
            implies (#[trigger] self.has(m, p) == o.has(m, p) && (o.has(m, p) ==> self.at(m, p) == o.at(
            m,
            p,
        ))) by {
            assert(m == w);
        }
        assert forall|m: nat| w - 1 < m <= w implies #[trigger] self.has(m, pfx(key as int, w, m)) by {
            assert(m == w);
        }
        assert forall|j: u32| #[trigger] self.keys().contains(j) implies (j as int) < pow2(w) by {}
        assert forall|i: int| 0 <= i < o.nodes@.len() implies #[trigger] self.tags@[i] == o.tags@[i] by {}
        assert forall|i: int| 0 <= i < o.nodes@.len() implies #[trigger] self.nodes@[i].key == o.nodes@[i].key by {}
    }

    /// Splices a new leaf for `key` between the leaves `pred` and `succ`.
    fn link_leaf(&mut self, key: u32, value: V, pred: Option<usize>, succ: Option<usize>) -> (leaf: usize)
        requires
            old(self).wf(),
            old(self).w() >= 2,
            !old(self).keys().contains(key),
            (key as int) < pow2(old(self).w()),
            old(self).links_pred(pred, key as int),
            old(self).links_succ(succ, key as int),
        ensures
            final(self).insert_frame(*old(self), key, (old(self).w() - 1) as nat),
            final(self).leaf(key) == leaf,
            final(self).nodes@[leaf as int].value == Some(value),
            final(self).width == old(self).width,
            leaf == old(self).nodes@.len(),
            final(self).nodes@.len() == leaf + 1,
            old(self).nodes@.len() <= final(self).nodes@.len(),
            forall|i: int| 0 <= i < old(self).nodes@.len() ==> #[trigger] final(self).nodes@[i].value
                == old(self).nodes@[i].value,
    {
        let ghost o = *self;
        let leaf = self.nodes.len();
        let mut nd = XFastNode::new_leaf(key, value);
        nd.left = pred;
        nd.right = succ;
        self.nodes.push(nd);
        self.tags = Ghost(self.tags@.push((o.w(), key as int)));
        if let Some(j) = pred {
            self.nodes[j].set_right(leaf);
        }
        if let Some(j) = succ {
            self.nodes[j].set_left(leaf);
        }
        let top = (self.width - 1) as usize;
        self.hashmaps[top].insert(key, leaf);
        match self.min_leaf {
            None => {
                self.min_leaf = Some(leaf);
            },
            Some(m) => {
                if key < self.nodes[m].key.unwrap() {
                    self.min_leaf = Some(leaf);
                }
            },
        }
        match self.max_leaf {
            None => {
                self.max_leaf = Some(leaf);
            },
            Some(m) => {
                if key > self.nodes[m].key.unwrap() {
                    self.max_leaf = Some(leaf);
                }
            },
        }
        proof {
            assert(self.spliced(o, key, leaf, pred, succ));
            self.lemma_spliced_frame(o, key, leaf, pred, succ);
        }
        leaf
    }

    /// `self` is `s1` with only node `x`, which stands at depth `l` or is new,
    /// and the map of depth `l` changed.
    pub closed spec fn step_rel(&self, s1: Self, l: nat, x: usize) -> bool {
        &&& self.width == s1.width
        &&& self.hashmaps@.len() == s1.hashmaps@.len()
        &&& s1.hashmaps@.len() == s1.width
        &&& 1 <= l < s1.w()
        &&& forall|i: int| 0 <= i < self.hashmaps@.len() && i != l - 1 ==> #[trigger] self.hashmaps@[i]
            == s1.hashmaps@[i]
        &&& s1.nodes@.len() <= self.nodes@.len() <= s1.nodes@.len() + 1
        &&& self.tags@.len() == self.nodes@.len()
        &&& forall|i: int| 0 <= i < s1.nodes@.len() ==> #[trigger] self.tags@[i] == s1.tags@[i]
        &&& x < self.nodes@.len()
        &&& self.tags@[x as int].0 == l
        &&& self.nodes@[x as int].key is None
        &&& self.nodes@.len() > s1.nodes@.len() ==> x == s1.nodes@.len()
        &&& forall|i: int| 0 <= i < s1.nodes@.len() && i != x ==> #[trigger] self.nodes@[i] == s1.nodes@[i]
        &&& x < s1.nodes@.len() ==> s1.nodes@[x as int].key is None
        &&& self.min_leaf == s1.min_leaf
        &&& self.max_leaf == s1.max_leaf
    }

    /// A step that changes one node of depth `l` keeps the leaves, the ends
    /// and the deeper depths in place.
    #[verifier::rlimit(50)]
    proof fn lemma_step_keeps(&self, s1: Self, l: nat, x: usize)
        requires
            self.step_rel(s1, l, x),
            s1.tags@.len() == s1.nodes@.len(),
            forall|j: u32| #[trigger] s1.keys().contains(j) ==> s1.leaf_ok(j),
            forall|m: nat| l < m < s1.w() ==> #[trigger] s1.level_ok(m),
            s1.end_ok(s1.min_leaf, false),
            s1.end_ok(s1.max_leaf, true),
        ensures
            self.keys() == s1.keys(),
            forall|j: u32| #[trigger] self.keys().contains(j) ==> self.leaf_ok(j),
            forall|m: nat| l < m < self.w() ==> #[trigger] self.level_ok(m),
            self.end_ok(self.min_leaf, false),
            self.end_ok(self.max_leaf, true),
    {
        let w = s1.w();
        assert(self.hashmaps@[w - 1] == s1.hashmaps@[w - 1]);
        assert(self.keys() == s1.keys());
        assert forall|j: usize, k: u32| s1.is_leaf_of(j, k) implies #[trigger] self.is_leaf_of(j, k) by {
            assert(self.nodes@[j as int] == s1.nodes@[j as int]);
        }
        assert forall|j: u32| #[trigger] self.keys().contains(j) implies self.leaf_ok(j) by {
            assert(s1.leaf_ok(j));
            let i = s1.leaf(j);
            assert(self.nodes@[i as int] == s1.nodes@[i as int]);
            let lk = s1.nodes@[i as int].left;
            let rk = s1.nodes@[i as int].right;
            if let Some(y) = lk {
                assert(self.nodes@[y as int] == s1.nodes@[y as int]);
            }
            if let Some(y) = rk {
                assert(self.nodes@[y as int] == s1.nodes@[y as int]);
            }
        }
        assert forall|m: nat| l < m < self.w() implies #[trigger] self.level_ok(m) by {
            assert(s1.level_ok(m));
            assert(self.hashmaps@[m - 1] == s1.hashmaps@[m - 1]);
            assert(self.hashmaps@[m as int] == s1.hashmaps@[m as int]);
            assert forall|p: int| #[trigger] self.has(m, p) implies self.node_ok(m, p) by {
                assert(s1.has(m, p));
                assert(s1.node_ok(m, p));
                let n = s1.at(m, p);
                assert(self.nodes@[n as int] == s1.nodes@[n as int]);
                let lk = s1.nodes@[n as int].left;
                let rk = s1.nodes@[n as int].right;
                if let Some(y) = lk {
                    if y < s1.nodes@.len() {
                        assert(self.nodes@[y as int].key == s1.nodes@[y as int].key);
                    }
                }
                if let Some(y) = rk {
                    if y < s1.nodes@.len() {
                        assert(self.nodes@[y as int].key == s1.nodes@[y as int].key);
                    }
                }
            }
            assert forall|p: int| #[trigger] self.has(m, p) implies self.covered(m, p) by {
                assert(s1.has(m, p));
                assert(s1.covered(m, p));
                reveal(XFastTrie::covered);
            }
            assert forall|k: u32| #[trigger] self.keys().contains(k) implies self.has(
                m,
                pfx(k as int, self.w(), m),
            ) by {
                assert(s1.keys().contains(k));
            }
        }
    }

    /// Nodes of depth `l` off the path of `key` are untouched by its insertion.
    #[verifier::rlimit(50)]
    proof fn lemma_step_other_node(&self, s1: Self, o: Self, key: u32, l: nat, x: usize, p: int)
        requires
            s1.insert_frame(o, key, l),
            self.step_rel(s1, l, x),
            1 <= l,
            self.tags@[x as int] == (l, pfx(key as int, o.w(), l)),
            self.hashmaps@[l - 1]@ == s1.hashmaps@[l - 1]@.insert(pfx(key as int, o.w(), l) as u32, x),
            self.has(l, p),
            p != pfx(key as int, o.w(), l),
        ensures
            self.node_ok(l, p),
    {
        reveal(XFastTrie::insert_frame);
        let w = o.w();
        let pk = pfx(key as int, w, l);
        lemma_shr_prefix(key, o.width, l as u32);
        lemma_prefix_parent(key as int, w, l);
        lemma_prefix_full(key as int, w);
        assert(s1.hashmaps@[l - 1] == o.hashmaps@[l - 1]);
        assert(o.has(l, p));
        assert(o.level_ok(l));
        assert(o.node_ok(l, p));
        let n = o.at(l, p);
        assert(self.at(l, p) == n);
        assert(s1.tags@[n as int] == o.tags@[n as int]);
        assert(s1.nodes@[n as int] == o.nodes@[n as int]);
        assert(self.nodes@[n as int] == s1.nodes@[n as int]);
        assert(self.hashmaps@[l as int] == s1.hashmaps@[l as int]);
        assert(self.hashmaps@[w - 1] == s1.hashmaps@[w - 1]);
        assert(self.keys() == o.keys().insert(key));
        assert(s1.has(l + 1, 2 * p) == o.has(l + 1, 2 * p));
        assert(s1.has(l + 1, 2 * p + 1) == o.has(l + 1, 2 * p + 1));
        let nd = o.nodes@[n as int];
        if let Some(j) = nd.left {
            if !o.has(l + 1, 2 * p) {
                let m = o.key_of(j);
                assert(s1.nodes@[j as int].key == o.nodes@[j as int].key);
                assert(s1.has(w, m as int) == o.has(w, m as int));
            }
        }
        if let Some(j) = nd.right {
            if !o.has(l + 1, 2 * p + 1) {
                let m = o.key_of(j);
                assert(s1.nodes@[j as int].key == o.nodes@[j as int].key);
                assert(s1.has(w, m as int) == o.has(w, m as int));
            }
        }
    }

    /// A node whose subtree holds `key` alone, with its slot toward `key` at
    /// the child and its other slot at the leaf of `key`, is in place.
    proof fn lemma_fresh_node_ok(&self, key: u32, l: nat, x: usize, leaf: usize)
        requires
            1 <= l < self.w(),
            ({
                let pk = pfx(key as int, self.w(), l);
                let c = pfx(key as int, self.w(), l + 1);
                let b = c == 2 * pk + 1;
                let oc = if b { 2 * pk } else { 2 * pk + 1 };
                let nd = self.nodes@[x as int];
                &&& c == 2 * pk || c == 2 * pk + 1
                &&& self.at(l, pk) == x
                &&& x < self.nodes@.len()
                &&& self.tags@[x as int] == (l, pk)
                &&& nd.key is None
                &&& self.has(l + 1, c)
                &&& !self.has(l + 1, oc)
                &&& (if b { nd.right } else { nd.left }) == Some(self.at(l + 1, c))
                &&& (if b { nd.left } else { nd.right }) == Some(leaf)
                &&& self.is_leaf_of(leaf, key)
                &&& forall|t: u32| #[trigger] self.keys().contains(t) && pfx(t as int, self.w(), l) == pk
                    ==> t == key
            }),
        ensures
            self.node_ok(l, pfx(key as int, self.w(), l)),
    {
    }

    /// An unregistered prefix has no key below it, and no child registered.
    #[verifier::spinoff_prover]
    proof fn lemma_subtree_empty(&self, l: nat, p: int)
        requires
            self.wf(),
            1 <= l < self.w(),
            !self.has(l, p),
        ensures
            forall|t: u32| #[trigger] self.keys().contains(t) ==> pfx(t as int, self.w(), l) != p,
            !self.has(l + 1, 2 * p),
            !self.has(l + 1, 2 * p + 1),
    {
        assert forall|t: u32| #[trigger] self.keys().contains(t) implies pfx(t as int, self.w(), l) != p by {
            self.lemma_key_has(t, l);
        }
        if self.has(l + 1, 2 * p) {
            let t = self.lemma_has_witness(l + 1, 2 * p);
            lemma_prefix_parent(t as int, self.w(), l);
            self.lemma_key_has(t, l);
        }
        if self.has(l + 1, 2 * p + 1) {
            let t = self.lemma_has_witness(l + 1, 2 * p + 1);
            lemma_prefix_parent(t as int, self.w(), l);
            self.lemma_key_has(t, l);
        }
    }

    /// Where the prefix of `key` at depth `l` is new, its subtree holds
    /// `key` alone.
    #[verifier::spinoff_prover]
    #[verifier::rlimit(60)]
    proof fn lemma_fresh_facts(&self, o: Self, key: u32, l: nat)
        requires
            self.insert_frame(o, key, l),
            1 <= l,
            !o.has(l, pfx(key as int, o.w(), l)),
        ensures
            self.width == o.width,
            self.hashmaps@.len() == self.width,
            l < self.w(),
            ({
                let pk = pfx(key as int, o.w(), l);
                let c = pfx(key as int, o.w(), l + 1);
                let b = c == 2 * pk + 1;
                let oc = if b { 2 * pk } else { 2 * pk + 1 };
                &&& c == 2 * pk || c == 2 * pk + 1
                &&& self.has(l + 1, c)
                &&& !self.has(l + 1, oc)
                &&& self.is_leaf_of(self.leaf(key), key)
                &&& forall|t: u32| #[trigger] self.keys().contains(t) && pfx(t as int, o.w(), l) == pk
                    ==> t == key
            }),
    {
        let w = o.w();
        let pk = pfx(key as int, w, l);
        let c = pfx(key as int, w, l + 1);
        let b = c == 2 * pk + 1;
        let oc = if b { 2 * pk } else { 2 * pk + 1 };
        self.lemma_step_facts(o, key, l);
        lemma_prefix_parent(key as int, w, l);
        o.lemma_subtree_empty(l, pk);
        assert(self.has(l + 1, oc) == o.has(l + 1, oc));
        assert(self.leaf(key) < self.nodes@.len());
        assert forall|t: u32| #[trigger] self.keys().contains(t) && pfx(t as int, w, l) == pk
            implies t == key by {
            if t != key {
                assert(o.keys().contains(t));
            }
        }
    }

    /// A node created at depth `l` for `key` is in place.
    #[verifier::spinoff_prover]
    #[verifier::rlimit(100)]
    proof fn lemma_step_new_node(&self, s1: Self, o: Self, key: u32, l: nat, x: usize, leaf: usize)
        requires
            s1.insert_frame(o, key, l),
            self.step_rel(s1, l, x),
            1 <= l,
            leaf == s1.leaf(key),
            !o.has(l, pfx(key as int, o.w(), l)),
            self.tags@[x as int] == (l, pfx(key as int, o.w(), l)),
            self.hashmaps@[l - 1]@ == s1.hashmaps@[l - 1]@.insert(pfx(key as int, o.w(), l) as u32, x),
            ({
                let pk = pfx(key as int, o.w(), l);
                let b = pfx(key as int, o.w(), l + 1) == 2 * pk + 1;
                let nd = self.nodes@[x as int];
                let taken = if b { nd.right } else { nd.left };
                let other = if b { nd.left } else { nd.right };
                let oc = if b { 2 * pk } else { 2 * pk + 1 };
                let on = o.nodes@[x as int];
                let was = if b { on.left } else { on.right };
                &&& taken == Some(s1.at(l + 1, pfx(key as int, o.w(), l + 1)))
                &&& !o.has(l, pk) ==> other == Some(leaf)
                &&& o.has(l, pk) ==> x == o.at(l, pk) && other == (if o.has(l + 1, oc) {
                    was
                } else if (b && key < o.key_of(was.unwrap())) || (!b && key > o.key_of(was.unwrap())) {
                    Some(leaf)
                } else {
                    was
                })
            }),
        ensures
            self.node_ok(l, pfx(key as int, o.w(), l)),
    {
        let w = o.w();
        let pk = pfx(key as int, w, l);
        let c = pfx(key as int, w, l + 1);
        let b = c == 2 * pk + 1;
        let oc = if b { 2 * pk } else { 2 * pk + 1 };
        s1.lemma_fresh_facts(o, key, l);
        assert(self.hashmaps@[l as int] == s1.hashmaps@[l as int]);
        assert(self.hashmaps@[w - 1] == s1.hashmaps@[w - 1]);
        assert(self.keys() == s1.keys());
        assert(self.has(l + 1, c) == s1.has(l + 1, c));
        assert(self.has(l + 1, oc) == s1.has(l + 1, oc));
        assert(self.at(l + 1, c) == s1.at(l + 1, c));
        assert(self.nodes@[leaf as int] == s1.nodes@[leaf as int]);
        assert(self.is_leaf_of(leaf, key));
        assert(self.at(l, pk) == x);
        self.lemma_fresh_node_ok(key, l, x, leaf);
    }

    /// A node of depth `l` on the path of `key` that already stood is in place.
    #[verifier::spinoff_prover]
    #[verifier::rlimit(80)]
    proof fn lemma_step_old_node(&self, s1: Self, o: Self, key: u32, l: nat, x: usize, leaf: usize)
        requires
            s1.insert_frame(o, key, l),
            self.step_rel(s1, l, x),
            1 <= l,
            leaf == s1.leaf(key),
            o.has(l, pfx(key as int, o.w(), l)),
            self.tags@[x as int] == (l, pfx(key as int, o.w(), l)),
            self.hashmaps@[l - 1]@ == s1.hashmaps@[l - 1]@.insert(pfx(key as int, o.w(), l) as u32, x),
            ({
                let pk = pfx(key as int, o.w(), l);
                let b = pfx(key as int, o.w(), l + 1) == 2 * pk + 1;
                let nd = self.nodes@[x as int];
                let taken = if b { nd.right } else { nd.left };
                let other = if b { nd.left } else { nd.right };
                let oc = if b { 2 * pk } else { 2 * pk + 1 };
                let on = o.nodes@[x as int];
                let was = if b { on.left } else { on.right };
                &&& taken == Some(s1.at(l + 1, pfx(key as int, o.w(), l + 1)))
                &&& !o.has(l, pk) ==> other == Some(leaf)
                &&& o.has(l, pk) ==> x == o.at(l, pk) && other == (if o.has(l + 1, oc) {
                    was
                } else if (b && key < o.key_of(was.unwrap())) || (!b && key > o.key_of(was.unwrap())) {
                    Some(leaf)
                } else {
                    was
                })
            }),
        ensures
            self.node_ok(l, pfx(key as int, o.w(), l)),
    {
        s1.lemma_step_facts(o, key, l);
        let w = o.w();
        let pk = pfx(key as int, w, l);
        let c = pfx(key as int, w, l + 1);
        let b = c == 2 * pk + 1;
        let oc = if b { 2 * pk } else { 2 * pk + 1 };
        lemma_shr_prefix(key, o.width, l as u32);
        lemma_shr_prefix(key, o.width, (l + 1) as u32);
        lemma_prefix_parent(key as int, w, l);
        lemma_prefix_full(key as int, w);
        let ks = o.keys().insert(key);
        assert(self.keys() == ks);
        assert(s1.hashmaps@[l - 1] == o.hashmaps@[l - 1]);
        assert(self.hashmaps@[l as int] == s1.hashmaps@[l as int]);
        assert(self.hashmaps@[w - 1] == s1.hashmaps@[w - 1]);
        assert(self.at(l, pk) == x);
        assert(s1.has(l + 1, pfx(key as int, w, l + 1)));
        assert(self.has(l + 1, c));
        assert(self.has(l + 1, oc) == s1.has(l + 1, oc));
        assert(s1.has(l + 1, oc) == o.has(l + 1, oc));
        assert(s1.keys().contains(key));
        assert(s1.leaf_ok(key));
        assert(self.nodes@[leaf as int] == s1.nodes@[leaf as int]);
        assert(self.is_leaf_of(leaf, key));
        assert(o.level_ok(l));
        assert(o.node_ok(l, pk));
        let on = o.nodes@[x as int];
        let was = if b { on.left } else { on.right };
        if !o.has(l + 1, oc) {
            let j = was.unwrap();
            let m = o.key_of(j);
            assert(s1.nodes@[j as int].key == o.nodes@[j as int].key);
            assert(s1.has(w, m as int) == o.has(w, m as int));
            assert(self.nodes@[j as int] == s1.nodes@[j as int]);
            assert(self.is_leaf_of(j, m));
        }
    }

    /// The node of depth `l` on the path of `key` is in place once its slot
    /// toward `key` holds the child and its other slot was kept or repaired.
    #[verifier::spinoff_prover]
    #[verifier::rlimit(80)]
    proof fn lemma_step_this_node(&self, s1: Self, o: Self, key: u32, l: nat, x: usize, leaf: usize)
        requires
            s1.insert_frame(o, key, l),
            self.step_rel(s1, l, x),
            1 <= l,
            leaf == s1.leaf(key),
            self.tags@[x as int] == (l, pfx(key as int, o.w(), l)),
            self.hashmaps@[l - 1]@ == s1.hashmaps@[l - 1]@.insert(pfx(key as int, o.w(), l) as u32, x),
            ({
                let pk = pfx(key as int, o.w(), l);
                let b = pfx(key as int, o.w(), l + 1) == 2 * pk + 1;
                let nd = self.nodes@[x as int];
                let taken = if b { nd.right } else { nd.left };
                let other = if b { nd.left } else { nd.right };
                let oc = if b { 2 * pk } else { 2 * pk + 1 };
                let on = o.nodes@[x as int];
                let was = if b { on.left } else { on.right };
                &&& taken == Some(s1.at(l + 1, pfx(key as int, o.w(), l + 1)))
                &&& !o.has(l, pk) ==> other == Some(leaf)
                &&& o.has(l, pk) ==> x == o.at(l, pk) && other == (if o.has(l + 1, oc) {
                    was
                } else if (b && key < o.key_of(was.unwrap())) || (!b && key > o.key_of(was.unwrap())) {
                    Some(leaf)
                } else {
                    was
                })
            }),
        ensures
            self.node_ok(l, pfx(key as int, o.w(), l)),
    {
        if o.has(l, pfx(key as int, o.w(), l)) {
            self.lemma_step_old_node(s1, o, key, l, x, leaf);
        } else {
            self.lemma_step_new_node(s1, o, key, l, x, leaf);
        }
    }

    /// After the step at depth `l`, depth `l` is in place.
    #[verifier::rlimit(80)]
    proof fn lemma_step_level(&self, s1: Self, o: Self, key: u32, l: nat, x: usize)
        requires
            s1.insert_frame(o, key, l),
            self.step_rel(s1, l, x),
            1 <= l,
            self.tags@[x as int] == (l, pfx(key as int, o.w(), l)),
            self.hashmaps@[l - 1]@ == s1.hashmaps@[l - 1]@.insert(pfx(key as int, o.w(), l) as u32, x),
            self.node_ok(l, pfx(key as int, o.w(), l)),
        ensures
            self.level_ok(l),
    {
        reveal(XFastTrie::insert_frame);
        let w = o.w();
        let pk = pfx(key as int, w, l);
        lemma_shr_prefix(key, o.width, l as u32);
        lemma_prefix_full(key as int, w);
        assert(self.hashmaps@[w - 1] == s1.hashmaps@[w - 1]);
        assert(s1.hashmaps@[l - 1] == o.hashmaps@[l - 1]);
        assert(o.level_ok(l));
        let ks = o.keys().insert(key);
        assert(self.keys() == ks);
        assert forall|p: int| #[trigger] self.has(l, p) implies self.node_ok(l, p) by {
            if p != pk {
                self.lemma_step_other_node(s1, o, key, l, x, p);
            }
        }
        assert forall|p: int| #[trigger] self.has(l, p) implies self.covered(l, p) by {
            reveal(XFastTrie::covered);
            if p != pk {
                assert(o.has(l, p));
                let t = o.lemma_has_witness(l, p);
                assert(self.keys().contains(t));
            } else {
                assert(self.keys().contains(key));
            }
        }
        assert forall|k: u32| #[trigger] self.keys().contains(k) implies self.has(
            l,
            pfx(k as int, w, l),
        ) by {
            if k != key {
                assert(o.keys().contains(k));
                lemma_shr_prefix(k, o.width, l as u32);
            }
        }
    }

    /// After the step at depth `l`, the maps and nodes relate to `o` as an
    /// insertion done down to depth `l` requires.
    #[verifier::spinoff_prover]
    #[verifier::rlimit(60)]
    proof fn lemma_step_maps(&self, s1: Self, o: Self, key: u32, l: nat, x: usize)
        requires
            s1.insert_frame(o, key, l),
            self.step_rel(s1, l, x),
            1 <= l,
            self.tags@[x as int] == (l, pfx(key as int, o.w(), l)),
            self.hashmaps@[l - 1]@ == s1.hashmaps@[l - 1]@.insert(pfx(key as int, o.w(), l) as u32, x),
        ensures
            forall|i: int| 0 <= i < o.nodes@.len() ==> #[trigger] self.tags@[i] == o.tags@[i],
            forall|i: int| 0 <= i < o.nodes@.len() ==> #[trigger] self.nodes@[i].key == o.nodes@[i].key,
            forall|i: int| 0 <= i < o.nodes@.len() && (#[trigger] self.tags@[i]).0 <= l - 1
                ==> self.nodes@[i] == o.nodes@[i],
            forall|m: nat| 1 <= m <= l - 1 ==> #[trigger] self.hashmaps@[m - 1] == o.hashmaps@[m - 1],
            forall|m: nat, p: int| l - 1 < m <= o.w() && p != pfx(key as int, o.w(), m) ==> (
                #[trigger] self.has(m, p) == o.has(m, p) && (o.has(m, p) ==> self.at(m, p) == o.at(m, p))),
            forall|m: nat| l - 1 < m <= o.w() ==> #[trigger] self.has(m, pfx(key as int, o.w(), m)),
    {
        reveal(XFastTrie::insert_frame);
        let w = o.w();
        lemma_shr_prefix(key, o.width, l as u32);
        assert forall|i: int| 0 <= i < o.nodes@.len() implies #[trigger] self.tags@[i] == o.tags@[i]
            && self.nodes@[i].key == o.nodes@[i].key by {
            assert(s1.tags@[i] == o.tags@[i]);
            assert(s1.nodes@[i].key == o.nodes@[i].key);
        }
        assert forall|i: int| 0 <= i < o.nodes@.len() && (#[trigger] self.tags@[i]).0 <= l - 1
            implies self.nodes@[i] == o.nodes@[i] by {
            assert(s1.tags@[i] == o.tags@[i]);
            assert(s1.nodes@[i] == o.nodes@[i]);
        }
        assert forall|m: nat| 1 <= m <= l - 1 implies #[trigger] self.hashmaps@[m - 1]
            == o.hashmaps@[m - 1] by {
            assert(s1.hashmaps@[m - 1] == o.hashmaps@[m - 1]);
        }
        assert forall|m: nat, p: int| l - 1 < m <= w && p != pfx(key as int, w, m)
            implies (#[trigger] self.has(m, p) == o.has(m, p) && (o.has(m, p) ==> self.at(m, p) == o.at(
            m,
            p,
        ))) by {
            if m > l {
                assert(self.hashmaps@[m - 1] == s1.hashmaps@[m - 1]);
                assert(s1.has(m, p) == o.has(m, p));
            }
        }
        assert forall|m: nat| l - 1 < m <= w implies #[trigger] self.has(m, pfx(key as int, w, m))
            by {
            if m > l {
                assert(self.hashmaps@[m - 1] == s1.hashmaps@[m - 1]);
                assert(s1.has(m, pfx(key as int, w, m)));
            }
        }
        assert forall|j: u32| #[trigger] self.keys().contains(j) implies (j as int) < pow2(w) by {
            assert(s1.keys().contains(j));
        }
    }

    /// After the step at depth `l`, depths from `l` down are done.
    #[verifier::spinoff_prover]
    #[verifier::rlimit(80)]
    proof fn lemma_step_done(&self, s1: Self, o: Self, key: u32, l: nat, x: usize, leaf: usize)
        requires
            s1.insert_frame(o, key, l),
            self.step_rel(s1, l, x),
            1 <= l,
            leaf == s1.leaf(key),
            self.tags@[x as int] == (l, pfx(key as int, o.w(), l)),
            self.hashmaps@[l - 1]@ == s1.hashmaps@[l - 1]@.insert(pfx(key as int, o.w(), l) as u32, x),
            self.node_ok(l, pfx(key as int, o.w(), l)),
        ensures
            self.insert_frame(o, key, (l - 1) as nat),
            self.leaf(key) == leaf,
            self.at(l, pfx(key as int, o.w(), l)) == x,
    {
        reveal(XFastTrie::insert_frame);
        let w = o.w();
        let pk = pfx(key as int, w, l);
        lemma_shr_prefix(key, o.width, l as u32);
        lemma_prefix_full(key as int, w);
        self.lemma_step_keeps(s1, l, x);
        assert(self.hashmaps@[w - 1] == s1.hashmaps@[w - 1]);
        self.lemma_step_level(s1, o, key, l, x);
        assert forall|m: nat| l - 1 < m < w implies #[trigger] self.level_ok(m) by {}
        self.lemma_step_maps(s1, o, key, l, x);
        assert forall|j: u32| #[trigger] self.keys().contains(j) implies (j as int) < pow2(w) by {
            assert(s1.keys().contains(j));
        }
    }

    /// The shape of a trie part way through an insertion.
    proof fn lemma_frame_shape(&self, o: Self, key: u32, l: nat)
        requires
            self.insert_frame(o, key, l),
        ensures
            self.width == o.width,
            self.hashmaps@.len() == self.width,
            2 <= self.width,
    {
        reveal(XFastTrie::insert_frame);
    }

    /// What the step at depth `l` reads of a trie part way through an insertion.
    #[verifier::spinoff_prover]
    #[verifier::rlimit(60)]
    proof fn lemma_step_facts(&self, o: Self, key: u32, l: nat)
        requires
            self.insert_frame(o, key, l),
            1 <= l,
        ensures
            o.wf(),
            self.width == o.width,
            self.hashmaps@.len() == self.width,
            2 <= self.w(),
            self.keys() == o.keys().insert(key),
            !o.keys().contains(key),
            self.leaf_ok(key),
            self.hashmaps@[self.w() - 1]@ == o.hashmaps@[self.w() - 1]@.insert(key, self.leaf(key)),
            l < self.w(),
            self.tags@.len() == self.nodes@.len(),
            o.nodes@.len() <= self.nodes@.len(),
            self.has(l + 1, pfx(key as int, o.w(), l + 1)),
            self.has(l, pfx(key as int, o.w(), l)) == o.has(l, pfx(key as int, o.w(), l)),
            self.hashmaps@[l - 1] == o.hashmaps@[l - 1],
            forall|c: int| c != pfx(key as int, o.w(), l + 1) ==> #[trigger] self.has(l + 1, c) == o.has(l + 1, c)
                && (o.has(l + 1, c) ==> self.at(l + 1, c) == o.at(l + 1, c)),
            ({
                let pk = pfx(key as int, o.w(), l);
                let n = self.at(l, pk);
                self.has(l, pk) ==> {
                    &&& n < o.nodes@.len()
                    &&& self.tags@[n as int] == (l, pk)
                    &&& self.nodes@[n as int] == o.nodes@[n as int]
                    &&& self.nodes@[n as int].key is None
                    &&& !o.has(l + 1, 2 * pk) ==> {
                        &&& self.nodes@[n as int].left is Some
                        &&& self.nodes@[n as int].left.unwrap() < o.nodes@.len()
                        &&& self.nodes@[self.nodes@[n as int].left.unwrap() as int].key is Some
                        &&& self.nodes@[self.nodes@[n as int].left.unwrap() as int].key
                            == o.nodes@[self.nodes@[n as int].left.unwrap() as int].key
                    }
                    &&& !o.has(l + 1, 2 * pk + 1) ==> {
                        &&& self.nodes@[n as int].right is Some
                        &&& self.nodes@[n as int].right.unwrap() < o.nodes@.len()
                        &&& self.nodes@[self.nodes@[n as int].right.unwrap() as int].key is Some
                        &&& self.nodes@[self.nodes@[n as int].right.unwrap() as int].key
                            == o.nodes@[self.nodes@[n as int].right.unwrap() as int].key
                    }
                }
            }),
    {
        reveal(XFastTrie::insert_frame);
        let w = o.w();
        let pk = pfx(key as int, w, l);
        lemma_prefix_parent(key as int, w, l);
        lemma_prefix_full(key as int, w);
        assert(self.keys().contains(key));
        assert(self.has(w, key as int));
        assert(self.hashmaps@[w - 1]@ =~= o.hashmaps@[w - 1]@.insert(key, self.leaf(key))) by {
            assert forall|m: u32| m != key implies (#[trigger] self.hashmaps@[w - 1]@.contains_key(m)
                == o.hashmaps@[w - 1]@.contains_key(m)) && (o.hashmaps@[w - 1]@.contains_key(m)
                ==> self.hashmaps@[w - 1]@[m] == o.hashmaps@[w - 1]@[m]) by {
                assert(self.has(w, m as int) == o.has(w, m as int));
            }
        }
        assert(self.hashmaps@[l - 1] == o.hashmaps@[l - 1]);
        assert(self.has(l + 1, pfx(key as int, w, l + 1)));
        if self.has(l, pk) {
            assert(o.has(l, pk));
            assert(o.level_ok(l));
            assert(o.node_ok(l, pk));
            let n = o.at(l, pk);
            assert(self.tags@[n as int] == o.tags@[n as int]);
            assert(self.nodes@[n as int] == o.nodes@[n as int]);
            if let Some(j) = o.nodes@[n as int].left {
                if !o.has(l + 1, 2 * pk) {
                    assert(self.nodes@[j as int].key == o.nodes@[j as int].key);
                }
            }
            if let Some(j) = o.nodes@[n as int].right {
                if !o.has(l + 1, 2 * pk + 1) {
                    assert(self.nodes@[j as int].key == o.nodes@[j as int].key);
                }
            }
        }
    }

    /// Puts in place the node of depth `l` on the path of `key`: creates it if
    /// the prefix is new, points its slot toward `key` at `child`, and makes
    /// its other slot lead to `leaf` where that is now the nearest key.
    #[verifier::spinoff_prover]
    #[verifier::rlimit(100)]
    fn fix_level(&mut self, Ghost(o): Ghost<Self>, key: u32, l: u32, child: usize, leaf: usize) -> (x: usize)
        requires
            old(self).insert_frame(o, key, l as nat),
            1 <= l,
            child == old(self).at((l + 1) as nat, pfx(key as int, o.w(), (l + 1) as nat)),
            leaf == old(self).leaf(key),
        ensures
            final(self).insert_frame(o, key, (l - 1) as nat),
            final(self).leaf(key) == leaf,
            x == final(self).at(l as nat, pfx(key as int, o.w(), l as nat)),
            old(self).nodes@.len() <= final(self).nodes@.len(),
            forall|i: int| 0 <= i < old(self).nodes@.len() ==> #[trigger] final(self).nodes@[i].value
                == old(self).nodes@[i].value,
    {
        let ghost s1 = *self;
        let ghost gl = l as nat;
        proof {
            s1.lemma_step_facts(o, key, gl);
        }
        let w = self.width;
        let pk: u32 = key >> (w - l);
        let c: u32 = key >> (w - l - 1);
        proof {
            lemma_shr_prefix(key, w, l);
            lemma_shr_prefix(key, w, (l + 1) as u32);
            lemma_prefix_parent(key as int, o.w(), gl);
        }
        let right = c % 2 == 1;
        let found = match self.hashmaps[(l - 1) as usize].get(&pk) {
            Some(n) => Some(*n),
            None => None,
        };
        let x: usize;
        match found {
            Some(n) => {
                x = n;
                proof {
                    assert(s1.hashmaps@[gl - 1]@.insert(pk, n) =~= s1.hashmaps@[gl - 1]@);
                }
                let ghost on = o.nodes@[n as int];
                if right {
                    self.nodes[n].set_right(child);
                    let sib: u32 = c - 1;
                    if !self.hashmaps[l as usize].contains_key(&sib) {
                        proof {
                            assert(!s1.has(gl + 1, sib as int));
                            assert(!o.has(gl + 1, sib as int));
                        }
                        let j = self.nodes[n].left.unwrap();
                        if key < self.nodes[j].key.unwrap() {
                            self.nodes[n].set_left(leaf);
                        }
                    }
                    proof {
                        assert(s1.has(gl + 1, sib as int) == o.has(gl + 1, sib as int));
                        assert(self.nodes@[n as int].left == (if o.has(gl + 1, sib as int) {
                            on.left
                        } else if key < o.key_of(on.left.unwrap()) {
                            Some(leaf)
                        } else {
                            on.left
                        }));
                    }
                } else {
                    self.nodes[n].set_left(child);
                    let sib: u32 = c + 1;
                    if !self.hashmaps[l as usize].contains_key(&sib) {
                        proof {
                            assert(!s1.has(gl + 1, sib as int));
                            assert(!o.has(gl + 1, sib as int));
                        }
                        let j = self.nodes[n].right.unwrap();
                        if key > self.nodes[j].key.unwrap() {
                            self.nodes[n].set_right(leaf);
                        }
                    }
                    proof {
                        assert(s1.has(gl + 1, sib as int) == o.has(gl + 1, sib as int));
                        assert(self.nodes@[n as int].right == (if o.has(gl + 1, sib as int) {
                            on.right
                        } else if key > o.key_of(on.right.unwrap()) {
                            Some(leaf)
                        } else {
                            on.right
                        }));
                    }
                }
            },
            None => {
                x = self.nodes.len();
                let mut nd = XFastNode::new();
                if right {
                    nd.set_right(child);
                    nd.set_left(leaf);
                } else {
                    nd.set_left(child);
                    nd.set_right(leaf);
                }
                self.nodes.push(nd);
                self.tags = Ghost(self.tags@.push((gl, pk as int)));
                self.hashmaps[(l - 1) as usize].insert(pk, x);
            },
        }
        proof {
            let s2 = *self;
            assert(s2.step_rel(s1, gl, x));
            let gpk = pfx(key as int, o.w(), gl);
            let b = pfx(key as int, o.w(), gl + 1) == 2 * gpk + 1;
            let nd = s2.nodes@[x as int];
            let taken = if b { nd.right } else { nd.left };
            let other = if b { nd.left } else { nd.right };
            let oc = if b { 2 * gpk } else { 2 * gpk + 1 };
            let on = o.nodes@[x as int];
            let was = if b { on.left } else { on.right };
            assert(b == right);
            assert(taken == Some(s1.at(gl + 1, pfx(key as int, o.w(), gl + 1))));
            assert(!o.has(gl, gpk) ==> other == Some(leaf));
            assert(o.has(gl, gpk) ==> x == o.at(gl, gpk));
            assert(o.has(gl, gpk) ==> other == (if o.has(gl + 1, oc) {
                    was
                } else if (b && key < o.key_of(was.unwrap())) || (!b && key > o.key_of(was.unwrap())) {
                    Some(leaf)
                } else {
                    was
                }));
            s2.lemma_step_this_node(s1, o, key, gl, x, leaf);
            s2.lemma_step_done(s1, o, key, gl, x, leaf);
        }
        x
    }

    /// The successor of a missing key is the right neighbour of its
    /// predecessor, or the least key if it has none.
    #[verifier::spinoff_prover]
    #[verifier::rlimit(60)]
    proof fn lemma_succ_from_pred(&self, key: u32, pred: Option<usize>)
        requires
            !self.keys().contains(key),
            self.links_pred(pred, key as int),
            self.end_ok(self.min_leaf, false),
            pred is Some ==> self.leaf_ok(self.key_of(pred.unwrap())),
        ensures
            pred is Some ==> pred.unwrap() < self.nodes@.len(),
            self.links_succ(
                match pred {
                    Some(j) => self.nodes@[j as int].right,
                    None => self.min_leaf,
                },
                key as int,
            ),
    {
        let kk = self.keys();
        if let Some(j) = pred {
            let m = self.key_of(j);
            if let Some(j2) = self.nodes@[j as int].right {
                let s2 = self.key_of(j2);
                assert forall|t: u32| #[trigger] kk.contains(t) && t > key implies s2 <= t by {
                    assert(t > m);
                }
            }
        } else {
            if let Some(j) = self.min_leaf {
                assert(kk.contains(self.key_of(j)));
            }
        }
    }

    /// Once every depth is done and the root is set, the insertion of `key`
    /// has left a well-formed trie holding `value` under `key`.
    #[verifier::spinoff_prover]
    #[verifier::rlimit(60)]
    proof fn lemma_insert_done(&self, o: Self, key: u32, value: V, leaf: usize)
        requires
            self.insert_frame(o, key, 0),
            self.leaf(key) == leaf,
            self.nodes@[leaf as int].value == Some(value),
            o.nodes@.len() <= self.nodes@.len(),
            forall|i: int| 0 <= i < o.nodes@.len() ==> #[trigger] self.nodes@[i].value == o.nodes@[i].value,
        ensures
            self.wf(),
            self.w() == o.w(),
            self@ == o@.insert(key, value),
    {
        reveal(XFastTrie::insert_frame);
        let w = o.w();
        lemma_prefix_full(key as int, w);
        assert forall|l: nat| 1 <= l < self.w() implies #[trigger] self.level_ok(l) by {}
        assert forall|k: u32| #[trigger] o.keys().contains(k) implies self.leaf(k) == o.leaf(k) && self.nodes@[o.leaf(
            k,
        ) as int].value == o.nodes@[o.leaf(k) as int].value by {
            assert(self.has(w, k as int) == o.has(w, k as int));
            assert(o.leaf_ok(k));
        }
        assert(self@ =~= o@.insert(key, value));
    }

    /// Every registered depth holds the prefixes of every key.
    proof fn lemma_key_has(&self, k: u32, l: nat)
        requires
            self.wf(),
            self.keys().contains(k),
            1 <= l <= self.w(),
        ensures
            self.has(l, pfx(k as int, self.w(), l)),
    {
        if l == self.w() {
            lemma_prefix_full(k as int, self.w());
        } else {
            assert(self.level_ok(l));
        }
    }

    /// Every registered prefix is the prefix of some key.
    proof fn lemma_has_witness(&self, l: nat, p: int) -> (k: u32)
        requires
            self.wf(),
            1 <= l <= self.w(),
            self.has(l, p),
        ensures
            self.keys().contains(k),
            pfx(k as int, self.w(), l) == p,
    {
        if l == self.w() {
            lemma_prefix_full(p, self.w());
            p as u32
        } else {
            assert(self.level_ok(l));
            assert(self.covered(l, p));
            reveal(XFastTrie::covered);
            choose|k: u32| self.keys().contains(k) && pfx(k as int, self.w(), l) == p
        }
    }

    /// A registered prefix of `q` has all its shorter prefixes registered.
    proof fn lemma_has_shorter(&self, q: u32, l: nat, m: nat)
        requires
            self.wf(),
            1 <= m <= l <= self.w(),
            self.has(l, pfx(q as int, self.w(), l)),
        ensures
            self.has(m, pfx(q as int, self.w(), m)),
    {
        let k = self.lemma_has_witness(l, pfx(q as int, self.w(), l));
        lemma_prefix_shorter(k as int, q as int, self.w(), l, m);
        self.lemma_key_has(k, m);
    }

    /// The length of the longest prefix of `key` that is registered, `0` if none is.
    fn longest_prefix_search(&self, key: &u32) -> (r: usize)
        requires
            self.wf(),
        ensures
            r <= self.w(),
            r > 0 ==> self.has(r as nat, pfx(*key as int, self.w(), r as nat)),
            forall|l: nat| r < l <= self.w() ==> !#[trigger] self.has(l, pfx(*key as int, self.w(), l)),
    {
        let w = self.width;
        let mut lo: u32 = 0;
        let mut hi: u32 = w + 1;
        while hi - lo > 1
            invariant
                self.wf(),
                w == self.width,
                lo < hi <= w + 1,
                lo > 0 ==> self.has(lo as nat, pfx(*key as int, self.w(), lo as nat)),
                forall|l: nat| hi <= l <= self.w() ==> !#[trigger] self.has(l, pfx(*key as int, self.w(), l)),
            decreases hi - lo,
        {
            let mid: u32 = lo + (hi - lo) / 2;
            proof {
                lemma_shr_prefix(*key, w, mid);
            }
            if self.hashmaps[(mid - 1) as usize].contains_key(&(*key >> (w - mid))) {
                lo = mid;
            } else {
                proof {
                    assert forall|l: nat| mid <= l <= self.w() implies !#[trigger] self.has(
                        l,
                        pfx(*key as int, self.w(), l),
                    ) by {
                        if self.has(l, pfx(*key as int, self.w(), l)) {
                            self.lemma_has_shorter(*key, l, mid as nat);
                        }
                    }
                }
                hi = mid;
            }
        }
        lo as usize
    }

    /// With no registered one-bit prefix shared, `key` lies on the other side
    /// of every key.
    #[verifier::spinoff_prover]
    #[verifier::rlimit(60)]
    proof fn lemma_pred_root(&self, key: u32)
        requires
            self.wf(),
            !self.has(1, pfx(key as int, self.w(), 1)),
        ensures
            pfx(key as int, self.w(), 1) == 0 ==> none_below(self.keys(), key as int),
            pfx(key as int, self.w(), 1) != 0 ==> self.links_pred(self.max_leaf, key as int),
    {
        let wn = self.w();
        let kk = self.keys();
        lemma_shr_prefix(key, self.width, 1);
        if pfx(key as int, wn, 1) == 0 {
            assert forall|t: u32| #[trigger] kk.contains(t) implies key <= t by {
                self.lemma_key_has(t, 1);
                lemma_prefix_top_bit(t as int, wn);
                lemma_prefix_order(key as int, t as int, wn, 1);
            }
        } else {
            assert forall|t: u32| #[trigger] kk.contains(t) implies t < key by {
                self.lemma_key_has(t, 1);
                lemma_prefix_top_bit(t as int, wn);
                lemma_prefix_order(t as int, key as int, wn, 1);
            }
        }
    }

    /// Where `key` turns right off the trie at depth `l`, the right slot of
    /// the node there leads to its predecessor.
    proof fn lemma_pred_right(&self, key: u32, l: nat)
        requires
            self.wf(),
            1 <= l < self.w(),
            self.has(l, pfx(key as int, self.w(), l)),
            !self.has(l + 1, pfx(key as int, self.w(), l + 1)),
            pfx(key as int, self.w(), l + 1) == 2 * pfx(key as int, self.w(), l) + 1,
        ensures
            self.at(l, pfx(key as int, self.w(), l)) < self.nodes@.len(),
            self.links_pred(
                self.nodes@[self.at(l, pfx(key as int, self.w(), l)) as int].right,
                key as int,
            ),
    {
        let wn = self.w();
        let kk = self.keys();
        let pk = pfx(key as int, wn, l);
        assert(self.level_ok(l));
        assert(self.node_ok(l, pk));
        let j = self.nodes@[self.at(l, pk) as int].right.unwrap();
        let m = self.key_of(j);
        lemma_prefix_parent(m as int, wn, l);
        self.lemma_key_has(m, l + 1);
        lemma_prefix_order(m as int, key as int, wn, l + 1);
        assert forall|t: u32| #[trigger] kk.contains(t) && t < key implies t <= m by {
            if pfx(t as int, wn, l) != pk {
                if pfx(t as int, wn, l) > pk {
                    lemma_prefix_order(key as int, t as int, wn, l);
                } else {
                    lemma_prefix_order(t as int, m as int, wn, l);
                }
            }
        }
    }

    /// Where `key` turns left off the trie at depth `l`, the left slot of the
    /// node there leads to its successor, whose predecessor is that of `key`.
    proof fn lemma_pred_left(&self, key: u32, l: nat)
        requires
            self.wf(),
            1 <= l < self.w(),
            self.has(l, pfx(key as int, self.w(), l)),
            !self.has(l + 1, pfx(key as int, self.w(), l + 1)),
            pfx(key as int, self.w(), l + 1) == 2 * pfx(key as int, self.w(), l),
        ensures
            self.at(l, pfx(key as int, self.w(), l)) < self.nodes@.len(),
            ({
                let slot = self.nodes@[self.at(l, pfx(key as int, self.w(), l)) as int].left;
                &&& slot is Some
                &&& slot.unwrap() < self.nodes@.len()
                &&& self.links_pred(self.nodes@[slot.unwrap() as int].left, key as int)
            }),
    {
        let wn = self.w();
        let kk = self.keys();
        let pk = pfx(key as int, wn, l);
        assert(self.level_ok(l));
        assert(self.node_ok(l, pk));
        let j = self.nodes@[self.at(l, pk) as int].left.unwrap();
        let m = self.key_of(j);
        lemma_prefix_parent(m as int, wn, l);
        self.lemma_key_has(m, l + 1);
        lemma_prefix_order(key as int, m as int, wn, l + 1);
        assert(self.leaf_ok(m));
        assert forall|t: u32| #[trigger] kk.contains(t) && t < m implies t < key by {
            if pfx(t as int, wn, l) == pk {
            } else if pfx(t as int, wn, l) > pk {
                lemma_prefix_order(m as int, t as int, wn, l);
            } else {
                lemma_prefix_order(t as int, key as int, wn, l);
            }
        }
    }

    /// The leaf of the largest key below `key`, if there is one.
    fn pred_leaf(&self, key: u32) -> (r: Option<usize>)
        requires
            self.wf(),
        ensures
            self.links_pred(r, key as int),
    {
        let w = self.width;
        let p = self.longest_prefix_search(&key);
        if p == 0 {
            proof {
                lemma_shr_prefix(key, w, 1);
                self.lemma_pred_root(key);
            }
            if key >> (w - 1) == 0 {
                None
            } else {
                self.max_leaf
            }
        } else if p == w as usize {
            proof {
                lemma_prefix_full(key as int, self.w());
                assert(self.leaf_ok(key));
            }
            match self.hashmaps[(w - 1) as usize].get(&key) {
                Some(i) => self.nodes[*i].left,
                None => None,
            }
        } else {
            let pl: u32 = p as u32;
            let pk: u32 = key >> (w - pl);
            let c: u32 = key >> (w - pl - 1);
            proof {
                lemma_shr_prefix(key, w, pl);
                lemma_shr_prefix(key, w, (pl + 1) as u32);
                lemma_prefix_parent(key as int, self.w(), pl as nat);
            }
            let n: usize = match self.hashmaps[(pl - 1) as usize].get(&pk) {
                Some(n) => *n,
                None => {
                    return None;
                },
            };
            if c % 2 == 1 {
                proof {
                    self.lemma_pred_right(key, pl as nat);
                }
                self.nodes[n].right
            } else {
                proof {
                    self.lemma_pred_left(key, pl as nat);
                }
                match self.nodes[n].left {
                    Some(j) => self.nodes[j].left,
                    None => None,
                }
            }
        }
    }

    /// The largest inserted key strictly below `key`, or `None` if there is none.
    pub fn predecessor(&self, key: &u32) -> (r: Option<u32>)
        requires
            self.wf(),
        ensures
            pred_result(self.keys(), *key as int, r),
    {
        match self.pred_leaf(*key) {
            Some(j) => self.nodes[j].key,
            None => None,
        }
    }

    /// Inserts `key` with `value` unless `key` is already present.
    ///
    /// Returns `Ok(true)` when the key was added, `Ok(false)` when it was
    /// present (its value is kept), and `Err(KeyTooWide)` when it does not
    /// fit in the trie's width; in the last two cases nothing changes.
    #[verifier::spinoff_prover]
    #[verifier::rlimit(100)]
    pub fn insert(&mut self, key: u32, value: V) -> (r: Result<bool, TrieError>)
        requires
            old(self).wf(),
        ensures
            final(self).wf(),
            final(self).w() == old(self).w(),
            !((key as int) < pow2(old(self).w())) ==> r == Err::<bool, TrieError>(TrieError::KeyTooWide)
                && *final(self) == *old(self),
            (key as int) < pow2(old(self).w()) && old(self)@.contains_key(key) ==> r == Ok::<
                bool,
                TrieError,
            >(false) && *final(self) == *old(self),
            (key as int) < pow2(old(self).w()) && !old(self)@.contains_key(key) ==> r == Ok::<
                bool,
                TrieError,
            >(true) && final(self)@ == old(self)@.insert(key, value),
    {
        let w = self.width;
        proof {
            lemma2_to64();
        }
        if w < 32 {
            proof {
                lemma_u32_shr_is_div(key, w);
                vstd::arithmetic::power2::lemma_pow2_pos(w as nat);
                assert((key as int / pow2(w as nat) as int == 0) == ((key as int) < pow2(w as nat))) by (nonlinear_arith)
                    requires pow2(w as nat) > 0, key >= 0;
            }
            if (key >> w) != 0 {
                return Err(TrieError::KeyTooWide);
            }
        }
        if self.contains(&key) {
            return Ok(false);
        }
        let ghost o = *self;
        let pred = self.pred_leaf(key);
        proof {
            if let Some(j) = pred {
                assert(self.keys().contains(self.key_of(j)));
            }
            self.lemma_succ_from_pred(key, pred);
        }
        let succ = match pred {
            Some(j) => self.nodes[j].right,
            None => self.min_leaf,
        };
        let leaf = self.link_leaf(key, value, pred, succ);
        let mut child: usize = leaf;
        let mut l: u32 = w - 1;
        proof {
            lemma_prefix_full(key as int, o.w());
            assert(self.at((l + 1) as nat, pfx(key as int, o.w(), (l + 1) as nat)) == self.leaf(key));
        }
        while l >= 1
            invariant
                self.insert_frame(o, key, l as nat),
                l < w,
                w == o.width,
                child == self.at((l + 1) as nat, pfx(key as int, o.w(), (l + 1) as nat)),
                leaf == self.leaf(key),
                self.nodes@[leaf as int].value == Some(value),
                leaf < self.nodes@.len(),
                leaf >= o.nodes@.len(),
                o.nodes@.len() <= self.nodes@.len(),
                forall|i: int| 0 <= i < o.nodes@.len() ==> #[trigger] self.nodes@[i].value
                    == o.nodes@[i].value,
            decreases l,
        {
            let ghost before = *self;
            child = self.fix_level(Ghost(o), key, l, child, leaf);
            proof {
                assert forall|i: int| 0 <= i < o.nodes@.len() implies #[trigger] self.nodes@[i].value
                    == o.nodes@[i].value by {
                    assert(self.nodes@[i].value == before.nodes@[i].value);
                }
                assert(self.nodes@[leaf as int].value == before.nodes@[leaf as int].value);
            }
            l = l - 1;
        }
        proof {
            self.lemma_insert_done(o, key, value, leaf);
        }
        Ok(true)
    }

    /// The least inserted key, or `None` if the trie is empty.
    pub fn min_key(&self) -> (r: Option<u32>)
        requires
            self.wf(),
        ensures
            r is None <==> self.keys() =~= Set::empty(),
            r is Some ==> is_min(self.keys(), r.unwrap()),
    {
        match self.min_leaf {
            Some(j) => self.nodes[j].key,
            None => None,
        }
    }

    /// The greatest inserted key, or `None` if the trie is empty.
    pub fn max_key(&self) -> (r: Option<u32>)
        requires
            self.wf(),
        ensures
            r is None <==> self.keys() =~= Set::empty(),
            r is Some ==> is_max(self.keys(), r.unwrap()),
    {
        match self.max_leaf {
            Some(j) => self.nodes[j].key,
            None => None,
        }
    }

    /// Every leaf is linked to its neighbours.
    pub closed spec fn chain_ok(&self) -> bool {
        &&& forall|k: u32| #[trigger] self.keys().contains(k) ==> self.leaf_ok(k)
        &&& self.end_ok(self.min_leaf, false)
    }

    /// A well-formed trie has its leaf chain in place.
    proof fn lemma_chain_ok(&self)
        requires
            self.wf(),
        ensures
            self.chain_ok(),
    {
    }

    /// The keys met walking the leaf chain from the least key to the greatest:
    /// exactly the inserted keys, in strictly ascending order.
    #[verifier::spinoff_prover]
    #[verifier::rlimit(60)]
    pub fn keys_in_order(&self) -> (r: Vec<u32>)
        requires
            self.wf(),
        ensures
            forall|i: int, j: int| 0 <= i < j < r@.len() ==> r@[i] < r@[j],
            forall|k: u32| self.keys().contains(k) <==> r@.contains(k),
            r@.len() == self.keys().len(),
    {
        let mut r: Vec<u32> = Vec::new();
        let mut cur: Option<usize> = self.min_leaf;
        proof {
            self.lemma_chain_ok();
        }
        while cur.is_some()
            invariant
                self.chain_ok(),
                forall|i: int, j: int| 0 <= i < j < r@.len() ==> r@[i] < r@[j],
                forall|i: int| 0 <= i < r@.len() ==> self.keys().contains(#[trigger] r@[i]),
                cur is Some ==> self.is_leaf_of(cur.unwrap(), self.key_of(cur.unwrap())),
                cur is Some && r@.len() == 0 ==> is_min(self.keys(), self.key_of(cur.unwrap())),
                cur is Some && r@.len() > 0 ==> is_succ(self.keys(), r@.last() as int, self.key_of(cur.unwrap())),
                cur is None && r@.len() == 0 ==> self.keys() =~= Set::empty(),
                cur is None && r@.len() > 0 ==> none_above(self.keys(), r@.last() as int),
                forall|k: u32| #[trigger] self.keys().contains(k) && (cur is None || k < self.key_of(
                    cur.unwrap(),
                )) ==> r@.contains(k),
            decreases
                    match cur {
                        Some(j) => 0x1_0000_0000 - self.key_of(j),
                        None => 0,
                    },
        {
            let j = cur.unwrap();
            let ghost old_r = r@;
            let m = self.nodes[j].key.unwrap();
            proof {
                assert(self.leaf_ok(m));
            }
            r.push(m);
            cur = self.nodes[j].right;
            proof {
                assert(r@.last() == m);
                assert forall|k: u32| #[trigger] self.keys().contains(k) && (cur is None || k
                    < self.key_of(cur.unwrap())) implies r@.contains(k) by {
                    if k < m {
                        assert(old_r.contains(k));
                        let i = choose|i: int| 0 <= i < old_r.len() && old_r[i] == k;
                        assert(r@[i] == k);
                    } else if k == m {
                        assert(r@[r@.len() - 1] == k);
                    }
                }
            }
        }
        proof {
            assert(cur is None);
            assert forall|k: u32| r@.contains(k) implies self.keys().contains(k) by {
                let i = choose|i: int| 0 <= i < r@.len() && r@[i] == k;
            }
            assert forall|k: u32| self.keys().contains(k) implies r@.contains(k) by {
                assert(self.keys().contains(k) && (cur is None || k < self.key_of(cur.unwrap())));
            }
            assert(r@.no_duplicates()) by {
                assert forall|i: int, j: int| 0 <= i < r@.len() && 0 <= j < r@.len() && i != j implies r@[i]
                    != r@[j] by {
                    if i < j {
                        assert(r@[i] < r@[j]);
                    } else {
                        assert(r@[j] < r@[i]);
                    }
                }
            }
            r@.unique_seq_to_set();
            assert(r@.to_set() =~= self.keys());
        }
        r
    }

    /// The inserted keys are the keys of the view.
    pub proof fn lemma_keys_are_view_dom(&self)
        ensures
            self.keys() == self@.dom(),
    {
        assert(self.keys() =~= self@.dom());
    }

    /// The prefixes registered at depth `l`.
    pub closed spec fn prefixes(&self, l: nat) -> Set<u32> {
        self.hashmaps@[l - 1]@.dom()
    }

    /// How many prefixes are registered at depth `depth`, one for each
    /// distinct `depth`-bit prefix of the inserted keys.
    pub fn prefix_count(&self, depth: u32) -> (r: usize)
        requires
            self.wf(),
            1 <= depth <= self.w(),
        ensures
            r == self.prefixes(depth as nat).len(),
            forall|k: u32| #[trigger] self.keys().contains(k) ==> self.prefixes(depth as nat).contains(
                pfx(k as int, self.w(), depth as nat) as u32,
            ),
    {
        proof {
            assert forall|k: u32| #[trigger] self.keys().contains(k) implies self.prefixes(
                depth as nat,
            ).contains(pfx(k as int, self.w(), depth as nat) as u32) by {
                self.lemma_key_has(k, depth as nat);
            }
        }
        self.hashmaps[(depth - 1) as usize].len()
    }

    /// The number of nodes, leaves and internal nodes together.
    pub closed spec fn num_nodes(&self) -> nat {
        self.nodes@.len()
    }

    /// The number of nodes, leaves and internal nodes together.
    pub fn node_count(&self) -> (r: usize)
        ensures
            r == self.num_nodes(),
    {
        self.nodes.len()
    }

    /// The key width `W`.
    pub fn width(&self) -> (r: u32)
        ensures
            r == self.w(),
    {
        self.width
    }

    /// Whether `key` has been inserted.
    pub fn contains(&self, key: &u32) -> (r: bool)
        requires
            self.wf(),
        ensures
            r == self@.contains_key(*key),
    {
        let top = (self.width - 1) as usize;
        self.hashmaps[top].contains_key(key)
    }
}

/// What was inserted is what a lookup finds: after `after@ == before@.insert(k, v)`,
/// as `insert` ensures for a new key, `get(k)` returns a clone of `v`.
pub proof fn lemma_round_trip<V>(before: XFastTrie<V>, after: XFastTrie<V>, k: u32, v: V)
    requires
        after@ == before@.insert(k, v),
    ensures
        after@.contains_key(k),
        after@[k] == v,
{
}

} // verus!
