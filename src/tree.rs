//! The in-memory B+ tree: insertion with node splits and key promotion, deletion
//! with borrowing and merging of leaves, and point lookup. Its rebalancing policy is
//! the one the on-disk nodes follow.
use vstd::prelude::*;

verus! {

/// A B+ tree of order `order`: every node holds fewer than `order` keys.
#[derive(Debug, PartialEq)]
pub struct BTree<V> {
    pub root: BTreeNode<V>,
    pub order: usize,
}

#[derive(Debug, PartialEq)]
pub enum BTreeNode<V> {
    Leaf(LeafNode<V>),
    Internal(InternalNode<V>),
}

#[derive(Debug, PartialEq)]
pub struct LeafNode<V> {
    pub keys: Vec<i64>,
    pub values: Vec<V>,
}

/// Child `i` holds the keys from `keys[i - 1]` (included) up to `keys[i]` (excluded).
#[derive(Debug, PartialEq)]
pub struct InternalNode<V> {
    pub keys: Vec<i64>,
    pub children: Vec<Box<BTreeNode<V>>>,
}

pub open spec fn sorted(ks: Seq<i64>) -> bool {
    forall|i: int, j: int| 0 <= i < j < ks.len() ==> ks[i] < ks[j]
}

pub open spec fn keys_within(ks: Seq<i64>, lo: int, hi: int) -> bool {
    forall|i: int| 0 <= i < ks.len() ==> lo <= #[trigger] ks[i] < hi
}

/// Lower bound of child `i`'s keys.
pub open spec fn lower(ks: Seq<i64>, lo: int, i: int) -> int {
    if i == 0 {
        lo
    } else {
        ks[i - 1] as int
    }
}

/// Upper bound (excluded) of child `i`'s keys.
pub open spec fn upper(ks: Seq<i64>, hi: int, i: int) -> int {
    if i == ks.len() {
        hi
    } else {
        ks[i] as int
    }
}

/// A well-formed subtree of height `h` whose keys lie in `[lo, hi)`: keys strictly
/// ascending and fewer than `order` in every node, one value per key in a leaf,
/// one child more than keys in an internal node, every leaf at the same depth.
pub open spec fn node_wf<V>(n: BTreeNode<V>, order: int, lo: int, hi: int, h: nat) -> bool
    decreases n,
{
    match n {
        BTreeNode::Leaf(l) => {
            &&& h == 0
            &&& l.keys@.len() == l.values@.len()
            &&& l.keys@.len() < order
            &&& sorted(l.keys@)
            &&& keys_within(l.keys@, lo, hi)
        },
        BTreeNode::Internal(x) => {
            &&& h > 0
            &&& x.children@.len() == x.keys@.len() + 1
            &&& x.keys@.len() < order
            &&& sorted(x.keys@)
            &&& keys_within(x.keys@, lo, hi)
            &&& forall|i: int|
                0 <= i < x.children@.len() ==> node_wf(
                    *#[trigger] x.children@[i],
                    order,
                    lower(x.keys@, lo, i),
                    upper(x.keys@, hi, i),
                    (h - 1) as nat,
                )
        },
    }
}

/// The number of keys at or below `k`, for ascending keys.
pub open spec fn cidx(ks: Seq<i64>, k: int) -> int
    decreases ks.len(),
{
    if ks.len() == 0 {
        0
    } else if ks.last() <= k {
        ks.len() as int
    } else {
        cidx(ks.drop_last(), k)
    }
}

/// The value paired with the key `k` in a leaf.
pub open spec fn leaf_lookup<V>(ks: Seq<i64>, vs: Seq<V>, k: int) -> Option<V> {
    let c = cidx(ks, k);
    if 0 < c <= vs.len() && ks[c - 1] == k {
        Some(vs[c - 1])
    } else {
        None
    }
}

/// The value stored under `k`, found along the path that a lookup takes.
pub open spec fn lookup<V>(n: BTreeNode<V>, k: int) -> Option<V>
    decreases n,
{
    match n {
        BTreeNode::Leaf(l) => leaf_lookup(l.keys@, l.values@, k),
        BTreeNode::Internal(x) => {
            let c = cidx(x.keys@, k);
            if 0 <= c < x.children@.len() {
                lookup(*x.children@[c], k)
            } else {
                None
            }
        },
    }
}

/// Smallest and largest key bounds of a whole tree.
pub open spec fn key_min() -> int {
    i64::MIN as int
}

pub open spec fn key_end() -> int {
    i64::MAX as int + 1
}

proof fn lemma_cidx(ks: Seq<i64>, k: int)
    requires
        sorted(ks),
    ensures
        0 <= cidx(ks, k) <= ks.len(),
        forall|i: int| 0 <= i < cidx(ks, k) ==> ks[i] <= k,
        forall|i: int| cidx(ks, k) <= i < ks.len() ==> ks[i] > k,
    decreases ks.len(),
{
    if ks.len() > 0 {
        let n = ks.len() - 1;
        if ks.last() > k {
            let d = ks.drop_last();
            lemma_cidx(d, k);
            assert forall|i: int| 0 <= i < cidx(ks, k) implies ks[i] <= k by {
                assert(d[i] == ks[i]);
            }
            assert forall|i: int| cidx(ks, k) <= i < ks.len() implies ks[i] > k by {
                if i < n {
                    assert(d[i] == ks[i]);
                }
            }
        } else {
            assert forall|i: int| 0 <= i < cidx(ks, k) implies ks[i] <= k by {
                if i < n {
                    assert(ks[i] < ks[n]);
                }
            }
        }
    }
}

/// `j` splits ascending keys into those at or below `k` and those above: it is `cidx`.
proof fn lemma_cidx_is(ks: Seq<i64>, k: int, j: int)
    requires
        sorted(ks),
        0 <= j <= ks.len(),
        forall|i: int| 0 <= i < j ==> ks[i] <= k,
        forall|i: int| j <= i < ks.len() ==> ks[i] > k,
    ensures
        cidx(ks, k) == j,
{
    lemma_cidx(ks, k);
    let c = cidx(ks, k);
    if c < j {
        assert(ks[c] > k);
    } else if c > j {
        assert(ks[j] <= k);
    }
}

/// In a sorted leaf, the value of key `k` is the one at the position that holds `k`.
proof fn lemma_leaf_lookup<V>(ks: Seq<i64>, vs: Seq<V>, k: int)
    requires
        sorted(ks),
        ks.len() == vs.len(),
    ensures
        forall|i: int| 0 <= i < ks.len() && ks[i] == k ==> leaf_lookup(ks, vs, k) == Some(vs[i]),
        (forall|i: int| 0 <= i < ks.len() ==> ks[i] != k) ==> leaf_lookup(ks, vs, k) is None,
{
    lemma_cidx(ks, k);
    let c = cidx(ks, k);
    assert forall|i: int| 0 <= i < ks.len() && ks[i] == k implies leaf_lookup(ks, vs, k) == Some(
        vs[i],
    ) by {
        if i < c - 1 {
            assert(ks[i] < ks[c - 1]);
        }
    }
}

/// Inserting a new key into a sorted leaf keeps it sorted and adds that one entry.
proof fn lemma_leaf_insert<V>(ks: Seq<i64>, vs: Seq<V>, key: i64, value: V, lo: int, hi: int)
    requires
        sorted(ks),
        ks.len() == vs.len(),
        keys_within(ks, lo, hi),
        lo <= key < hi,
        leaf_lookup(ks, vs, key as int) is None,
    ensures
        sorted(ks.insert(cidx(ks, key as int), key)),
        keys_within(ks.insert(cidx(ks, key as int), key), lo, hi),
        forall|k: int|
            #[trigger] leaf_lookup(
                ks.insert(cidx(ks, key as int), key),
                vs.insert(cidx(ks, key as int), value),
                k,
            ) == if k == key {
                Some(value)
            } else {
                leaf_lookup(ks, vs, k)
            },
{
    lemma_cidx(ks, key as int);
    let c = cidx(ks, key as int);
    let nk = ks.insert(c, key);
    let nv = vs.insert(c, value);
    if c > 0 {
        lemma_leaf_lookup(ks, vs, key as int);
        assert(ks[c - 1] != key);
    }
    assert forall|i: int, j: int| 0 <= i < j < nk.len() implies nk[i] < nk[j] by {
        if j < c {
        } else if j == c {
        } else if i < c {
            assert(ks[i] < ks[j - 1] || i == j - 1);
        } else if i == c {
        } else {
        }
    }
    assert forall|k: int|
        #[trigger] leaf_lookup(nk, nv, k) == if k == key {
            Some(value)
        } else {
            leaf_lookup(ks, vs, k)
        } by {
        lemma_leaf_lookup(ks, vs, k);
        lemma_leaf_lookup(nk, nv, k);
        if k == key {
            assert(nk[c] == key);
        } else {
            if exists|i: int| 0 <= i < ks.len() && ks[i] == k {
                let i = choose|i: int| 0 <= i < ks.len() && ks[i] == k;
                if i < c {
                    assert(nk[i] == k);
                } else {
                    assert(nk[i + 1] == k);
                }
            } else {
                assert forall|i: int| 0 <= i < nk.len() implies nk[i] != k by {
                    if i < c {
                        assert(nk[i] == ks[i]);
                    } else if i > c {
                        assert(nk[i] == ks[i - 1]);
                    }
                }
            }
        }
    }
}

/// Splitting a sorted leaf at `m` divides its entries at the key `ks[m]`.
proof fn lemma_leaf_split<V>(ks: Seq<i64>, vs: Seq<V>, m: int)
    requires
        sorted(ks),
        ks.len() == vs.len(),
        0 < m < ks.len(),
    ensures
        sorted(ks.subrange(0, m)),
        sorted(ks.subrange(m, ks.len() as int)),
        forall|k: int|
            k < ks[m] ==> #[trigger] leaf_lookup(ks.subrange(0, m), vs.subrange(0, m), k)
                == leaf_lookup(ks, vs, k),
        forall|k: int|
            k >= ks[m] ==> #[trigger] leaf_lookup(
                ks.subrange(m, ks.len() as int),
                vs.subrange(m, vs.len() as int),
                k,
            ) == leaf_lookup(ks, vs, k),
{
    let l = ks.subrange(0, m);
    let r = ks.subrange(m, ks.len() as int);
    let lv = vs.subrange(0, m);
    let rv = vs.subrange(m, vs.len() as int);
    assert forall|k: int| k < ks[m] implies #[trigger] leaf_lookup(l, lv, k) == leaf_lookup(
        ks,
        vs,
        k,
    ) by {
        lemma_leaf_lookup(ks, vs, k);
        lemma_leaf_lookup(l, lv, k);
        if exists|i: int| 0 <= i < ks.len() && ks[i] == k {
            let i = choose|i: int| 0 <= i < ks.len() && ks[i] == k;
            if i >= m {
                if i > m {
                    assert(ks[m] < ks[i]);
                }
            }
            assert(l[i] == k);
        } else {
            assert forall|i: int| 0 <= i < l.len() implies l[i] != k by {
                assert(l[i] == ks[i]);
            }
        }
    }
    assert forall|k: int| k >= ks[m] implies #[trigger] leaf_lookup(r, rv, k) == leaf_lookup(
        ks,
        vs,
        k,
    ) by {
        lemma_leaf_lookup(ks, vs, k);
        lemma_leaf_lookup(r, rv, k);
        if exists|i: int| 0 <= i < ks.len() && ks[i] == k {
            let i = choose|i: int| 0 <= i < ks.len() && ks[i] == k;
            if i < m {
                assert(ks[i] < ks[m]);
            }
            assert(r[i - m] == k);
        } else {
            assert forall|i: int| 0 <= i < r.len() implies r[i] != k by {
                assert(r[i] == ks[i + m]);
            }
        }
    }
}

/// The conditions that `node_wf` puts on an internal node, over its key and
/// child sequences.
pub open spec fn internal_wf<V>(
    ks: Seq<i64>,
    cs: Seq<Box<BTreeNode<V>>>,
    order: int,
    lo: int,
    hi: int,
    h: nat,
) -> bool {
    &&& h > 0
    &&& cs.len() == ks.len() + 1
    &&& ks.len() < order
    &&& sorted(ks)
    &&& keys_within(ks, lo, hi)
    &&& forall|i: int|
        0 <= i < cs.len() ==> node_wf(
            *#[trigger] cs[i],
            order,
            lower(ks, lo, i),
            upper(ks, hi, i),
            (h - 1) as nat,
        )
}

/// Lookup in an internal node, over its key and child sequences.
pub open spec fn internal_lookup<V>(ks: Seq<i64>, cs: Seq<Box<BTreeNode<V>>>, k: int) -> Option<V> {
    let c = cidx(ks, k);
    if 0 <= c < cs.len() {
        lookup(*cs[c], k)
    } else {
        None
    }
}

/// A new separator `sep` inserted at `c`, between the bounds of child `c`.
proof fn lemma_cidx_insert(ks: Seq<i64>, c: int, sep: i64, lo: int, hi: int, k: int)
    requires
        sorted(ks),
        keys_within(ks, lo, hi),
        0 <= c <= ks.len(),
        lower(ks, lo, c) < sep < upper(ks, hi, c),
    ensures
        sorted(ks.insert(c, sep)),
        keys_within(ks.insert(c, sep), lo, hi),
        cidx(ks.insert(c, sep), k) == if cidx(ks, k) < c {
            cidx(ks, k)
        } else if cidx(ks, k) > c {
            cidx(ks, k) + 1
        } else if k < sep {
            c
        } else {
            c + 1
        },
{
    let nk = ks.insert(c, sep);
    lemma_cidx(ks, k);
    assert forall|i: int, j: int| 0 <= i < j < nk.len() implies nk[i] < nk[j] by {
        if i < c && j > c {
            assert(ks[i] <= lower(ks, lo, c)) by {
                if i < c - 1 {
                    assert(ks[i] < ks[c - 1]);
                }
            }
            assert(upper(ks, hi, c) <= ks[j - 1]) by {
                if c < j - 1 {
                    assert(ks[c] < ks[j - 1]);
                }
            }
        } else if i == c && j > c + 1 {
            assert(ks[c] < ks[j - 1]);
        } else if i < c - 1 && j == c {
            assert(ks[i] < ks[c - 1]);
        }
    }
    assert(keys_within(nk, lo, hi)) by {
        assert forall|i: int| 0 <= i < nk.len() implies lo <= #[trigger] nk[i] < hi by {
            if i < c {
                assert(nk[i] == ks[i]);
            } else if i > c {
                assert(nk[i] == ks[i - 1]);
            } else {
                if c > 0 {
                    assert(lo <= ks[c - 1]);
                }
                if c < ks.len() {
                    assert(ks[c] < hi);
                }
            }
        }
    }
    let ci = cidx(ks, k);
    let j = if ci < c {
        ci
    } else if ci > c {
        ci + 1
    } else if k < sep {
        c
    } else {
        c + 1
    };
    assert forall|i: int| 0 <= i < j implies nk[i] <= k by {
        if i < c {
            assert(nk[i] == ks[i]);
            if ci < c {
            }
        } else if i > c {
            assert(nk[i] == ks[i - 1]);
        } else {
            if ci > c {
                assert(ks[c] <= k);
            }
        }
    }
    assert forall|i: int| j <= i < nk.len() implies nk[i] > k by {
        if i < c {
            assert(nk[i] == ks[i]);
        } else if i > c {
            assert(nk[i] == ks[i - 1]);
        } else {
            if ci < c {
                assert(ks[c - 1] > k);
            }
        }
    }
    lemma_cidx_is(nk, k, j);
}

/// Splitting ascending keys around position `m` keeps each half's positions.
proof fn lemma_cidx_split(ks: Seq<i64>, m: int, k: int)
    requires
        sorted(ks),
        0 <= m < ks.len(),
    ensures
        k < ks[m] ==> cidx(ks.subrange(0, m), k) == cidx(ks, k),
        k >= ks[m] ==> cidx(ks.subrange(m + 1, ks.len() as int), k) == cidx(ks, k) - m - 1,
        sorted(ks.subrange(0, m)),
        sorted(ks.subrange(m + 1, ks.len() as int)),
{
    lemma_cidx(ks, k);
    let l = ks.subrange(0, m);
    let r = ks.subrange(m + 1, ks.len() as int);
    let c = cidx(ks, k);
    if k < ks[m] {
        assert(c <= m);
        lemma_cidx_is(l, k, c);
    } else {
        assert(c >= m + 1) by {
            if c <= m {
                assert(ks[m] > k);
            }
        }
        assert forall|i: int| 0 <= i < c - m - 1 implies r[i] <= k by {
            assert(r[i] == ks[i + m + 1]);
        }
        assert forall|i: int| c - m - 1 <= i < r.len() implies r[i] > k by {
            assert(r[i] == ks[i + m + 1]);
        }
        lemma_cidx_is(r, k, c - m - 1);
    }
}

/// The number of keys at or below `k`, by binary search.
pub fn upper_bound(ks: &Vec<i64>, k: i64) -> (r: usize)
    requires
        sorted(ks@),
    ensures
        r == cidx(ks@, k as int),
{
    let mut low: usize = 0;
    let mut high: usize = ks.len();
    while low < high
        invariant
            low <= high <= ks@.len(),
            sorted(ks@),
            forall|i: int| 0 <= i < low ==> ks@[i] <= k,
            forall|i: int| high <= i < ks@.len() ==> ks@[i] > k,
        decreases high - low,
    {
        let mid = low + (high - low) / 2;
        if ks[mid] <= k {
            low = mid + 1;
        } else {
            high = mid;
        }
    }
    proof {
        lemma_cidx_is(ks@, k as int, low as int);
    }
    low
}

fn get_in<V>(n: &BTreeNode<V>, key: i64, Ghost(order): Ghost<int>, Ghost(lo): Ghost<int>, Ghost(hi): Ghost<int>, Ghost(h): Ghost<nat>) -> (r: Option<&V>)
    requires
        node_wf(*n, order, lo, hi, h),
    ensures
        r matches Some(v) ==> lookup(*n, key as int) == Some(*v),
        r is None ==> lookup(*n, key as int) is None,
    decreases h,
{
    match n {
        BTreeNode::Internal(internal) => {
            let c = upper_bound(&internal.keys, key);
            proof {
                lemma_cidx(internal.keys@, key as int);
            }
            get_in(&internal.children[c], key, Ghost(order), Ghost(lower(internal.keys@, lo, c as int)), Ghost(upper(internal.keys@, hi, c as int)), Ghost((h - 1) as nat))
        },
        BTreeNode::Leaf(leaf) => {
            let c = upper_bound(&leaf.keys, key);
            proof {
                lemma_cidx(leaf.keys@, key as int);
            }
            if c > 0 && leaf.keys[c - 1] == key {
                Some(&leaf.values[c - 1])
            } else {
                None
            }
        },
    }
}

/// How inserting into a leaf of order `order` went: without a split the leaf
/// grows by one key and stays below `order`; a split happens only when the leaf
/// reaches `order` keys, and the separator is the first key of the new right leaf.
pub open spec fn leaf_shape<V>(old_leaf: LeafNode<V>, r: Result<Option<(i64, BTreeNode<V>)>, String>, order: int, key: i64) -> bool {
    match r {
        Ok(None) => old_leaf.keys@.len() + 1 < order,
        Ok(Some((sep, right))) => {
            &&& old_leaf.keys@.len() + 1 == order
            &&& right matches BTreeNode::Leaf(rl) && rl.keys@.len() > 0 && rl.keys@[0] == sep
            &&& (key < sep <==> lands_left(old_leaf.keys@, key))
        },
        Err(_) => true,
    }
}

/// Where a split leaf puts a new key: in the left half when its insertion
/// position is at most half the old number of keys, else in the right half.
pub open spec fn lands_left(ks: Seq<i64>, key: i64) -> bool {
    cidx(ks, key as int) <= ks.len() / 2
}

/// The contents of a subtree after `key` is set to `value`.
pub open spec fn updated<V>(n: BTreeNode<V>, key: i64, value: V, k: int) -> Option<V> {
    if k == key {
        Some(value)
    } else {
        lookup(n, k)
    }
}

/// What inserting into a subtree over `[lo, hi)` achieved: the key was already
/// there and nothing changed; or the subtree now holds the new entry; or it was
/// split at a separator `sep`, the lower half staying in place and the upper half
/// returned, each well-formed over its own range.
pub open spec fn insert_post<V>(
    old_n: BTreeNode<V>,
    new_n: BTreeNode<V>,
    r: Result<Option<(i64, BTreeNode<V>)>, String>,
    key: i64,
    value: V,
    order: int,
    lo: int,
    hi: int,
    h: nat,
) -> bool {
    match r {
        Err(_) => {
            &&& lookup(old_n, key as int) is Some
            &&& node_wf(new_n, order, lo, hi, h)
            &&& forall|k: int| #[trigger] lookup(new_n, k) == lookup(old_n, k)
        },
        Ok(None) => {
            &&& lookup(old_n, key as int) is None
            &&& node_wf(new_n, order, lo, hi, h)
            &&& forall|k: int|
                lo <= k < hi ==> #[trigger] lookup(new_n, k) == updated(old_n, key, value, k)
        },
        Ok(Some((sep, right))) => {
            &&& lookup(old_n, key as int) is None
            &&& lo < sep < hi
            &&& node_wf(new_n, order, lo, sep as int, h)
            &&& node_wf(right, order, sep as int, hi, h)
            &&& forall|k: int|
                lo <= k < sep ==> #[trigger] lookup(new_n, k) == updated(old_n, key, value, k)
            &&& forall|k: int|
                sep <= k < hi ==> #[trigger] lookup(right, k) == updated(old_n, key, value, k)
        },
    }
}

/// Adding a separator `sep` and a new child `right` after child `c`, whose
/// contents `child` replaced, gives a node of one more key whose lookups follow
/// the new children.
proof fn lemma_absorb<V>(
    ks: Seq<i64>,
    cs: Seq<Box<BTreeNode<V>>>,
    c: int,
    child: BTreeNode<V>,
    sep: i64,
    right: BTreeNode<V>,
    order: int,
    lo: int,
    hi: int,
    h: nat,
)
    requires
        internal_wf(ks, cs, order, lo, hi, h),
        0 <= c <= ks.len(),
        lower(ks, lo, c) < sep < upper(ks, hi, c),
        node_wf(child, order, lower(ks, lo, c), sep as int, (h - 1) as nat),
        node_wf(right, order, sep as int, upper(ks, hi, c), (h - 1) as nat),
    ensures
        internal_wf(
            ks.insert(c, sep),
            cs.update(c, Box::new(child)).insert(c + 1, Box::new(right)),
            order + 1,
            lo,
            hi,
            h,
        ),
        forall|k: int|
            #[trigger] internal_lookup(
                ks.insert(c, sep),
                cs.update(c, Box::new(child)).insert(c + 1, Box::new(right)),
                k,
            ) == if cidx(ks, k) != c {
                internal_lookup(ks, cs, k)
            } else if k < sep {
                lookup(child, k)
            } else {
                lookup(right, k)
            },
{
    let nk = ks.insert(c, sep);
    let ncs = cs.update(c, Box::new(child)).insert(c + 1, Box::new(right));
    lemma_cidx_insert(ks, c, sep, lo, hi, 0);
    assert forall|i: int| 0 <= i < ncs.len() implies node_wf(
        *#[trigger] ncs[i],
        order + 1,
        lower(nk, lo, i),
        upper(nk, hi, i),
        (h - 1) as nat,
    ) by {
        if i < c {
            assert(ncs[i] == cs[i]);
            assert(lower(nk, lo, i) == lower(ks, lo, i));
            assert(upper(nk, hi, i) == upper(ks, hi, i));
            lemma_wf_order(*cs[i], order, lower(ks, lo, i), upper(ks, hi, i), (h - 1) as nat);
        } else if i > c + 1 {
            assert(ncs[i] == cs[i - 1]);
            assert(lower(nk, lo, i) == lower(ks, lo, i - 1));
            assert(upper(nk, hi, i) == upper(ks, hi, i - 1));
            lemma_wf_order(*cs[i - 1], order, lower(ks, lo, i - 1), upper(ks, hi, i - 1), (h - 1) as nat);
        } else if i == c {
            lemma_wf_order(child, order, lower(ks, lo, c), sep as int, (h - 1) as nat);
        } else {
            lemma_wf_order(right, order, sep as int, upper(ks, hi, c), (h - 1) as nat);
        }
    }
    assert forall|k: int|
        #[trigger] internal_lookup(nk, ncs, k) == if cidx(ks, k) != c {
            internal_lookup(ks, cs, k)
        } else if k < sep {
            lookup(child, k)
        } else {
            lookup(right, k)
        } by {
        lemma_cidx(ks, k);
        lemma_cidx_insert(ks, c, sep, lo, hi, k);
        let j = cidx(ks, k);
        if j < c {
            assert(ncs[j] == cs[j]);
        } else if j > c {
            assert(ncs[j + 1] == cs[j]);
        }
    }
}

/// A well-formed subtree stays well-formed under a larger order.
proof fn lemma_wf_order<V>(n: BTreeNode<V>, order: int, lo: int, hi: int, h: nat)
    requires
        node_wf(n, order, lo, hi, h),
    ensures
        node_wf(n, order + 1, lo, hi, h),
    decreases n,
{
    match n {
        BTreeNode::Internal(x) => {
            assert forall|i: int| 0 <= i < x.children@.len() implies node_wf(
                *#[trigger] x.children@[i],
                order + 1,
                lower(x.keys@, lo, i),
                upper(x.keys@, hi, i),
                (h - 1) as nat,
            ) by {
                lemma_wf_order(*x.children@[i], order, lower(x.keys@, lo, i), upper(x.keys@, hi, i), (h - 1) as nat);
            }
        },
        BTreeNode::Leaf(_) => {},
    }
}

/// Splitting an internal node around key `m`: the keys before it and the
/// children up to it on one side, the rest on the other, `ks[m]` between them.
proof fn lemma_internal_split<V>(
    ks: Seq<i64>,
    cs: Seq<Box<BTreeNode<V>>>,
    m: int,
    order: int,
    lo: int,
    hi: int,
    h: nat,
)
    requires
        internal_wf(ks, cs, order + 1, lo, hi, h),
        0 < m < ks.len(),
        m < order,
        ks.len() - m - 1 < order,
        forall|i: int|
            0 <= i < cs.len() ==> node_wf(
                *#[trigger] cs[i],
                order,
                lower(ks, lo, i),
                upper(ks, hi, i),
                (h - 1) as nat,
            ),
    ensures
        lo < ks[m] < hi,
        internal_wf(ks.subrange(0, m), cs.subrange(0, m + 1), order, lo, ks[m] as int, h),
        internal_wf(
            ks.subrange(m + 1, ks.len() as int),
            cs.subrange(m + 1, cs.len() as int),
            order,
            ks[m] as int,
            hi,
            h,
        ),
        forall|k: int|
            k < ks[m] ==> #[trigger] internal_lookup(ks.subrange(0, m), cs.subrange(0, m + 1), k)
                == internal_lookup(ks, cs, k),
        forall|k: int|
            k >= ks[m] ==> #[trigger] internal_lookup(
                ks.subrange(m + 1, ks.len() as int),
                cs.subrange(m + 1, cs.len() as int),
                k,
            ) == internal_lookup(ks, cs, k),
{
    let lk = ks.subrange(0, m);
    let rk = ks.subrange(m + 1, ks.len() as int);
    let lc = cs.subrange(0, m + 1);
    let rc = cs.subrange(m + 1, cs.len() as int);
    let mid = ks[m];
    lemma_cidx_split(ks, m, 0);
    assert(ks[0] < ks[m]);
    assert(keys_within(lk, lo, mid as int)) by {
        assert forall|i: int| 0 <= i < lk.len() implies lo <= #[trigger] lk[i] < mid by {
            assert(lk[i] == ks[i]);
            assert(ks[i] < ks[m]);
        }
    }
    assert(keys_within(rk, mid as int, hi)) by {
        assert forall|i: int| 0 <= i < rk.len() implies mid <= #[trigger] rk[i] < hi by {
            assert(rk[i] == ks[i + m + 1]);
            assert(ks[m] < ks[i + m + 1]);
        }
    }
    assert forall|i: int| 0 <= i < lc.len() implies node_wf(
        *#[trigger] lc[i],
        order,
        lower(lk, lo, i),
        upper(lk, mid as int, i),
        (h - 1) as nat,
    ) by {
        assert(lc[i] == cs[i]);
    }
    assert forall|i: int| 0 <= i < rc.len() implies node_wf(
        *#[trigger] rc[i],
        order,
        lower(rk, mid as int, i),
        upper(rk, hi, i),
        (h - 1) as nat,
    ) by {
        assert(rc[i] == cs[i + m + 1]);
    }
    assert forall|k: int| k < mid implies #[trigger] internal_lookup(lk, lc, k) == internal_lookup(
        ks,
        cs,
        k,
    ) by {
        lemma_cidx_split(ks, m, k);
        lemma_cidx(ks, k);
    }
    assert forall|k: int| k >= mid implies #[trigger] internal_lookup(rk, rc, k) == internal_lookup(
        ks,
        cs,
        k,
    ) by {
        lemma_cidx_split(ks, m, k);
        lemma_cidx(ks, k);
    }
}

fn insert_leaf<V>(leaf: &mut LeafNode<V>, key: i64, value: V, order: usize, Ghost(lo): Ghost<int>, Ghost(hi): Ghost<int>) -> (r: Result<Option<(i64, BTreeNode<V>)>, String>)
    requires
        order >= 3,
        node_wf(BTreeNode::Leaf(*old(leaf)), order as int, lo, hi, 0),
        lo <= key < hi,
    ensures
        insert_post(BTreeNode::Leaf(*old(leaf)), BTreeNode::Leaf(*final(leaf)), r, key, value, order as int, lo, hi, 0),
        leaf_shape(*old(leaf), r, order as int, key),
{
    let ghost ks = leaf.keys@;
    let ghost vs = leaf.values@;
    let c = upper_bound(&leaf.keys, key);
    proof {
        lemma_cidx(ks, key as int);
        lemma_leaf_lookup(ks, vs, key as int);
    }
    if c > 0 && leaf.keys[c - 1] == key {
        return Err("Value with given key already exists".to_string());
    }
    proof {
        lemma_leaf_insert(ks, vs, key, value, lo, hi);
    }
    let old_len = leaf.keys.len();
    leaf.keys.insert(c, key);
    leaf.values.insert(c, value);
    let ghost nk = leaf.keys@;
    let ghost nv = leaf.values@;
    if old_len + 1 >= order {
        let m = if old_len / 2 < c {
            (old_len + 1) / 2
        } else {
            old_len / 2 + 1
        };
        let right_keys = leaf.keys.split_off(m);
        let right_values = leaf.values.split_off(m);
        let sep = right_keys[0];
        proof {
            lemma_leaf_split(nk, nv, m as int);
            assert(nk[0] < nk[m as int]);
            assert(nk[c as int] == key);
            if c < m {
                assert(nk[c as int] < nk[m as int]);
            } else if c > m {
                assert(nk[m as int] < nk[c as int]);
            }
            assert(keys_within(leaf.keys@, lo, sep as int)) by {
                assert forall|i: int| 0 <= i < leaf.keys@.len() implies lo <= #[trigger] leaf.keys@[i] < sep by {
                    assert(nk[i] < nk[m as int]);
                }
            }
            assert(keys_within(right_keys@, sep as int, hi)) by {
                assert forall|i: int| 0 <= i < right_keys@.len() implies sep <= #[trigger] right_keys@[i] < hi by {
                    if i > 0 {
                        assert(nk[m as int] < nk[i + m]);
                    }
                }
            }
        }
        Ok(Some((sep, BTreeNode::Leaf(LeafNode { keys: right_keys, values: right_values }))))
    } else {
        Ok(None)
    }
}

#[verifier::rlimit(100)]
fn insert_internal<V>(internal: &mut InternalNode<V>, key: i64, value: V, order: usize, Ghost(lo): Ghost<int>, Ghost(hi): Ghost<int>, Ghost(h): Ghost<nat>) -> (r: Result<Option<(i64, BTreeNode<V>)>, String>)
    requires
        order >= 3,
        node_wf(BTreeNode::Internal(*old(internal)), order as int, lo, hi, h),
        lo <= key < hi,
    ensures
        insert_post(BTreeNode::Internal(*old(internal)), BTreeNode::Internal(*final(internal)), r, key, value, order as int, lo, hi, h),
    decreases h, 0nat,
{
    let ghost ks = internal.keys@;
    let ghost cs = internal.children@;
    let ghost old_node = BTreeNode::Internal(*internal);
    let c = upper_bound(&internal.keys, key);
    proof {
        lemma_cidx(ks, key as int);
        assert(node_wf(*cs[c as int], order as int, lower(ks, lo, c as int), upper(ks, hi, c as int), (h - 1) as nat));
    }
    let child_box = internal.children.remove(c);
    let mut child: BTreeNode<V> = *child_box;
    let ghost old_child = child;
    assert(old_child == *cs[c as int]);
    let res = insert_in(&mut child, key, value, order, Ghost(lower(ks, lo, c as int)), Ghost(upper(ks, hi, c as int)), Ghost((h - 1) as nat));
    match res {
        Err(e) => {
            internal.children.insert(c, Box::new(child));
            proof {
                assert(internal.children@ =~= cs.update(c as int, Box::new(child)));
                lemma_replace_child(ks, cs, c as int, child, order as int, lo, hi, h);
                assert forall|k: int| #[trigger] lookup(BTreeNode::Internal(*internal), k) == lookup(old_node, k) by {
                    if cidx(ks, k) == c {
                        assert(lookup(child, k) == lookup(old_child, k));
                    }
                }
            }
            Err(e)
        },
        Ok(None) => {
            internal.children.insert(c, Box::new(child));
            proof {
                assert(internal.children@ =~= cs.update(c as int, Box::new(child)));
                lemma_replace_child(ks, cs, c as int, child, order as int, lo, hi, h);
                assert forall|k: int| lo <= k < hi implies #[trigger] lookup(BTreeNode::Internal(*internal), k) == updated(old_node, key, value, k) by {
                    lemma_cidx(ks, k);
                    if cidx(ks, k) == c {
                        assert(lower(ks, lo, c as int) <= k < upper(ks, hi, c as int));
                        assert(lookup(child, k) == updated(old_child, key, value, k));
                    }
                }
            }
            Ok(None)
        },
        Ok(Some((sep, right))) => {
            let ghost new_child = child;
            internal.children.insert(c, Box::new(child));
            proof {
                assert(internal.children@ =~= cs.update(c as int, Box::new(new_child)));
                assert(internal.keys@ == ks);
            }
            let split = absorb(internal, c, sep, right, order, Ghost(lo), Ghost(hi), Ghost(h), Ghost(cs), Ghost(new_child));
            proof {
                assert forall|k: int| lo <= k < hi implies #[trigger] absorbed(ks, cs, c as int, new_child, sep, right, k) == updated(old_node, key, value, k) by {
                    lemma_cidx(ks, k);
                    if cidx(ks, k) == c {
                        assert(lower(ks, lo, c as int) <= k < upper(ks, hi, c as int));
                    }
                }
            }
            Ok(split)
        },
    }
}

/// Lookup in a node where child `c` was replaced by `child` and a separator
/// `sep` with the new child `right` was added after it.
pub open spec fn absorbed<V>(
    ks: Seq<i64>,
    cs: Seq<Box<BTreeNode<V>>>,
    c: int,
    child: BTreeNode<V>,
    sep: i64,
    right: BTreeNode<V>,
    k: int,
) -> Option<V> {
    if cidx(ks, k) != c {
        internal_lookup(ks, cs, k)
    } else if k < sep {
        lookup(child, k)
    } else {
        lookup(right, k)
    }
}

/// What `absorb` achieves: a well-formed node over `[lo, hi)`, or two split at
/// `mid`, whose lookups agree with `absorbed`.
pub open spec fn absorb_post<V>(
    new_n: BTreeNode<V>,
    r: Option<(i64, BTreeNode<V>)>,
    ks: Seq<i64>,
    cs: Seq<Box<BTreeNode<V>>>,
    c: int,
    child: BTreeNode<V>,
    sep: i64,
    right: BTreeNode<V>,
    order: int,
    lo: int,
    hi: int,
    h: nat,
) -> bool {
    match r {
        None => {
            &&& node_wf(new_n, order, lo, hi, h)
            &&& forall|k: int|
                #[trigger] lookup(new_n, k) == absorbed(ks, cs, c, child, sep, right, k)
        },
        Some((mid, rn)) => {
            &&& lo < mid < hi
            &&& node_wf(new_n, order, lo, mid as int, h)
            &&& node_wf(rn, order, mid as int, hi, h)
            &&& forall|k: int|
                k < mid ==> #[trigger] lookup(new_n, k) == absorbed(ks, cs, c, child, sep, right, k)
            &&& forall|k: int|
                k >= mid ==> #[trigger] lookup(rn, k) == absorbed(ks, cs, c, child, sep, right, k)
        },
    }
}

/// Adds the separator `sep` and the child `right` after child `c`, and splits the
/// node when it then holds `order` keys.
#[verifier::rlimit(100)]
fn absorb<V>(
    internal: &mut InternalNode<V>,
    c: usize,
    sep: i64,
    right: BTreeNode<V>,
    order: usize,
    Ghost(lo): Ghost<int>,
    Ghost(hi): Ghost<int>,
    Ghost(h): Ghost<nat>,
    Ghost(cs): Ghost<Seq<Box<BTreeNode<V>>>>,
    Ghost(child): Ghost<BTreeNode<V>>,
) -> (r: Option<(i64, BTreeNode<V>)>)
    requires
        order >= 3,
        internal_wf(old(internal).keys@, cs, order as int, lo, hi, h),
        old(internal).children@ == cs.update(c as int, Box::new(child)),
        0 <= c <= old(internal).keys@.len(),
        lower(old(internal).keys@, lo, c as int) < sep < upper(old(internal).keys@, hi, c as int),
        node_wf(child, order as int, lower(old(internal).keys@, lo, c as int), sep as int, (h - 1) as nat),
        node_wf(right, order as int, sep as int, upper(old(internal).keys@, hi, c as int), (h - 1) as nat),
    ensures
        absorb_post(
            BTreeNode::Internal(*final(internal)),
            r,
            old(internal).keys@,
            cs,
            c as int,
            child,
            sep,
            right,
            order as int,
            lo,
            hi,
            h,
        ),
{
    let ghost ks = internal.keys@;
    let old_len = internal.keys.len();
    internal.keys.insert(c, sep);
    internal.children.insert(c + 1, Box::new(right));
    let ghost nk = internal.keys@;
    let ghost ncs = internal.children@;
    proof {
        assert(ncs =~= cs.update(c as int, Box::new(child)).insert(c + 1, Box::new(right)));
        lemma_absorb(ks, cs, c as int, child, sep, right, order as int, lo, hi, h);
        assert forall|k: int| #[trigger] internal_lookup(nk, ncs, k) == absorbed(ks, cs, c as int, child, sep, right, k) by {
        }
    }
    if old_len + 1 >= order {
        let s = (old_len + 1) / 2;
        let m = if c >= s {
            s
        } else {
            s + 1
        };
        let mut right_keys = internal.keys.split_off(m);
        let right_children = internal.children.split_off(m + 1);
        let middle = right_keys.remove(0);
        proof {
            assert(internal.keys@ =~= nk.subrange(0, m as int));
            assert(right_keys@ =~= nk.subrange(m + 1, nk.len() as int));
            assert(internal.children@ =~= ncs.subrange(0, m + 1));
            assert(right_children@ =~= ncs.subrange(m + 1, ncs.len() as int));
            assert forall|i: int| 0 <= i < ncs.len() implies node_wf(
                *#[trigger] ncs[i],
                order as int,
                lower(nk, lo, i),
                upper(nk, hi, i),
                (h - 1) as nat,
            ) by {
                lemma_absorb_children(ks, cs, c as int, child, sep, right, order as int, lo, hi, h, i);
            }
            lemma_internal_split(nk, ncs, m as int, order as int, lo, hi, h);
        }
        let rn = BTreeNode::Internal(InternalNode { keys: right_keys, children: right_children });
        proof {
            let lk = nk.subrange(0, m as int);
            let rk = nk.subrange(m + 1, nk.len() as int);
            let lc = ncs.subrange(0, m + 1);
            let rc = ncs.subrange(m + 1, ncs.len() as int);
            assert forall|k: int| k < middle implies #[trigger] lookup(BTreeNode::Internal(*internal), k) == absorbed(ks, cs, c as int, child, sep, right, k) by {
                assert(internal_lookup(lk, lc, k) == internal_lookup(nk, ncs, k));
                assert(internal_lookup(nk, ncs, k) == absorbed(ks, cs, c as int, child, sep, right, k));
            }
            assert forall|k: int| k >= middle implies #[trigger] lookup(rn, k) == absorbed(ks, cs, c as int, child, sep, right, k) by {
                assert(internal_lookup(rk, rc, k) == internal_lookup(nk, ncs, k));
                assert(internal_lookup(nk, ncs, k) == absorbed(ks, cs, c as int, child, sep, right, k));
            }
        }
        Some((middle, rn))
    } else {
        proof {
            assert forall|i: int| 0 <= i < ncs.len() implies node_wf(
                *#[trigger] ncs[i],
                order as int,
                lower(nk, lo, i),
                upper(nk, hi, i),
                (h - 1) as nat,
            ) by {
                lemma_absorb_children(ks, cs, c as int, child, sep, right, order as int, lo, hi, h, i);
            }
            assert(internal.keys@ == nk);
            assert(internal.children@ == ncs);
            assert(internal_wf(nk, ncs, order as int, lo, hi, h));
            assert(node_wf(BTreeNode::Internal(*internal), order as int, lo, hi, h));
            assert forall|k: int| #[trigger] lookup(BTreeNode::Internal(*internal), k) == absorbed(ks, cs, c as int, child, sep, right, k) by {
                assert(internal_lookup(nk, ncs, k) == absorbed(ks, cs, c as int, child, sep, right, k));
            }
        }
        None
    }
}

/// Replacing child `c` by a well-formed subtree over the same range keeps the
/// node well-formed; lookups that lead elsewhere are unchanged.
proof fn lemma_replace_child<V>(
    ks: Seq<i64>,
    cs: Seq<Box<BTreeNode<V>>>,
    c: int,
    child: BTreeNode<V>,
    order: int,
    lo: int,
    hi: int,
    h: nat,
)
    requires
        internal_wf(ks, cs, order, lo, hi, h),
        0 <= c < cs.len(),
        node_wf(child, order, lower(ks, lo, c), upper(ks, hi, c), (h - 1) as nat),
    ensures
        internal_wf(ks, cs.update(c, Box::new(child)), order, lo, hi, h),
        forall|k: int|
            #[trigger] internal_lookup(ks, cs.update(c, Box::new(child)), k) == if cidx(ks, k) == c {
                lookup(child, k)
            } else {
                internal_lookup(ks, cs, k)
            },
{
    let ncs = cs.update(c, Box::new(child));
    assert forall|i: int| 0 <= i < ncs.len() implies node_wf(
        *#[trigger] ncs[i],
        order,
        lower(ks, lo, i),
        upper(ks, hi, i),
        (h - 1) as nat,
    ) by {
        if i != c {
            assert(ncs[i] == cs[i]);
        }
    }
    assert forall|k: int|
        #[trigger] internal_lookup(ks, ncs, k) == if cidx(ks, k) == c {
            lookup(child, k)
        } else {
            internal_lookup(ks, cs, k)
        } by {
        lemma_cidx(ks, k);
    }
}

/// After `lemma_absorb`, each child is still well-formed under the node's own order.
proof fn lemma_absorb_children<V>(
    ks: Seq<i64>,
    cs: Seq<Box<BTreeNode<V>>>,
    c: int,
    child: BTreeNode<V>,
    sep: i64,
    right: BTreeNode<V>,
    order: int,
    lo: int,
    hi: int,
    h: nat,
    i: int,
)
    requires
        internal_wf(ks, cs, order, lo, hi, h),
        0 <= c <= ks.len(),
        lower(ks, lo, c) < sep < upper(ks, hi, c),
        node_wf(child, order, lower(ks, lo, c), sep as int, (h - 1) as nat),
        node_wf(right, order, sep as int, upper(ks, hi, c), (h - 1) as nat),
        0 <= i < cs.len() + 1,
    ensures
        node_wf(
            *cs.update(c, Box::new(child)).insert(c + 1, Box::new(right))[i],
            order,
            lower(ks.insert(c, sep), lo, i),
            upper(ks.insert(c, sep), hi, i),
            (h - 1) as nat,
        ),
{
    let nk = ks.insert(c, sep);
    let ncs = cs.update(c, Box::new(child)).insert(c + 1, Box::new(right));
    if i < c {
        assert(ncs[i] == cs[i]);
        assert(lower(nk, lo, i) == lower(ks, lo, i));
        assert(upper(nk, hi, i) == upper(ks, hi, i));
    } else if i > c + 1 {
        assert(ncs[i] == cs[i - 1]);
        assert(lower(nk, lo, i) == lower(ks, lo, i - 1));
        assert(upper(nk, hi, i) == upper(ks, hi, i - 1));
    }
}

fn insert_in<V>(
    n: &mut BTreeNode<V>,
    key: i64,
    value: V,
    order: usize,
    Ghost(lo): Ghost<int>,
    Ghost(hi): Ghost<int>,
    Ghost(h): Ghost<nat>,
) -> (r: Result<Option<(i64, BTreeNode<V>)>, String>)
    requires
        order >= 3,
        node_wf(*old(n), order as int, lo, hi, h),
        lo <= key < hi,
    ensures
        insert_post(*old(n), *final(n), r, key, value, order as int, lo, hi, h),
        (*old(n) is Leaf) ==> (*final(n) is Leaf && leaf_shape(old(n)->Leaf_0, r, order as int, key)),
    decreases h, 1nat,
{
    match n {
        BTreeNode::Leaf(leaf) => insert_leaf(leaf, key, value, order, Ghost(lo), Ghost(hi)),
        BTreeNode::Internal(internal) => insert_internal(internal, key, value, order, Ghost(lo), Ghost(hi), Ghost(h)),
    }
}

/// The number of keys of a root that is a leaf.
pub open spec fn root_leaf_len<V>(root: BTreeNode<V>) -> int {
    match root {
        BTreeNode::Leaf(l) => l.keys@.len() as int,
        BTreeNode::Internal(_) => -1,
    }
}

/// A root just grown by a split leaf: one key, two children, the key being the
/// first key of the right child, a leaf.
pub open spec fn split_root_shape<V>(root: BTreeNode<V>) -> bool {
    match root {
        BTreeNode::Internal(x) => {
            &&& x.keys@.len() == 1
            &&& x.children@.len() == 2
            &&& match *x.children@[1] {
                BTreeNode::Leaf(rl) => rl.keys@.len() > 0 && rl.keys@[0] == x.keys@[0],
                BTreeNode::Internal(_) => false,
            }
        },
        BTreeNode::Leaf(_) => false,
    }
}

/// Insertion fails exactly when the key is present; otherwise the key maps to
/// the new value and every other key keeps its value.
pub open spec fn insert_effect<V>(
    t: &BTree<V>,
    t2: &BTree<V>,
    r: Result<(), String>,
    key: i64,
    value: V,
) -> bool {
    &&& r is Err <==> t.spec_get(key as int) is Some
    &&& forall|k: int|
        #[trigger] t2.spec_get(k) == if r is Ok && k == key {
            Some(value)
        } else {
            t.spec_get(k)
        }
}

/// A root leaf with room stays a leaf; a full root leaf splits into a new root
/// with one key, the first key of the new right leaf, and the new key lands in
/// the half that `lands_left` says.
pub open spec fn split_effect<V>(t: &BTree<V>, t2: &BTree<V>, r: Result<(), String>, key: i64) -> bool {
    r is Ok && t.root is Leaf ==> if root_leaf_len(t.root) + 1 < t.order {
        t2.root is Leaf
    } else {
        &&& split_root_shape(t2.root)
        &&& (key < t2.root->Internal_0.keys@[0] <==> lands_left(t.root->Leaf_0.keys@, key))
    }
}

/// A key outside a subtree's range is not found in it.
proof fn lemma_lookup_out_of_range<V>(n: BTreeNode<V>, order: int, lo: int, hi: int, h: nat, k: int)
    requires
        node_wf(n, order, lo, hi, h),
        k < lo || k >= hi,
    ensures
        lookup(n, k) is None,
    decreases n,
{
    match n {
        BTreeNode::Leaf(l) => {
            lemma_cidx(l.keys@, k);
            let c = cidx(l.keys@, k);
            if 0 < c {
                assert(lo <= l.keys@[c - 1] < hi);
            }
        },
        BTreeNode::Internal(x) => {
            lemma_cidx(x.keys@, k);
            let c = cidx(x.keys@, k);
            assert(node_wf(*x.children@[c], order, lower(x.keys@, lo, c), upper(x.keys@, hi, c), (h - 1) as nat));
            if k < lo {
                if c > 0 {
                    assert(lo <= x.keys@[c - 1]);
                }
            } else {
                if c < x.keys@.len() {
                    assert(x.keys@[c] < hi);
                }
            }
            lemma_lookup_out_of_range(*x.children@[c], order, lower(x.keys@, lo, c), upper(x.keys@, hi, c), (h - 1) as nat, k);
        },
    }
}

/// Whether deletion finds `key`: it descends to the child whose first key is the
/// greatest one at or below `key`, and looks for `key` in the leaf it reaches.
pub open spec fn delete_finds<V>(n: BTreeNode<V>, key: int) -> bool
    decreases n,
{
    match n {
        BTreeNode::Leaf(l) => exists|i: int| 0 <= i < l.keys@.len() && l.keys@[i] == key,
        BTreeNode::Internal(x) => {
            let c = floor_index(x.keys@, key);
            0 <= c < x.children@.len() && delete_finds(*x.children@[c], key)
        },
    }
}

/// The position of the last key at or below `k`, or -1 when there is none; for
/// keys in no particular order, the last position scanning backward from the end
/// whose key is at or below `k`.
pub open spec fn floor_index(ks: Seq<i64>, k: int) -> int
    decreases ks.len(),
{
    if ks.len() == 0 {
        -1
    } else if ks.last() <= k {
        ks.len() - 1
    } else {
        floor_index(ks.drop_last(), k)
    }
}

/// `floor_index` by a backward scan.
fn floor_position(ks: &Vec<i64>, k: i64) -> (r: Option<usize>)
    ensures
        r matches Some(i) ==> i == floor_index(ks@, k as int),
        r is None ==> floor_index(ks@, k as int) == -1,
{
    let mut i = ks.len();
    assert(ks@.subrange(0, i as int) =~= ks@);
    while i > 0
        invariant
            i <= ks@.len(),
            floor_index(ks@, k as int) == floor_index(ks@.subrange(0, i as int), k as int),
        decreases i,
    {
        let ghost pre = ks@.subrange(0, i as int);
        assert(pre.drop_last() =~= ks@.subrange(0, i - 1));
        if ks[i - 1] <= k {
            return Some(i - 1);
        }
        i -= 1;
    }
    None
}

/// The first position that holds `k`.
pub open spec fn first_index(ks: Seq<i64>, k: int) -> int {
    choose|i: int| 0 <= i < ks.len() && ks[i] == k && forall|j: int| 0 <= j < i ==> ks[j] != k
}

/// The keys and values of a leaf; nothing for an internal node.
pub open spec fn leaf_pair<V>(n: BTreeNode<V>) -> (Seq<i64>, Seq<V>) {
    match n {
        BTreeNode::Leaf(l) => (l.keys@, l.values@),
        BTreeNode::Internal(_) => (Seq::empty(), Seq::empty()),
    }
}

/// The children of a node whose children are leaves, as key and value sequences.
pub open spec fn kids<V>(cs: Seq<Box<BTreeNode<V>>>) -> Seq<(Seq<i64>, Seq<V>)> {
    cs.map_values(|c: Box<BTreeNode<V>>| leaf_pair(*c))
}

pub open spec fn all_leaves<V>(cs: Seq<Box<BTreeNode<V>>>) -> bool {
    forall|i: int| 0 <= i < cs.len() ==> (*#[trigger] cs[i]) is Leaf
}

/// A leaf without the entry at `i`.
pub open spec fn without<V>(p: (Seq<i64>, Seq<V>), i: int) -> (Seq<i64>, Seq<V>) {
    (p.0.remove(i), if i < p.1.len() { p.1.remove(i) } else { p.1 })
}

/// The separators and leaves of a node after the leaf at `pos`, left with `len`
/// entries by a removal, is restored as `rebalance_choice` decides.
pub open spec fn rebalanced<V>(
    ks: Seq<i64>,
    kd: Seq<(Seq<i64>, Seq<V>)>,
    pos: int,
    len: usize,
    was_first: bool,
    u: usize,
) -> (Seq<i64>, Seq<(Seq<i64>, Seq<V>)>) {
    let left = if pos > 0 { Some(kd[pos - 1].1.len() as usize) } else { None };
    let right = if pos + 1 < kd.len() { Some(kd[pos + 1].1.len() as usize) } else { None };
    match rebalance_choice(len, left, right, u) {
        Rebalance::Keep => if len >= u && was_first && pos < ks.len() && kd[pos].0.len() > 0 {
            (ks.update(pos, kd[pos].0[0]), kd)
        } else {
            (ks, kd)
        },
        Rebalance::BorrowLeft => {
            let l = kd[pos - 1];
            let c = kd[pos];
            if l.0.len() > 0 && l.1.len() > 0 {
                (
                    if pos < ks.len() { ks.update(pos, l.0.last()) } else { ks },
                    kd.update(pos - 1, (l.0.drop_last(), l.1.drop_last())).update(
                        pos,
                        (seq![l.0.last()] + c.0, seq![l.1.last()] + c.1),
                    ),
                )
            } else {
                (ks, kd)
            }
        },
        Rebalance::BorrowRight => {
            let c = kd[pos];
            let r = kd[pos + 1];
            if r.0.len() > 0 && r.1.len() > 0 {
                let c0 = c.0.push(r.0[0]);
                let r0 = r.0.drop_first();
                let ks1 = if pos < ks.len() { ks.update(pos, c0[0]) } else { ks };
                let ks2 = if pos + 1 < ks.len() && r0.len() > 0 { ks1.update(pos + 1, r0[0]) } else { ks1 };
                (ks2, kd.update(pos, (c0, c.1.push(r.1[0]))).update(pos + 1, (r0, r.1.drop_first())))
            } else {
                (ks, kd)
            }
        },
        Rebalance::MergeLeft => {
            let l = kd[pos - 1];
            let c = kd[pos];
            (
                if pos < ks.len() { ks.remove(pos) } else { ks },
                kd.update(pos - 1, (l.0 + c.0, l.1 + c.1)).remove(pos),
            )
        },
        Rebalance::MergeRight => {
            let c = kd[pos];
            let r = kd[pos + 1];
            let m0 = c.0 + r.0;
            let ks1 = if pos + 1 < ks.len() && m0.len() > 0 { ks.update(pos + 1, m0[0]) } else { ks };
            (
                if pos < ks.len() { ks1.remove(pos) } else { ks1 },
                kd.update(pos, (m0, c.1 + r.1)).remove(pos + 1),
            )
        },
    }
}

/// The separators and leaves of a node whose children are leaves, after `key` is
/// deleted from the leaf that the deletion path reaches and that leaf is restored.
pub open spec fn deleted<V>(ks: Seq<i64>, kd: Seq<(Seq<i64>, Seq<V>)>, key: int, u: usize) -> (
    Seq<i64>,
    Seq<(Seq<i64>, Seq<V>)>,
) {
    let c = floor_index(ks, key);
    let i = first_index(kd[c].0, key);
    let rest = without(kd[c], i);
    rebalanced(ks, kd.update(c, rest), c, rest.0.len() as usize, i == 0, u)
}

/// What a successful deletion does to a root leaf (removes the entry) and to a
/// root whose children are leaves (removes the entry from the leaf reached and
/// restores that leaf as `rebalanced` says).
pub open spec fn delete_effect<V>(old_root: BTreeNode<V>, new_root: BTreeNode<V>, key: int, u: usize) -> bool {
    match old_root {
        BTreeNode::Leaf(l) => new_root is Leaf && leaf_pair(new_root) == without(
            (l.keys@, l.values@),
            first_index(l.keys@, key),
        ),
        BTreeNode::Internal(x) => all_leaves(x.children@) ==> match new_root {
            BTreeNode::Internal(y) => (y.keys@, kids(y.children@)) == deleted(
                x.keys@,
                kids(x.children@),
                key,
                u,
            ),
            BTreeNode::Leaf(_) => false,
        },
    }
}

/// Position of `key` in a leaf's keys, by a forward scan.
fn position_in(ks: &Vec<i64>, key: i64) -> (r: Option<usize>)
    ensures
        r matches Some(i) ==> i < ks@.len() && ks@[i as int] == key && i == first_index(
            ks@,
            key as int,
        ),
        r is None ==> forall|i: int| 0 <= i < ks@.len() ==> ks@[i] != key,
{
    let mut i: usize = 0;
    while i < ks.len()
        invariant
            i <= ks@.len(),
            forall|j: int| 0 <= j < i ==> ks@[j] != key,
        decreases ks@.len() - i,
    {
        if ks[i] == key {
            proof {
                let f = first_index(ks@, key as int);
                assert(0 <= i < ks@.len() && ks@[i as int] == key && forall|j: int|
                    0 <= j < i ==> ks@[j] != key);
                if f != i {
                    if f < i {
                    } else {
                        assert(ks@[i as int] != key);
                    }
                }
            }
            return Some(i);
        }
        i += 1;
    }
    None
}

fn delete_finds_exec<V>(n: &BTreeNode<V>, key: i64) -> (r: bool)
    ensures
        r == delete_finds(*n, key as int),
    decreases n,
{
    match n {
        BTreeNode::Leaf(leaf) => position_in(&leaf.keys, key).is_some(),
        BTreeNode::Internal(internal) => match floor_position(&internal.keys, key) {
            Some(c) => if c < internal.children.len() {
                delete_finds_exec(&internal.children[c], key)
            } else {
                false
            },
            None => false,
        },
    }
}

/// Removes `key` from the leaf that the deletion path reaches, and rebalances
/// that leaf against its siblings in its parent. Returns, for a leaf, its new
/// number of entries and whether the removed entry was its first.
#[verifier::rlimit(100)]
fn remove_from<V>(n: &mut BTreeNode<V>, key: i64, underflow: usize) -> (r: Option<(usize, bool)>)
    ensures
        (*old(n) is Leaf && delete_finds(*old(n), key as int)) ==> ({
            let i = first_index(leaf_pair(*old(n)).0, key as int);
            &&& *final(n) is Leaf
            &&& 0 <= i < leaf_pair(*old(n)).0.len()
            &&& leaf_pair(*final(n)) == without(leaf_pair(*old(n)), i)
            &&& r matches Some(p) && p.0 as int == leaf_pair(*final(n)).0.len() && p.1 == (i == 0)
        }),
        (*old(n) matches BTreeNode::Internal(x) && all_leaves(x.children@) && delete_finds(
            *old(n),
            key as int,
        )) ==> (*final(n) matches BTreeNode::Internal(y) && (y.keys@, kids(y.children@)) == deleted(
            old(n)->Internal_0.keys@,
            kids(old(n)->Internal_0.children@),
            key as int,
            underflow,
        )),
    decreases *old(n),
{
    match n {
        BTreeNode::Leaf(leaf) => {
            match position_in(&leaf.keys, key) {
                Some(i) => {
                    leaf.keys.remove(i);
                    if i < leaf.values.len() {
                        leaf.values.remove(i);
                    }
                    Some((leaf.keys.len(), i == 0))
                },
                None => None,
            }
        },
        BTreeNode::Internal(internal) => {
            let c = match floor_position(&internal.keys, key) {
                Some(c) => c,
                None => return None,
            };
            if c >= internal.children.len() {
                return None;
            }
            let ghost ks = internal.keys@;
            let ghost cs = internal.children@;
            let mut child = *internal.children.remove(c);
            let ghost old_child = child;
            let res = remove_from(&mut child, key, underflow);
            internal.children.insert(c, Box::new(child));
            proof {
                assert(internal.children@ =~= cs.update(c as int, Box::new(child)));
                if all_leaves(cs) && delete_finds(BTreeNode::Internal(old(n)->Internal_0), key as int) {
                    assert(old_child == *cs[c as int]);
                    assert(old_child is Leaf);
                    assert(delete_finds(old_child, key as int));
                    assert(child is Leaf);
                    assert(forall|j: int| 0 <= j < internal.children@.len() && j != c ==> internal.children@[j] == cs[j]);
                    assert(all_leaves(internal.children@));
                    assert(kids(internal.children@) =~= kids(cs).update(c as int, leaf_pair(child)));
                    assert(kids(cs)[c as int] == leaf_pair(old_child));
                }
            }
            let ghost mid_cs = internal.children@;
            let ghost mid_ks = internal.keys@;
            if let Some((len, was_first)) = res {
                rebalance_leaf(internal, c, len, was_first, underflow);
                proof {
                    if all_leaves(cs) && delete_finds(BTreeNode::Internal(old(n)->Internal_0), key as int) {
                        let kd = kids(cs);
                        let i = first_index(kd[c as int].0, key as int);
                        assert(kd[c as int] == leaf_pair(old_child));
                        assert(leaf_pair(child) == without(kd[c as int], i));
                        assert(kids(mid_cs) == kd.update(c as int, without(kd[c as int], i)));
                        assert(mid_ks == ks);
                        assert(c == floor_index(ks, key as int));
                        assert(all_leaves(mid_cs));
                        assert(res.unwrap().0 == len);
                        assert(len as int == without(kd[c as int], i).0.len());
                        assert(was_first == (i == 0));
                        assert((internal.keys@, kids(internal.children@)) == deleted(ks, kd, key as int, underflow));
                    }
                }
            }
            None
        },
    }
}

fn into_leaf<V>(n: BTreeNode<V>) -> (r: LeafNode<V>)
    requires
        n is Leaf,
    ensures
        n == BTreeNode::Leaf(r),
{
    match n {
        BTreeNode::Leaf(l) => l,
        BTreeNode::Internal(_) => LeafNode { keys: Vec::new(), values: Vec::new() },
    }
}

/// How a leaf is restored after a removal.
#[derive(Clone, Copy, Debug, PartialEq, Eq, Structural)]
pub enum Rebalance {
    /// No underflow: at most the separator is refreshed.
    Keep,
    BorrowLeft,
    BorrowRight,
    MergeLeft,
    MergeRight,
}

/// The policy for a leaf left with `len` entries, whose left and right siblings,
/// when they are leaves, hold `left` and `right` entries: no change without
/// underflow (fewer than `underflow` entries); else borrow from the left sibling
/// if it has a surplus, else from the right one, else merge with the left
/// sibling, else with the right one.
pub open spec fn rebalance_choice(
    len: usize,
    left: Option<usize>,
    right: Option<usize>,
    underflow: usize,
) -> Rebalance {
    if len >= underflow {
        Rebalance::Keep
    } else if left matches Some(l) && l > underflow {
        Rebalance::BorrowLeft
    } else if right matches Some(r) && r > underflow {
        Rebalance::BorrowRight
    } else if left is Some {
        Rebalance::MergeLeft
    } else if right is Some {
        Rebalance::MergeRight
    } else {
        Rebalance::Keep
    }
}

/// See `rebalance_choice`.
pub fn rebalance_action(len: usize, left: Option<usize>, right: Option<usize>, underflow: usize) -> (r:
    Rebalance)
    ensures
        r == rebalance_choice(len, left, right, underflow),
{
    if len >= underflow {
        return Rebalance::Keep;
    }
    if let Some(l) = left {
        if l > underflow {
            return Rebalance::BorrowLeft;
        }
    }
    if let Some(r) = right {
        if r > underflow {
            return Rebalance::BorrowRight;
        }
    }
    if left.is_some() {
        Rebalance::MergeLeft
    } else if right.is_some() {
        Rebalance::MergeRight
    } else {
        Rebalance::Keep
    }
}

/// The number of entries of a child that is a leaf.
fn leaf_size<V>(n: &BTreeNode<V>) -> (r: Option<usize>)
    ensures
        r is Some <==> n is Leaf,
        r matches Some(x) ==> x == leaf_pair(*n).1.len(),
{
    match n {
        BTreeNode::Leaf(l) => Some(l.values.len()),
        BTreeNode::Internal(_) => None,
    }
}

/// Restores the leaf at child position `pos`, left with `len` entries by a
/// removal, as `rebalance_choice` decides.
#[verifier::rlimit(100)]
fn rebalance_leaf<V>(parent: &mut InternalNode<V>, pos: usize, len: usize, was_first: bool, underflow: usize)
    requires
        pos < old(parent).children@.len(),
    ensures
        all_leaves(old(parent).children@) ==> all_leaves(final(parent).children@) && (
        final(parent).keys@,
        kids(final(parent).children@),
        ) == rebalanced(
            old(parent).keys@,
            kids(old(parent).children@),
            pos as int,
            len,
            was_first,
            underflow,
        ),
{
    let ghost ks = parent.keys@;
    let ghost cs = parent.children@;
    let ghost kd = kids(cs);
    if leaf_size(&parent.children[pos]).is_none() {
        return;
    }
    let left = if pos > 0 {
        leaf_size(&parent.children[pos - 1])
    } else {
        None
    };
    let nc = parent.children.len();
    let right = if pos < nc - 1 {
        leaf_size(&parent.children[pos + 1])
    } else {
        None
    };
    proof {
        if all_leaves(cs) {
            if pos > 0 {
                assert(kd[pos - 1] == leaf_pair(*cs[pos - 1]));
            }
            if pos + 1 < cs.len() {
                assert(kd[pos + 1] == leaf_pair(*cs[pos + 1]));
            }
            assert(kd[pos as int] == leaf_pair(*cs[pos as int]));
        }
    }
    match rebalance_action(len, left, right, underflow) {
        Rebalance::Keep => {
            if len >= underflow && was_first && pos < parent.keys.len() {
                if let BTreeNode::Leaf(l) = &*parent.children[pos] {
                    if l.keys.len() > 0 {
                        let k = l.keys[0];
                        parent.keys.set(pos, k);
                    }
                }
            }
            proof {
                assert(parent.children@ == cs);
            }
        },
        Rebalance::BorrowLeft => {
            let mut left = into_leaf(*parent.children.remove(pos - 1));
            let mut cur = into_leaf(*parent.children.remove(pos - 1));
            let ghost l0 = left;
            let ghost c0 = cur;
            if left.keys.len() > 0 && left.values.len() > 0 {
                let bk = left.keys.pop().unwrap();
                let bv = left.values.pop().unwrap();
                if pos < parent.keys.len() {
                    parent.keys.set(pos, bk);
                }
                cur.keys.insert(0, bk);
                cur.values.insert(0, bv);
                proof {
                    assert(cur.keys@ =~= seq![bk] + c0.keys@);
                    assert(cur.values@ =~= seq![bv] + c0.values@);
                    assert(left.keys@ =~= l0.keys@.drop_last());
                    assert(left.values@ =~= l0.values@.drop_last());
                }
            }
            parent.children.insert(pos - 1, Box::new(BTreeNode::Leaf(cur)));
            parent.children.insert(pos - 1, Box::new(BTreeNode::Leaf(left)));
            proof {
                let nc = parent.children@;
                assert(nc =~= cs.update(pos - 1, Box::new(BTreeNode::Leaf(left))).update(
                    pos as int,
                    Box::new(BTreeNode::Leaf(cur)),
                ));
                if all_leaves(cs) {
                    assert(kd[pos - 1] == leaf_pair(BTreeNode::Leaf(l0)));
                    assert(kd[pos as int] == leaf_pair(BTreeNode::Leaf(c0)));
                    assert(kids(nc) =~= kd.update(pos - 1, (left.keys@, left.values@)).update(
                        pos as int,
                        (cur.keys@, cur.values@),
                    ));
                    assert(all_leaves(nc));
                }
            }
        },
        Rebalance::BorrowRight => {
            let mut cur = into_leaf(*parent.children.remove(pos));
            let mut right = into_leaf(*parent.children.remove(pos));
            let ghost c0 = cur;
            let ghost r0 = right;
            if right.keys.len() > 0 && right.values.len() > 0 {
                let bk = right.keys.remove(0);
                let bv = right.values.remove(0);
                cur.keys.push(bk);
                cur.values.push(bv);
                if pos < parent.keys.len() {
                    parent.keys.set(pos, cur.keys[0]);
                }
                if pos + 1 < parent.keys.len() && right.keys.len() > 0 {
                    parent.keys.set(pos + 1, right.keys[0]);
                }
                proof {
                    assert(right.keys@ =~= r0.keys@.drop_first());
                    assert(right.values@ =~= r0.values@.drop_first());
                }
            }
            parent.children.insert(pos, Box::new(BTreeNode::Leaf(right)));
            parent.children.insert(pos, Box::new(BTreeNode::Leaf(cur)));
            proof {
                let nc = parent.children@;
                assert(nc =~= cs.update(pos as int, Box::new(BTreeNode::Leaf(cur))).update(
                    pos + 1,
                    Box::new(BTreeNode::Leaf(right)),
                ));
                if all_leaves(cs) {
                    assert(kd[pos + 1] == leaf_pair(BTreeNode::Leaf(r0)));
                    assert(kd[pos as int] == leaf_pair(BTreeNode::Leaf(c0)));
                    assert(kids(nc) =~= kd.update(pos as int, (cur.keys@, cur.values@)).update(
                        pos + 1,
                        (right.keys@, right.values@),
                    ));
                    assert(all_leaves(nc));
                }
            }
        },
        Rebalance::MergeLeft => {
            let mut left = into_leaf(*parent.children.remove(pos - 1));
            let mut cur = into_leaf(*parent.children.remove(pos - 1));
            let ghost l0 = left;
            let ghost c0 = cur;
            left.keys.append(&mut cur.keys);
            left.values.append(&mut cur.values);
            parent.children.insert(pos - 1, Box::new(BTreeNode::Leaf(left)));
            if pos < parent.keys.len() {
                parent.keys.remove(pos);
            }
            proof {
                let nc = parent.children@;
                assert(nc =~= cs.update(pos - 1, Box::new(BTreeNode::Leaf(left))).remove(pos as int));
                if all_leaves(cs) {
                    assert(kd[pos - 1] == leaf_pair(BTreeNode::Leaf(l0)));
                    assert(kd[pos as int] == leaf_pair(BTreeNode::Leaf(c0)));
                    assert(kids(nc) =~= kd.update(pos - 1, (left.keys@, left.values@)).remove(
                        pos as int,
                    ));
                    assert(all_leaves(nc));
                }
            }
        },
        Rebalance::MergeRight => {
            let mut cur = into_leaf(*parent.children.remove(pos));
            let mut right = into_leaf(*parent.children.remove(pos));
            let ghost c0 = cur;
            let ghost r0 = right;
            cur.keys.append(&mut right.keys);
            cur.values.append(&mut right.values);
            if pos + 1 < parent.keys.len() && cur.keys.len() > 0 {
                parent.keys.set(pos + 1, cur.keys[0]);
            }
            if pos < parent.keys.len() {
                parent.keys.remove(pos);
            }
            parent.children.insert(pos, Box::new(BTreeNode::Leaf(cur)));
            proof {
                let nc = parent.children@;
                assert(nc =~= cs.update(pos as int, Box::new(BTreeNode::Leaf(cur))).remove(pos + 1));
                if all_leaves(cs) {
                    assert(kd[pos + 1] == leaf_pair(BTreeNode::Leaf(r0)));
                    assert(kd[pos as int] == leaf_pair(BTreeNode::Leaf(c0)));
                    assert(kids(nc) =~= kd.update(pos as int, (cur.keys@, cur.values@)).remove(
                        pos + 1,
                    ));
                    assert(all_leaves(nc));
                }
            }
        },
    }
}

impl<V> LeafNode<V> {
    /// An empty leaf.
    pub fn new(order: usize) -> (r: Self)
        ensures
            r.keys@.len() == 0,
            r.values@.len() == 0,
    {
        LeafNode { keys: Vec::with_capacity(order), values: Vec::with_capacity(order) }
    }
}

impl<V> BTree<V> {
    /// An empty tree of order `order`.
    pub fn new(order: usize) -> (r: Self)
        ensures
            r.order == order,
            root_leaf_len(r.root) == 0,
            order >= 3 ==> r.wf(),
            forall|k: int| (#[trigger] r.spec_get(k) is None),
    {
        let r = BTree { root: BTreeNode::Leaf(LeafNode::new(order)), order };
        proof {
            if order >= 3 {
                assert(node_wf(r.root, order as int, key_min(), key_end(), 0));
            }
        }
        r
    }

    /// A tree of order `order` whose root is the internal node `internal`.
    pub fn create_from(order: usize, internal: InternalNode<V>) -> (r: Self)
        ensures
            r.order == order,
            r.root == BTreeNode::Internal(internal),
    {
        BTree { root: BTreeNode::Internal(internal), order }
    }

    /// Stores `value` under `key`, splitting full nodes on the way back up and
    /// growing a new root when the old one splits; fails if `key` is present.
    pub fn insert(&mut self, key: i64, value: V) -> (r: Result<(), String>)
        requires
            old(self).wf(),
        ensures
            insert_effect(old(self), final(self), r, key, value),
            split_effect(old(self), final(self), r, key),
            final(self).wf(),
            final(self).order == old(self).order,
            r is Err ==> *final(self) == *old(self),
    {
        let ghost h = choose|h: nat| node_wf(self.root, self.order as int, key_min(), key_end(), h);
        let ghost old_root = self.root;
        let order = self.order;
        if get_in(&self.root, key, Ghost(self.order as int), Ghost(key_min()), Ghost(key_end()), Ghost(h)).is_some() {
            return Err("Value with given key already exists".to_string());
        }
        let res = insert_in(&mut self.root, key, value, order, Ghost(key_min()), Ghost(key_end()), Ghost(h));
        match res {
            Err(e) => {
                proof {
                    assert(node_wf(self.root, self.order as int, key_min(), key_end(), h));
                    assert forall|k: int| #[trigger] self.spec_get(k) == lookup(old_root, k) by {
                        assert(lookup(self.root, k) == lookup(old_root, k));
                    }
                }
                Err(e)
            },
            Ok(None) => {
                proof {
                    assert(node_wf(self.root, self.order as int, key_min(), key_end(), h));
                    assert forall|k: int| #[trigger] self.spec_get(k) == updated(old_root, key, value, k) by {
                        assert(key_min() <= k < key_end() ==> lookup(self.root, k) == updated(old_root, key, value, k));
                        if k < key_min() || k >= key_end() {
                            lemma_lookup_out_of_range(self.root, order as int, key_min(), key_end(), h, k);
                            lemma_lookup_out_of_range(old_root, order as int, key_min(), key_end(), h, k);
                        }
                    }
                }
                Ok(())
            },
            Ok(Some((sep, right))) => {
                let mut left = BTreeNode::Leaf(LeafNode { keys: Vec::new(), values: Vec::new() });
                core::mem::swap(&mut self.root, &mut left);
                let ghost l = left;
                let mut keys: Vec<i64> = Vec::new();
                keys.push(sep);
                let mut children: Vec<Box<BTreeNode<V>>> = Vec::new();
                children.push(Box::new(left));
                children.push(Box::new(right));
                let ghost cs = children@;
                assert(cs =~= seq![Box::new(l), Box::new(right)]);
                self.root = BTreeNode::Internal(InternalNode { keys, children });
                proof {
                    let ks = seq![sep];
                    assert(keys@ =~= ks);
                    assert(lower(ks, key_min(), 1) == sep);
                    assert(upper(ks, key_end(), 0) == sep);
                    assert(node_wf(self.root, self.order as int, key_min(), key_end(), h + 1));
                    assert forall|k: int| #[trigger] lookup(self.root, k) == if k == key {
                        Some(value)
                    } else {
                        lookup(old_root, k)
                    } by {
                        assert(ks.drop_last() =~= Seq::<i64>::empty());
                        assert(ks.last() == sep);
                        assert(cidx(Seq::<i64>::empty(), k) == 0);
                        if k < key_min() || k >= key_end() {
                            lemma_lookup_out_of_range(old_root, order as int, key_min(), key_end(), h, k);
                            lemma_lookup_out_of_range(self.root, order as int, key_min(), key_end(), h + 1, k);
                        }
                        if k < sep {
                            assert(cidx(ks, k) == 0);
                            if key_min() <= k {
                                assert(lookup(self.root, k) == lookup(l, k));
                                assert(lookup(l, k) == updated(old_root, key, value, k));
                            }
                        } else {
                            assert(cidx(ks, k) == 1);
                            if k < key_end() {
                                assert(lookup(self.root, k) == lookup(right, k));
                                assert(lookup(right, k) == updated(old_root, key, value, k));
                            }
                        }
                    }
                }
                Ok(())
            },
        }
    }

    /// The tree is well-formed, its keys anywhere in the range of `i64`.
    pub open spec fn wf(&self) -> bool {
        &&& self.order >= 3
        &&& exists|h: nat| node_wf(self.root, self.order as int, key_min(), key_end(), h)
    }

    /// The value stored under `key`.
    pub open spec fn spec_get(&self, key: int) -> Option<V> {
        lookup(self.root, key)
    }

    /// Removes `key`. Deletion reads key `i` of an internal node as the first key
    /// of child `i`: it descends to the child whose key is the greatest at or below
    /// `key`, removes the entry from the leaf reached, and rebalances that leaf
    /// against its siblings; it fails, changing nothing, if the key is not found.
    pub fn delete(&mut self, key: i64) -> (r: Result<(), String>)
        ensures
            r is Ok <==> delete_finds(old(self).root, key as int),
            r is Err ==> *final(self) == *old(self),
            final(self).order == old(self).order,
            r is Ok ==> delete_effect(old(self).root, final(self).root, key as int, (old(self).order / 2) as usize),
    {
        if !delete_finds_exec(&self.root, key) {
            return Err("Unknown key".to_string());
        }
        let underflow = self.order / 2;
        let _ = remove_from(&mut self.root, key, underflow);
        Ok(())
    }

    /// The value stored under `key`, if any.
    pub fn get(&self, key: &i64) -> (r: Option<&V>)
        requires
            self.wf(),
        ensures
            r matches Some(v) ==> self.spec_get(*key as int) == Some(*v),
            r is None ==> self.spec_get(*key as int) is None,
    {
        let ghost h = choose|h: nat| node_wf(self.root, self.order as int, key_min(), key_end(), h);
        get_in(&self.root, *key, Ghost(self.order as int), Ghost(key_min()), Ghost(key_end()), Ghost(h))
    }
}

} // verus!
