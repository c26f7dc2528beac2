//! NovaDB B+ tree indexes: typed keys with a deterministic total order, and
//! a B+ tree of nodes kept in an arena, mapping each key to the sorted ids of
//! the documents that hold it.
//!
//! The tree's abstract value is a map from key to a non-empty, strictly
//! increasing list of ids. Every node carries a ghost height, a ghost
//! half-open key interval and a ghost parent; every leaf a ghost rank in the
//! leaf chain. The invariants on these make lookups, updates and range scans
//! provably exact.
use vstd::prelude::*;

use crate::error::{NovaError, Result};
use crate::index_check::check_tree;
use crate::index_file::{
    decode_tree, encode_tree, entry_storable, key_storable, lemma_index_key_storable, node_encodable, node_keys_storable,
    node_storable, nodes_encodable, tree_bytes, tree_bytes_in, tree_storable, unsupported_version,
};
use crate::nova_id::NovaId;
use crate::text::{compare_bytes, lemma_seq_order_antisym, lemma_seq_order_trans, lemma_seq_order_zero, seq_order, utf8_bytes};

verus! {

/// Bits of the canonical quiet `NaN`.
pub const CANONICAL_NAN: u64 = 0x7ff8_0000_0000_0000;

/// Whether IEEE-754 bits encode a `NaN`.
pub open spec fn is_nan_bits(b: u64) -> bool {
    (b & 0x7ff0_0000_0000_0000u64) == 0x7ff0_0000_0000_0000u64 && (b & 0x000f_ffff_ffff_ffffu64) != 0
}

/// Every `NaN` replaced by the canonical one.
pub open spec fn canonical_bits(b: u64) -> u64 {
    if is_nan_bits(b) {
        CANONICAL_NAN
    } else {
        b
    }
}

/// The unsigned key whose order is the IEEE-754 total order of the bits
/// (the IEEE-754 total order): negative values flipped entirely, others with the
/// sign bit set.
pub open spec fn sortable(b: u64) -> u64 {
    if b >= 0x8000_0000_0000_0000u64 {
        !b
    } else {
        b | 0x8000_0000_0000_0000u64
    }
}

/// A float with deterministic total ordering and canonical `NaN`
/// representation, held as its order key.
#[derive(Debug, Copy, Clone, PartialEq, Eq, PartialOrd, Ord, Hash)]
pub struct OrderedF64(u64);

impl View for OrderedF64 {
    type V = u64;

    closed spec fn view(&self) -> u64 {
        self.0
    }
}

impl OrderedF64 {
    /// The ordered float of IEEE-754 bits; every `NaN` becomes one quiet
    /// `NaN`.
    pub fn from_bits(bits: u64) -> (r: Self)
        ensures
            r@ == sortable(canonical_bits(bits)),
    {
        let b = if (bits & 0x7ff0_0000_0000_0000u64) == 0x7ff0_0000_0000_0000u64 && (bits
            & 0x000f_ffff_ffff_ffffu64) != 0 {
            CANONICAL_NAN
        } else {
            bits
        };
        if b >= 0x8000_0000_0000_0000u64 {
            OrderedF64(!b)
        } else {
            OrderedF64(b | 0x8000_0000_0000_0000u64)
        }
    }

    /// The IEEE-754 bits of the represented value.
    pub fn to_bits(self) -> (r: u64)
        ensures
            sortable(r) == self@,
    {
        let k = self.0;
        if k >= 0x8000_0000_0000_0000u64 {
            let r = k & 0x7fff_ffff_ffff_ffffu64;
            assert(k >= 0x8000_0000_0000_0000u64 ==> (k & 0x7fff_ffff_ffff_ffffu64) | 0x8000_0000_0000_0000u64 == k
                && (k & 0x7fff_ffff_ffff_ffffu64) < 0x8000_0000_0000_0000u64) by (bit_vector);
            r
        } else {
            let r = !k;
            assert(k < 0x8000_0000_0000_0000u64 ==> !k >= 0x8000_0000_0000_0000u64 && !!k == k) by (bit_vector);
            r
        }
    }
}

/// Scalar values supported by a NovaDB B+ tree, ordered first by kind
/// (integers, floats, strings, ids), then by value.
#[derive(Debug, Clone, PartialEq, Eq, PartialOrd, Ord)]
pub enum IndexKey {
    /// Signed 64-bit integer.
    Int64(i64),
    /// Totally ordered IEEE-754 value.
    Float64(OrderedF64),
    /// UTF-8 string, ordered by its bytes.
    String(String),
    /// NovaDB identifier.
    NovaId(NovaId),
}

/// The abstract value of a key.
pub enum KeyView {
    Int(i64),
    Float(u64),
    Str(Seq<u8>),
    Id(Seq<u8>),
}

impl View for IndexKey {
    type V = KeyView;

    open spec fn view(&self) -> KeyView {
        match self {
            IndexKey::Int64(v) => KeyView::Int(*v),
            IndexKey::Float64(f) => KeyView::Float(f@),
            IndexKey::String(s) => KeyView::Str(utf8_bytes(s@)),
            IndexKey::NovaId(id) => KeyView::Id(id@),
        }
    }
}

/// The position of a key's kind in the order of kinds.
pub open spec fn kind_rank(k: KeyView) -> int {
    match k {
        KeyView::Int(_) => 0,
        KeyView::Float(_) => 1,
        KeyView::Str(_) => 2,
        KeyView::Id(_) => 3,
    }
}

/// The sign of `a - b`.
pub open spec fn sign(a: int, b: int) -> int {
    if a < b {
        -1
    } else if a == b {
        0
    } else {
        1
    }
}

/// The total order of keys: negative, zero or positive.
pub open spec fn key_compare(a: KeyView, b: KeyView) -> int {
    if kind_rank(a) != kind_rank(b) {
        sign(kind_rank(a), kind_rank(b))
    } else {
        match (a, b) {
            (KeyView::Int(x), KeyView::Int(y)) => sign(x as int, y as int),
            (KeyView::Float(x), KeyView::Float(y)) => sign(x as int, y as int),
            (KeyView::Str(x), KeyView::Str(y)) => seq_order(x, y),
            (KeyView::Id(x), KeyView::Id(y)) => seq_order(x, y),
            _ => 0,
        }
    }
}

/// `a` strictly precedes `b`.
pub open spec fn key_lt(a: KeyView, b: KeyView) -> bool {
    key_compare(a, b) < 0
}

/// `a` precedes or equals `b`.
pub open spec fn key_le(a: KeyView, b: KeyView) -> bool {
    key_compare(a, b) <= 0
}

pub proof fn lemma_key_compare(a: KeyView, b: KeyView)
    ensures
        key_compare(a, b) == -key_compare(b, a),
        -1 <= key_compare(a, b) <= 1,
        (key_compare(a, b) == 0) == (a == b),
{
    match (a, b) {
        (KeyView::Str(x), KeyView::Str(y)) => {
            lemma_seq_order_antisym(x, y);
            lemma_seq_order_zero(x, y);
        },
        (KeyView::Id(x), KeyView::Id(y)) => {
            lemma_seq_order_antisym(x, y);
            lemma_seq_order_zero(x, y);
        },
        _ => {},
    }
}

pub proof fn lemma_key_lt_trans(a: KeyView, b: KeyView, c: KeyView)
    requires
        key_lt(a, b),
        key_le(b, c),
    ensures
        key_lt(a, c),
{
    lemma_key_compare(a, b);
    lemma_key_compare(b, c);
    lemma_key_compare(a, c);
    if b != c {
        match (a, b, c) {
            (KeyView::Str(x), KeyView::Str(y), KeyView::Str(z)) => {
                lemma_seq_order_trans(x, y, z);
            },
            (KeyView::Id(x), KeyView::Id(y), KeyView::Id(z)) => {
                lemma_seq_order_trans(x, y, z);
            },
            _ => {},
        }
    }
}

pub proof fn lemma_key_le_trans(a: KeyView, b: KeyView, c: KeyView)
    requires
        key_le(a, b),
        key_le(b, c),
    ensures
        key_le(a, c),
{
    lemma_key_compare(a, b);
    lemma_key_compare(b, c);
    if a != b {
        lemma_key_lt_trans(a, b, c);
    }
}

/// Compares two keys in the total order.
pub fn compare_keys(a: &IndexKey, b: &IndexKey) -> (r: i8)
    ensures
        r as int == key_compare(a@, b@),
{
    match (a, b) {
        (IndexKey::Int64(x), IndexKey::Int64(y)) => {
            if *x < *y {
                -1
            } else if *x == *y {
                0
            } else {
                1
            }
        },
        (IndexKey::Float64(x), IndexKey::Float64(y)) => {
            if x.0 < y.0 {
                -1
            } else if x.0 == y.0 {
                0
            } else {
                1
            }
        },
        (IndexKey::String(x), IndexKey::String(y)) => {
            compare_bytes(x.as_str().as_bytes(), y.as_str().as_bytes())
        },
        (IndexKey::NovaId(x), IndexKey::NovaId(y)) => {
            compare_bytes(x.as_bytes(), y.as_bytes())
        },
        _ => {
            let ra = kind_index(a);
            let rb = kind_index(b);
            if ra < rb {
                -1
            } else {
                1
            }
        },
    }
}

fn kind_index(k: &IndexKey) -> (r: u8)
    ensures
        r as int == kind_rank(k@),
{
    match k {
        IndexKey::Int64(_) => 0,
        IndexKey::Float64(_) => 1,
        IndexKey::String(_) => 2,
        IndexKey::NovaId(_) => 3,
    }
}

/// A copy of a key.
pub fn clone_key(k: &IndexKey) -> (r: IndexKey)
    ensures
        r@ == k@,
{
    match k {
        IndexKey::Int64(v) => IndexKey::Int64(*v),
        IndexKey::Float64(f) => IndexKey::Float64(*f),
        IndexKey::String(s) => IndexKey::String(s.clone()),
        IndexKey::NovaId(id) => IndexKey::NovaId(*id),
    }
}

/// Largest node capacity used by `create`.
pub const DEFAULT_MAX_KEYS: usize = 31;

/// Smallest node capacity.
pub const MIN_MAX_KEYS: usize = 3;

/// One node of the arena.
pub enum Node {
    Leaf { entries: Vec<(IndexKey, Vec<NovaId>)>, next: Option<usize> },
    Internal { keys: Vec<IndexKey>, children: Vec<usize> },
}

/// Whether `k` lies in the half-open interval `[lo, hi)`; a missing bound is
/// unbounded.
pub open spec fn in_bounds(k: KeyView, lo: Option<KeyView>, hi: Option<KeyView>) -> bool {
    &&& (lo matches Some(l) ==> key_le(l, k))
    &&& (hi matches Some(h) ==> key_lt(k, h))
}

/// Whether `k` lies strictly inside `(lo, hi)`.
pub open spec fn strictly_inside(k: KeyView, lo: Option<KeyView>, hi: Option<KeyView>) -> bool {
    &&& (lo matches Some(l) ==> key_lt(l, k))
    &&& (hi matches Some(h) ==> key_lt(k, h))
}

/// Ids in strictly increasing byte order.
pub open spec fn ids_sorted(ids: Seq<NovaId>) -> bool {
    forall|i: int, j: int| 0 <= i < j < ids.len() ==> seq_order(#[trigger] ids[i]@, #[trigger] ids[j]@) < 0
}

/// Keys in strictly increasing order.
pub open spec fn keys_increasing(keys: Seq<IndexKey>) -> bool {
    forall|i: int, j: int| 0 <= i < j < keys.len() ==> key_lt(#[trigger] keys[i]@, #[trigger] keys[j]@)
}

/// Leaf entries in strictly increasing key order.
pub open spec fn entries_increasing(entries: Seq<(IndexKey, Vec<NovaId>)>) -> bool {
    forall|i: int, j: int| 0 <= i < j < entries.len() ==> key_lt(#[trigger] entries[i].0@, #[trigger] entries[j].0@)
}

/// The ghost shape of a tree: per node a height, an interval and a parent,
/// and per leaf a rank in the leaf chain.
pub struct Shape {
    pub height: Seq<nat>,
    pub lo: Seq<Option<KeyView>>,
    pub hi: Seq<Option<KeyView>>,
    pub parent: Seq<int>,
    pub rank: Seq<nat>,
}

/// A persistent B+ tree mapping typed keys to document identifiers.
pub struct BPlusTree {
    path: String,
    max_keys: usize,
    root: usize,
    nodes: Vec<Node>,
    dirty: bool,
    shape: Ghost<Shape>,
}

/// Node `n` is a leaf.
pub open spec fn is_leaf(nodes: Seq<Node>, n: int) -> bool {
    0 <= n < nodes.len() && nodes[n] is Leaf
}

/// The node at `n` satisfies its local invariant within the shape.
pub open spec fn node_ok(nodes: Seq<Node>, s: Shape, max_keys: nat, n: int) -> bool {
    match nodes[n] {
        Node::Leaf { entries, next } => {
            &&& s.height[n] == 0
            &&& entries@.len() <= max_keys
            &&& entries_increasing(entries@)
            &&& forall|i: int|
                0 <= i < entries@.len() ==> in_bounds(#[trigger] entries@[i].0@, s.lo[n], s.hi[n])
                    && entries@[i].1@.len() > 0 && ids_sorted(entries@[i].1@)
            &&& match next {
                Some(x) => {
                    &&& is_leaf(nodes, x as int)
                    &&& s.hi[n] is Some
                    &&& s.lo[x as int] == s.hi[n]
                    &&& s.rank[x as int] == s.rank[n] + 1
                },
                None => s.hi[n] is None,
            }
            &&& s.rank[n] < nodes.len()
            &&& (s.lo[n] is Some && s.hi[n] is Some ==> key_lt(s.lo[n]->0, s.hi[n]->0))
        },
        Node::Internal { keys, children } => keys@.len() <= max_keys && internal_ok(keys@, children@, nodes.len() as int, s, n),
    }
}

/// The separators and children of internal node `n` agree with the shape:
/// each child sits one level lower, names `n` as its parent, and covers the
/// interval between its neighbouring separators.
pub open spec fn internal_ok(keys: Seq<IndexKey>, children: Seq<usize>, count: int, s: Shape, n: int) -> bool {
    &&& 1 <= keys.len()
    &&& children.len() == keys.len() + 1
    &&& keys_increasing(keys)
    &&& forall|i: int| 0 <= i < keys.len() ==> strictly_inside(#[trigger] keys[i]@, s.lo[n], s.hi[n])
    &&& forall|i: int|
        0 <= i < children.len() ==> {
            let c = #[trigger] children[i] as int;
            &&& 0 <= c < count
            &&& s.height[c] + 1 == s.height[n]
            &&& s.parent[c] == n
            &&& s.lo[c] == if i == 0 { s.lo[n] } else { Some(keys[i - 1]@) }
            &&& s.hi[c] == if i == keys.len() { s.hi[n] } else { Some(keys[i]@) }
        }
}

/// The shape covers every node.
pub open spec fn shape_sized(nodes: Seq<Node>, s: Shape) -> bool {
    &&& s.height.len() == nodes.len()
    &&& s.lo.len() == nodes.len()
    &&& s.hi.len() == nodes.len()
    &&& s.parent.len() == nodes.len()
    &&& s.rank.len() == nodes.len()
}

/// Distinct leaves have disjoint intervals and distinct ranks.
pub open spec fn leaves_apart(nodes: Seq<Node>, s: Shape) -> bool {
    forall|a: int, b: int|
        #[trigger] is_leaf(nodes, a) && #[trigger] is_leaf(nodes, b) && a != b ==> {
            &&& s.rank[a] != s.rank[b]
            &&& forall|k: KeyView| !(in_bounds(k, s.lo[a], s.hi[a]) && in_bounds(k, s.lo[b], s.hi[b]))
        }
}

/// Key `k` is stored at entry `i` of leaf `n`.
pub open spec fn entry_at(nodes: Seq<Node>, n: int, i: int, k: KeyView) -> bool {
    &&& is_leaf(nodes, n)
    &&& 0 <= i < nodes[n]->Leaf_entries@.len()
    &&& nodes[n]->Leaf_entries@[i].0@ == k
}

/// Some leaf stores key `k`.
pub open spec fn stored(nodes: Seq<Node>, k: KeyView) -> bool {
    exists|n: int, i: int| #[trigger] entry_at(nodes, n, i, k)
}

/// The ids stored for key `k` (meaningful when it is stored).
pub open spec fn stored_ids(nodes: Seq<Node>, k: KeyView) -> Seq<NovaId> {
    let (n, i) = choose|n: int, i: int| #[trigger] entry_at(nodes, n, i, k);
    nodes[n]->Leaf_entries@[i].1@
}

/// The key-to-ids map that the leaves hold.
pub open spec fn contents(nodes: Seq<Node>) -> Map<KeyView, Seq<NovaId>> {
    Map::new(|k: KeyView| stored(nodes, k), |k: KeyView| stored_ids(nodes, k))
}

impl View for BPlusTree {
    type V = Map<KeyView, Seq<NovaId>>;

    closed spec fn view(&self) -> Map<KeyView, Seq<NovaId>> {
        contents(self.nodes@)
    }
}

/// The invariant of a tree with these parts: a rooted arena of well-formed
/// nodes whose leaves partition the key space.
pub open spec fn parts_wf(nodes: Seq<Node>, s: Shape, max_keys: usize, root: usize) -> bool {
    &&& 0 <= root < nodes.len()
    &&& shape_sized(nodes, s)
    &&& s.lo[root as int] is None
    &&& s.hi[root as int] is None
    &&& s.parent[root as int] == -1
    &&& max_keys >= MIN_MAX_KEYS
    &&& max_keys % 2 == 1
    &&& max_keys <= 0xFFFF_FFFF
    &&& forall|n: int| 0 <= n < nodes.len() ==> #[trigger] node_ok(nodes, s, max_keys as nat, n)
    &&& leaves_apart(nodes, s)
}

impl BPlusTree {
    /// The tree invariant: a rooted arena of well-formed nodes whose leaves
    /// partition the key space.
    pub closed spec fn wf(&self) -> bool {
        parts_wf(self.nodes@, self.shape@, self.max_keys, self.root)
    }

    /// Whether the tree changed since it was last written.
    pub closed spec fn is_dirty(&self) -> bool {
        self.dirty
    }

    /// The node capacity.
    pub closed spec fn capacity(&self) -> nat {
        self.max_keys as nat
    }
}

/// The ids stored under a key are never empty and strictly increasing by
/// their bytes, so a lookup gives each id once, in order.
pub proof fn law_ids_ascending(t: BPlusTree, k: KeyView)
    requires
        t.wf(),
        t@.contains_key(k),
    ensures
        t@[k].len() > 0,
        ids_sorted(t@[k]),
{
    let (n, i) = choose|n: int, i: int| #[trigger] entry_at(t.nodes@, n, i, k);
    assert(node_ok(t.nodes@, t.shape@, t.max_keys as nat, n));
    assert(0 <= i < t.nodes@[n]->Leaf_entries@.len());
}

/// Every leaf satisfies its local invariant.
pub open spec fn leaves_sound(nodes: Seq<Node>, s: Shape, max_keys: nat) -> bool {
    forall|n: int| #[trigger] is_leaf(nodes, n) ==> node_ok(nodes, s, max_keys, n)
}

/// Only leaf `l` can hold a key that lies in its interval.
proof fn lemma_only_leaf(nodes: Seq<Node>, s: Shape, max_keys: nat, l: int, k: KeyView, n: int, i: int)
    requires
        leaves_sound(nodes, s, max_keys),
        leaves_apart(nodes, s),
        is_leaf(nodes, l),
        in_bounds(k, s.lo[l], s.hi[l]),
        entry_at(nodes, n, i, k),
    ensures
        n == l,
{
    assert(node_ok(nodes, s, max_keys, n));
    let entries = nodes[n]->Leaf_entries@;
    assert(in_bounds(entries[i].0@, s.lo[n], s.hi[n]));
    if n != l {
        assert(is_leaf(nodes, n) && is_leaf(nodes, l));
    }
}

/// The map holds, for the key of entry `i` of leaf `l`, that entry's ids.
proof fn lemma_contents_at(nodes: Seq<Node>, s: Shape, max_keys: nat, l: int, i: int)
    requires
        leaves_sound(nodes, s, max_keys),
        leaves_apart(nodes, s),
        is_leaf(nodes, l),
        0 <= i < nodes[l]->Leaf_entries@.len(),
    ensures
        contents(nodes).contains_key(nodes[l]->Leaf_entries@[i].0@),
        contents(nodes)[nodes[l]->Leaf_entries@[i].0@] == nodes[l]->Leaf_entries@[i].1@,
{
    let entries = nodes[l]->Leaf_entries@;
    let k = entries[i].0@;
    assert(entry_at(nodes, l, i, k));
    assert(node_ok(nodes, s, max_keys, l));
    let (n, j) = choose|n: int, j: int| #[trigger] entry_at(nodes, n, j, k);
    lemma_only_leaf(nodes, s, max_keys, l, k, n, j);
    if j != i {
        if j < i {
            assert(key_lt(entries[j].0@, entries[i].0@));
        } else {
            assert(key_lt(entries[i].0@, entries[j].0@));
        }
        lemma_key_compare(entries[i].0@, entries[j].0@);
    }
}

/// A key in leaf `l`'s interval but in none of its entries is not stored.
proof fn lemma_absent(nodes: Seq<Node>, s: Shape, max_keys: nat, l: int, k: KeyView)
    requires
        leaves_sound(nodes, s, max_keys),
        leaves_apart(nodes, s),
        is_leaf(nodes, l),
        in_bounds(k, s.lo[l], s.hi[l]),
        forall|i: int| 0 <= i < nodes[l]->Leaf_entries@.len() ==> #[trigger] nodes[l]->Leaf_entries@[i].0@ != k,
    ensures
        !contents(nodes).contains_key(k),
{
    if stored(nodes, k) {
        let (n, i) = choose|n: int, i: int| #[trigger] entry_at(nodes, n, i, k);
        lemma_only_leaf(nodes, s, max_keys, l, k, n, i);
        assert(nodes[l]->Leaf_entries@[i].0@ == k);
        assert(false);
    }
}

/// Checks a node capacity: odd, at least three, and at most `u32::MAX`.
pub fn validate_max_keys(max_keys: usize) -> (r: Result<()>)
    ensures
        r is Ok <==> (max_keys >= MIN_MAX_KEYS && max_keys % 2 == 1 && max_keys <= 0xFFFF_FFFF),
        r matches Err(e) ==> e is InvalidArgument,
{
    if max_keys < MIN_MAX_KEYS || max_keys % 2 == 0 || max_keys as u64 > 0xFFFF_FFFFu64 {
        return Err(NovaError::InvalidArgument("B+ tree max_keys must be an odd value from 3 through 4294967295".to_owned()));
    }
    Ok(())
}

/// The index of the child whose interval holds `key`: the number of
/// separators that do not exceed it.
fn child_index(keys: &Vec<IndexKey>, key: &IndexKey) -> (r: usize)
    requires
        keys_increasing(keys@),
    ensures
        r <= keys@.len(),
        forall|j: int| 0 <= j < r ==> key_le(#[trigger] keys@[j]@, key@),
        forall|j: int| r <= j < keys@.len() ==> key_lt(key@, #[trigger] keys@[j]@),
{
    let mut i: usize = 0;
    while i < keys.len() && compare_keys(key, &keys[i]) >= 0
        invariant
            i <= keys@.len(),
            keys_increasing(keys@),
            forall|j: int| 0 <= j < i ==> key_le(#[trigger] keys@[j]@, key@),
        decreases keys@.len() - i,
    {
        proof {
            lemma_key_compare(key@, keys@[i as int]@);
        }
        i = i + 1;
    }
    proof {
        if i < keys@.len() {
            assert forall|j: int| i <= j < keys@.len() implies key_lt(key@, #[trigger] keys@[j]@) by {
                if j > i {
                    assert(key_lt(keys@[i as int]@, keys@[j]@));
                    lemma_key_lt_trans(key@, keys@[i as int]@, keys@[j]@);
                }
            }
        }
    }
    i
}

impl BPlusTree {
    /// A new empty tree with the given node capacity, backed by `path`
    /// (which the caller creates). An invalid capacity is an
    /// `InvalidArgument` error.
    pub fn create_with_max_keys(path: String, max_keys: usize) -> (r: Result<Self>)
        ensures
            r is Ok <==> (max_keys >= MIN_MAX_KEYS && max_keys % 2 == 1 && max_keys <= 0xFFFF_FFFF),
            r matches Err(e) ==> e is InvalidArgument,
            r matches Ok(t) ==> t.wf() && t@ == Map::<KeyView, Seq<NovaId>>::empty() && t.path_view() == path@
                && t.capacity() == max_keys,
    {
        match validate_max_keys(max_keys) {
            Ok(()) => {},
            Err(e) => {
                return Err(e);
            },
        }
        let mut nodes: Vec<Node> = Vec::new();
        nodes.push(Node::Leaf { entries: Vec::new(), next: None });
        let ghost shape = Shape {
            height: seq![0nat],
            lo: seq![None],
            hi: seq![None],
            parent: seq![-1int],
            rank: seq![0nat],
        };
        let t = BPlusTree { path, max_keys, root: 0, nodes, dirty: true, shape: Ghost(shape) };
        proof {
            assert(node_ok(t.nodes@, shape, max_keys as nat, 0));
            assert forall|k: KeyView| !#[trigger] contents(t.nodes@).contains_key(k) by {
                if stored(t.nodes@, k) {
                    let (n, i) = choose|n: int, i: int| #[trigger] entry_at(t.nodes@, n, i, k);
                }
            }
            assert(t@ =~= Map::<KeyView, Seq<NovaId>>::empty());
        }
        Ok(t)
    }

    /// A new empty tree with the production node capacity.
    pub fn create(path: String) -> (r: Result<Self>)
        ensures
            r matches Ok(t) && t.wf() && t@ == Map::<KeyView, Seq<NovaId>>::empty() && t.path_view() == path@,
    {
        Self::create_with_max_keys(path, DEFAULT_MAX_KEYS)
    }

    /// Returns the path backing this tree.
    pub fn path(&self) -> (r: &str)
        ensures
            r@ == self.path_view(),
    {
        self.path.as_str()
    }

    /// The path backing this tree.
    pub closed spec fn path_view(&self) -> Seq<char> {
        self.path@
    }

    /// The leaf whose interval holds `key`.
    fn find_leaf(&self, key: &IndexKey) -> (r: usize)
        requires
            self.wf(),
        ensures
            is_leaf(self.nodes@, r as int),
            in_bounds(key@, self.shape@.lo[r as int], self.shape@.hi[r as int]),
    {
        let ghost s = self.shape@;
        let mut n = self.root;
        loop
            invariant
                self.wf(),
                s == self.shape@,
                0 <= n < self.nodes@.len(),
                in_bounds(key@, s.lo[n as int], s.hi[n as int]),
            decreases s.height[n as int],
        {
            assert(node_ok(self.nodes@, s, self.max_keys as nat, n as int));
            match &self.nodes[n] {
                Node::Leaf { .. } => {
                    return n;
                },
                Node::Internal { keys, children } => {
                    let i = child_index(keys, key);
                    let c = children[i];
                    proof {
                        assert(s.height[c as int] + 1 == s.height[n as int]);
                        if i > 0 {
                            assert(key_le(keys@[i - 1]@, key@));
                        }
                    }
                    n = c;
                },
            }
        }
    }

    /// Returns all document ids stored for an exact key, in increasing
    /// order; empty when the key is absent.
    pub fn get(&self, key: &IndexKey) -> (r: Vec<NovaId>)
        requires
            self.wf(),
        ensures
            r@ == if self@.contains_key(key@) {
                self@[key@]
            } else {
                Seq::<NovaId>::empty()
            },
    {
        let ghost s = self.shape@;
        let l = self.find_leaf(key);
        proof {
            assert(node_ok(self.nodes@, s, self.max_keys as nat, l as int));
            assert(leaves_sound(self.nodes@, s, self.max_keys as nat));
        }
        match &self.nodes[l] {
            Node::Leaf { entries, .. } => {
                let mut i: usize = 0;
                while i < entries.len()
                    invariant
                        self.wf(),
                        s == self.shape@,
                        is_leaf(self.nodes@, l as int),
                        in_bounds(key@, s.lo[l as int], s.hi[l as int]),
                        entries@ == self.nodes@[l as int]->Leaf_entries@,
                        i <= entries@.len(),
                        forall|j: int| 0 <= j < i ==> #[trigger] entries@[j].0@ != key@,
                    decreases entries@.len() - i,
                {
                    if compare_keys(&entries[i].0, key) == 0 {
                        proof {
                            lemma_key_compare(entries@[i as int].0@, key@);
                            assert(leaves_sound(self.nodes@, s, self.max_keys as nat));
                            lemma_contents_at(self.nodes@, s, self.max_keys as nat, l as int, i as int);
                        }
                        let ids = &entries[i].1;
                        let mut out: Vec<NovaId> = Vec::new();
                        let mut j: usize = 0;
                        while j < ids.len()
                            invariant
                                j <= ids@.len(),
                                out@ == ids@.take(j as int),
                            decreases ids@.len() - j,
                        {
                            out.push(ids[j]);
                            j = j + 1;
                            assert(out@ =~= ids@.take(j as int));
                        }
                        assert(ids@.take(j as int) =~= ids@);
                        return out;
                    }
                    proof {
                        lemma_key_compare(entries@[i as int].0@, key@);
                    }
                    i = i + 1;
                }
                proof {
                    assert(leaves_sound(self.nodes@, s, self.max_keys as nat));
                    lemma_absent(self.nodes@, s, self.max_keys as nat, l as int, key@);
                }
                Vec::new()
            },
            Node::Internal { .. } => {
                Vec::new()
            },
        }
    }
}


/// Outside leaf `l`'s interval, a tree whose other nodes are unchanged
/// stores the same keys with the same ids.
proof fn lemma_contents_frame(
    old_nodes: Seq<Node>,
    new_nodes: Seq<Node>,
    s: Shape,
    max_keys: nat,
    l: int,
    k: KeyView,
)
    requires
        leaves_sound(old_nodes, s, max_keys),
        leaves_apart(old_nodes, s),
        leaves_sound(new_nodes, s, max_keys),
        leaves_apart(new_nodes, s),
        old_nodes.len() == new_nodes.len(),
        forall|n: int| 0 <= n < old_nodes.len() && n != l ==> old_nodes[n] == new_nodes[n],
        is_leaf(old_nodes, l),
        is_leaf(new_nodes, l),
        !in_bounds(k, s.lo[l], s.hi[l]),
    ensures
        contents(old_nodes).contains_key(k) == contents(new_nodes).contains_key(k),
        contents(old_nodes).contains_key(k) ==> contents(old_nodes)[k] == contents(new_nodes)[k],
{
    if stored(old_nodes, k) {
        let (n, i) = choose|n: int, i: int| #[trigger] entry_at(old_nodes, n, i, k);
        assert(node_ok(old_nodes, s, max_keys, n));
        assert(n != l);
        assert(entry_at(new_nodes, n, i, k));
        lemma_contents_at(old_nodes, s, max_keys, n, i);
        lemma_contents_at(new_nodes, s, max_keys, n, i);
    }
    if stored(new_nodes, k) {
        let (n, i) = choose|n: int, i: int| #[trigger] entry_at(new_nodes, n, i, k);
        assert(node_ok(new_nodes, s, max_keys, n));
        assert(n != l);
        assert(entry_at(old_nodes, n, i, k));
    }
}

/// Within leaf `l`'s interval, the map is exactly the leaf's entries.
proof fn lemma_contents_leaf(nodes: Seq<Node>, s: Shape, max_keys: nat, l: int, k: KeyView)
    requires
        leaves_sound(nodes, s, max_keys),
        leaves_apart(nodes, s),
        is_leaf(nodes, l),
        in_bounds(k, s.lo[l], s.hi[l]),
    ensures
        contents(nodes).contains_key(k) <==> exists|i: int|
            0 <= i < nodes[l]->Leaf_entries@.len() && #[trigger] nodes[l]->Leaf_entries@[i].0@ == k,
        forall|i: int|
            0 <= i < nodes[l]->Leaf_entries@.len() && #[trigger] nodes[l]->Leaf_entries@[i].0@ == k
                ==> contents(nodes)[k] == nodes[l]->Leaf_entries@[i].1@,
{
    let entries = nodes[l]->Leaf_entries@;
    if exists|i: int| 0 <= i < entries.len() && #[trigger] entries[i].0@ == k {
        let i = choose|i: int| 0 <= i < entries.len() && #[trigger] entries[i].0@ == k;
        lemma_contents_at(nodes, s, max_keys, l, i);
    } else {
        lemma_absent(nodes, s, max_keys, l, k);
    }
    assert forall|i: int| 0 <= i < entries.len() && #[trigger] entries[i].0@ == k implies contents(nodes)[k] == entries[i].1@ by {
        lemma_contents_at(nodes, s, max_keys, l, i);
    }
}

/// The position of `key` among increasing entries, if it is there.
fn find_entry(entries: &Vec<(IndexKey, Vec<NovaId>)>, key: &IndexKey) -> (r: Option<usize>)
    requires
        entries_increasing(entries@),
    ensures
        match r {
            Some(i) => i < entries@.len() && entries@[i as int].0@ == key@,
            None => forall|i: int| 0 <= i < entries@.len() ==> #[trigger] entries@[i].0@ != key@,
        },
{
    let mut i: usize = 0;
    while i < entries.len()
        invariant
            i <= entries@.len(),
            forall|j: int| 0 <= j < i ==> #[trigger] entries@[j].0@ != key@,
        decreases entries@.len() - i,
    {
        let c = compare_keys(&entries[i].0, key);
        proof {
            lemma_key_compare(entries@[i as int].0@, key@);
        }
        if c == 0 {
            return Some(i);
        }
        i = i + 1;
    }
    None
}

/// The position of `id` among ids, if it is there.
fn find_id(ids: &Vec<NovaId>, id: &NovaId) -> (r: Option<usize>)
    ensures
        match r {
            Some(j) => j < ids@.len() && ids@[j as int]@ == id@,
            None => forall|j: int| 0 <= j < ids@.len() ==> #[trigger] ids@[j]@ != id@,
        },
{
    let mut j: usize = 0;
    while j < ids.len()
        invariant
            j <= ids@.len(),
            forall|a: int| 0 <= a < j ==> #[trigger] ids@[a]@ != id@,
        decreases ids@.len() - j,
    {
        let c = compare_bytes(ids[j].as_bytes(), id.as_bytes());
        proof {
            lemma_seq_order_zero(ids@[j as int]@, id@);
        }
        if c == 0 {
            return Some(j);
        }
        j = j + 1;
    }
    None
}

/// The well-formedness of a leaf's entries within an interval.
pub open spec fn entries_ok(entries: Seq<(IndexKey, Vec<NovaId>)>, lo: Option<KeyView>, hi: Option<KeyView>, max: nat) -> bool {
    &&& entries.len() <= max
    &&& entries_increasing(entries)
    &&& forall|a: int| 0 <= a < entries.len() ==> in_bounds(#[trigger] entries[a].0@, lo, hi)
        && entries[a].1@.len() > 0 && ids_sorted(entries[a].1@)
}

/// The chain link of a leaf agrees with the shape.
pub open spec fn link_ok(nodes: Seq<Node>, s: Shape, n: int, next: Option<usize>) -> bool {
    &&& match next {
        Some(x) => {
            &&& is_leaf(nodes, x as int)
            &&& s.hi[n] is Some
            &&& s.lo[x as int] == s.hi[n]
            &&& s.rank[x as int] == s.rank[n] + 1
        },
        None => s.hi[n] is None,
    }
    &&& s.rank[n] < nodes.len()
    &&& s.height[n] == 0
    &&& (s.lo[n] is Some && s.hi[n] is Some ==> key_lt(s.lo[n]->0, s.hi[n]->0))
}

/// For a leaf, the node invariant is exactly its entries and its link.
proof fn lemma_leaf_ok(nodes: Seq<Node>, s: Shape, max: nat, l: int)
    requires
        is_leaf(nodes, l),
    ensures
        node_ok(nodes, s, max, l) == (entries_ok(nodes[l]->Leaf_entries@, s.lo[l], s.hi[l], max)
            && link_ok(nodes, s, l, nodes[l]->Leaf_next)),
{
    let e = nodes[l]->Leaf_entries@;
    if node_ok(nodes, s, max, l) {
        assert forall|a: int| 0 <= a < e.len() implies in_bounds(#[trigger] e[a].0@, s.lo[l], s.hi[l])
            && e[a].1@.len() > 0 && ids_sorted(e[a].1@) by {
        }
    }
}

/// Replacing a leaf's entries (same chain link, same shape) keeps every
/// node's invariant when the new leaf satisfies its own.
proof fn lemma_replace_leaf(old_nodes: Seq<Node>, new_nodes: Seq<Node>, s: Shape, max: nat, l: int)
    requires
        forall|n: int| 0 <= n < old_nodes.len() ==> #[trigger] node_ok(old_nodes, s, max, n),
        leaves_apart(old_nodes, s),
        is_leaf(old_nodes, l),
        is_leaf(new_nodes, l),
        new_nodes.len() == old_nodes.len(),
        forall|n: int| 0 <= n < old_nodes.len() && n != l ==> old_nodes[n] == new_nodes[n],
        new_nodes[l]->Leaf_next == old_nodes[l]->Leaf_next,
        node_ok(new_nodes, s, max, l),
    ensures
        forall|n: int| 0 <= n < new_nodes.len() ==> #[trigger] node_ok(new_nodes, s, max, n),
        leaves_apart(new_nodes, s),
        leaves_sound(new_nodes, s, max),
        leaves_sound(old_nodes, s, max),
{
    assert forall|n: int| 0 <= n < new_nodes.len() implies #[trigger] node_ok(new_nodes, s, max, n) by {
        if n != l {
            assert(node_ok(old_nodes, s, max, n));
            match new_nodes[n] {
                Node::Leaf { entries, next } => {
                    if let Some(x) = next {
                        assert(is_leaf(old_nodes, x as int));
                    }
                },
                Node::Internal { keys, children } => {},
            }
        }
    }
    assert forall|a: int, b: int| #[trigger] is_leaf(new_nodes, a) && #[trigger] is_leaf(new_nodes, b) && a != b implies {
        &&& s.rank[a] != s.rank[b]
        &&& forall|k: KeyView| !(in_bounds(k, s.lo[a], s.hi[a]) && in_bounds(k, s.lo[b], s.hi[b]))
    } by {
        assert(is_leaf(old_nodes, a) && is_leaf(old_nodes, b));
    }
}

/// Removing id `j` of entry `i` (and the entry with its last id) keeps a
/// leaf's entries well formed.
proof fn lemma_remove_leaf_ok(
    old_entries: Seq<(IndexKey, Vec<NovaId>)>,
    new_entries: Seq<(IndexKey, Vec<NovaId>)>,
    i: int,
    j: int,
    emptied: bool,
    lo: Option<KeyView>,
    hi: Option<KeyView>,
    max: nat,
)
    requires
        entries_ok(old_entries, lo, hi, max),
        0 <= i < old_entries.len(),
        0 <= j < old_entries[i].1@.len(),
        emptied == (old_entries[i].1@.len() == 1),
        emptied ==> new_entries == old_entries.remove(i),
        !emptied ==> new_entries.len() == old_entries.len() && (forall|a: int|
            0 <= a < old_entries.len() && a != i ==> new_entries[a] == old_entries[a])
            && new_entries[i].0@ == old_entries[i].0@ && new_entries[i].1@ == old_entries[i].1@.remove(j),
    ensures
        entries_ok(new_entries, lo, hi, max),
{
    assert forall|a: int, b: int| 0 <= a < b < new_entries.len() implies key_lt(#[trigger] new_entries[a].0@, #[trigger] new_entries[b].0@) by {
        let a0 = if emptied && a >= i { a + 1 } else { a };
        let b0 = if emptied && b >= i { b + 1 } else { b };
        assert(new_entries[a].0@ == old_entries[a0].0@);
        assert(new_entries[b].0@ == old_entries[b0].0@);
        assert(key_lt(old_entries[a0].0@, old_entries[b0].0@));
    }
    assert forall|a: int| 0 <= a < new_entries.len() implies in_bounds(#[trigger] new_entries[a].0@, lo, hi)
        && new_entries[a].1@.len() > 0 && ids_sorted(new_entries[a].1@) by {
        let a0 = if emptied && a >= i { a + 1 } else { a };
        assert(in_bounds(old_entries[a0].0@, lo, hi));
        if !(a == i && !emptied) {
            assert(new_entries[a] == old_entries[a0]);
        } else {
            let old_ids = old_entries[i].1@;
            let ids = new_entries[i].1@;
            assert(ids_sorted(old_ids));
            assert forall|x: int, y: int| 0 <= x < y < ids.len() implies seq_order(#[trigger] ids[x]@, #[trigger] ids[y]@) < 0 by {
                let x0 = if x < j { x } else { x + 1 };
                let y0 = if y < j { y } else { y + 1 };
                assert(seq_order(old_ids[x0]@, old_ids[y0]@) < 0);
            }
        }
    }
}

/// The map after removing id `j` of entry `i` of leaf `l`.
proof fn lemma_remove_contents(
    old_nodes: Seq<Node>,
    new_nodes: Seq<Node>,
    s: Shape,
    max: nat,
    l: int,
    i: int,
    j: int,
    emptied: bool,
)
    requires
        leaves_sound(old_nodes, s, max),
        leaves_apart(old_nodes, s),
        leaves_sound(new_nodes, s, max),
        leaves_apart(new_nodes, s),
        is_leaf(old_nodes, l),
        is_leaf(new_nodes, l),
        new_nodes.len() == old_nodes.len(),
        forall|n: int| 0 <= n < old_nodes.len() && n != l ==> old_nodes[n] == new_nodes[n],
        0 <= i < old_nodes[l]->Leaf_entries@.len(),
        0 <= j < old_nodes[l]->Leaf_entries@[i].1@.len(),
        emptied == (old_nodes[l]->Leaf_entries@[i].1@.len() == 1),
        emptied ==> new_nodes[l]->Leaf_entries@ == old_nodes[l]->Leaf_entries@.remove(i),
        !emptied ==> new_nodes[l]->Leaf_entries@.len() == old_nodes[l]->Leaf_entries@.len() && (forall|a: int|
            0 <= a < old_nodes[l]->Leaf_entries@.len() && a != i ==> new_nodes[l]->Leaf_entries@[a]
                == old_nodes[l]->Leaf_entries@[a]) && new_nodes[l]->Leaf_entries@[i].0@
            == old_nodes[l]->Leaf_entries@[i].0@ && new_nodes[l]->Leaf_entries@[i].1@
            == old_nodes[l]->Leaf_entries@[i].1@.remove(j),
    ensures
        contents(old_nodes).contains_key(old_nodes[l]->Leaf_entries@[i].0@),
        contents(old_nodes)[old_nodes[l]->Leaf_entries@[i].0@] == old_nodes[l]->Leaf_entries@[i].1@,
        contents(new_nodes) == if emptied {
            contents(old_nodes).remove(old_nodes[l]->Leaf_entries@[i].0@)
        } else {
            contents(old_nodes).insert(
                old_nodes[l]->Leaf_entries@[i].0@,
                old_nodes[l]->Leaf_entries@[i].1@.remove(j),
            )
        },
{
    let old_entries = old_nodes[l]->Leaf_entries@;
    let new_entries = new_nodes[l]->Leaf_entries@;
    let kv = old_entries[i].0@;
    let old_ids = old_entries[i].1@;
    assert(node_ok(old_nodes, s, max, l));
    lemma_contents_at(old_nodes, s, max, l, i);
    let target = if emptied {
        contents(old_nodes).remove(kv)
    } else {
        contents(old_nodes).insert(kv, old_ids.remove(j))
    };
    assert forall|k: KeyView| #[trigger] contents(new_nodes).contains_key(k) == target.contains_key(k) && (
        target.contains_key(k) ==> contents(new_nodes)[k] == target[k]) by {
        if in_bounds(k, s.lo[l], s.hi[l]) {
            lemma_contents_leaf(old_nodes, s, max, l, k);
            lemma_contents_leaf(new_nodes, s, max, l, k);
            if k != kv {
                if contents(old_nodes).contains_key(k) {
                    let a = choose|a: int| 0 <= a < old_entries.len() && #[trigger] old_entries[a].0@ == k;
                    assert(a != i);
                    let a2 = if emptied && a > i { a - 1 } else { a };
                    assert(new_entries[a2] == old_entries[a]);
                    assert(new_entries[a2].0@ == k);
                }
                if contents(new_nodes).contains_key(k) {
                    let a = choose|a: int| 0 <= a < new_entries.len() && #[trigger] new_entries[a].0@ == k;
                    let a0 = if emptied && a >= i { a + 1 } else { a };
                    assert(old_entries[a0].0@ == k);
                }
            } else {
                if emptied {
                    if contents(new_nodes).contains_key(k) {
                        let a = choose|a: int| 0 <= a < new_entries.len() && #[trigger] new_entries[a].0@ == k;
                        let a0 = if a >= i { a + 1 } else { a };
                        assert(old_entries[a0].0@ == k);
                        assert(node_ok(old_nodes, s, max, l));
                        if a0 < i {
                            assert(key_lt(old_entries[a0].0@, old_entries[i].0@));
                        } else {
                            assert(key_lt(old_entries[i].0@, old_entries[a0].0@));
                        }
                        lemma_key_compare(old_entries[i].0@, old_entries[a0].0@);
                    }
                } else {
                    assert(new_entries[i].0@ == k);
                }
            }
        } else {
            lemma_contents_frame(old_nodes, new_nodes, s, max, l, k);
        }
    }
    assert(contents(new_nodes) =~= target);
}

impl BPlusTree {
    /// Removes one exact `(key, id)` pair, returning whether it existed. A
    /// key whose last id goes is removed.
    pub fn remove(&mut self, key: &IndexKey, id: NovaId) -> (r: bool)
        requires
            old(self).wf(),
        ensures
            final(self).wf(),
            final(self).capacity() == old(self).capacity(),
            final(self).path_view() == old(self).path_view(),
            r == (old(self)@.contains_key(key@) && exists|j: int|
                0 <= j < old(self)@[key@].len() && #[trigger] old(self)@[key@][j]@ == id@),
            !r ==> final(self)@ == old(self)@ && final(self).is_dirty() == old(self).is_dirty(),
            r ==> final(self).is_dirty(),
            r ==> exists|j: int|
                0 <= j < old(self)@[key@].len() && #[trigger] old(self)@[key@][j]@ == id@ && final(self)@
                    == if old(self)@[key@].len() == 1 {
                    old(self)@.remove(key@)
                } else {
                    old(self)@.insert(key@, old(self)@[key@].remove(j))
                },
    {
        let ghost s = self.shape@;
        let ghost max = self.max_keys as nat;
        let ghost old_nodes = self.nodes@;
        let l = self.find_leaf(key);
        proof {
            assert(leaves_sound(old_nodes, s, max));
            assert(node_ok(old_nodes, s, max, l as int));
            lemma_contents_leaf(old_nodes, s, max, l as int, key@);
        }
        let mut node = Node::Leaf { entries: Vec::new(), next: None };
        std::mem::swap(&mut node, &mut self.nodes[l]);
        let (mut entries, next) = match node {
            Node::Leaf { entries, next } => (entries, next),
            Node::Internal { keys, children } => {
                let mut back = Node::Internal { keys, children };
                std::mem::swap(&mut back, &mut self.nodes[l]);
                assert(false);
                return false;
            },
        };
        let ghost old_entries = entries@;
        let i = match find_entry(&entries, key) {
            Some(i) => i,
            None => {
                let mut back = Node::Leaf { entries, next };
                std::mem::swap(&mut back, &mut self.nodes[l]);
                assert(self.nodes@ =~= old_nodes);
                return false;
            },
        };
        let j = match find_id(&entries[i].1, &id) {
            Some(j) => j,
            None => {
                let mut back = Node::Leaf { entries, next };
                std::mem::swap(&mut back, &mut self.nodes[l]);
                assert(self.nodes@ =~= old_nodes);
                return false;
            },
        };
        let (k, mut ids) = entries.remove(i);
        let ghost old_ids = ids@;
        ids.remove(j);
        let emptied = ids.len() == 0;
        if !emptied {
            entries.insert(i, (k, ids));
        }
        let ghost new_entries = entries@;
        let mut back = Node::Leaf { entries, next };
        std::mem::swap(&mut back, &mut self.nodes[l]);
        self.dirty = true;
        proof {
            let new_nodes = self.nodes@;
            assert(new_nodes =~= old_nodes.update(l as int, new_nodes[l as int]));
            assert(old_entries == old_nodes[l as int]->Leaf_entries@);
            lemma_leaf_ok(old_nodes, s, max, l as int);
            lemma_remove_leaf_ok(old_entries, new_entries, i as int, j as int, emptied, s.lo[l as int], s.hi[l as int], max);
            assert(new_nodes[l as int]->Leaf_entries@ == new_entries);
            assert(new_nodes[l as int]->Leaf_next == old_nodes[l as int]->Leaf_next);
            assert(link_ok(new_nodes, s, l as int, new_nodes[l as int]->Leaf_next));
            lemma_leaf_ok(new_nodes, s, max, l as int);
            lemma_replace_leaf(old_nodes, new_nodes, s, max, l as int);
            lemma_remove_contents(old_nodes, new_nodes, s, max, l as int, i as int, j as int, emptied);
            assert(contents(old_nodes)[key@] == old_entries[i as int].1@);
            assert(old_entries[i as int].1@[j as int]@ == id@);
            assert(old(self)@ == contents(old_nodes));
            assert(old(self)@[key@][j as int]@ == id@);
        }
        true
    }
}

/// The views of a list of ids.
pub open spec fn id_views(ids: Seq<NovaId>) -> Seq<Seq<u8>> {
    ids.map_values(|x: NovaId| x@)
}

/// `after` is `before` with `id` added: strictly increasing, holding exactly
/// the ids of `before` and `id`.
pub open spec fn ids_after(before: Seq<NovaId>, id: NovaId, after: Seq<NovaId>) -> bool {
    &&& ids_sorted(after)
    &&& forall|v: Seq<u8>| #[trigger] id_views(after).contains(v) <==> (id_views(before).contains(v) || v == id@)
}

/// The index of an entry with key `k`.
pub open spec fn entry_index(entries: Seq<(IndexKey, Vec<NovaId>)>, k: KeyView) -> int {
    choose|i: int| 0 <= i < entries.len() && #[trigger] entries[i].0@ == k
}

/// The key-to-ids map of a leaf's entries.
pub open spec fn entries_map(entries: Seq<(IndexKey, Vec<NovaId>)>) -> Map<KeyView, Seq<NovaId>> {
    Map::new(
        |k: KeyView| exists|i: int| 0 <= i < entries.len() && #[trigger] entries[i].0@ == k,
        |k: KeyView| entries[entry_index(entries, k)].1@,
    )
}

/// Entries in increasing key order, each with a non-empty increasing id list.
pub open spec fn entries_sound(entries: Seq<(IndexKey, Vec<NovaId>)>) -> bool {
    &&& entries_increasing(entries)
    &&& forall|a: int| 0 <= a < entries.len() ==> #[trigger] entries[a].1@.len() > 0 && ids_sorted(entries[a].1@)
}

/// In increasing entries, the entry at `i` is the map's value for its key.
proof fn lemma_entries_map_at(entries: Seq<(IndexKey, Vec<NovaId>)>, i: int)
    requires
        entries_increasing(entries),
        0 <= i < entries.len(),
    ensures
        entries_map(entries).contains_key(entries[i].0@),
        entries_map(entries)[entries[i].0@] == entries[i].1@,
{
    let k = entries[i].0@;
    assert(entries_map(entries).contains_key(k));
    let j = entry_index(entries, k);
    assert(entries_map(entries)[k] == entries[j].1@);
    if j != i {
        if j < i {
            assert(key_lt(entries[j].0@, entries[i].0@));
        } else {
            assert(key_lt(entries[i].0@, entries[j].0@));
        }
        lemma_key_compare(entries[i].0@, entries[j].0@);
    }
}

/// Where `key` is among increasing entries: `Ok` at its index, or `Err` at
/// the index where it would be inserted.
fn search_entries(entries: &Vec<(IndexKey, Vec<NovaId>)>, key: &IndexKey) -> (r: core::result::Result<usize, usize>)
    requires
        entries_increasing(entries@),
    ensures
        match r {
            Ok(i) => i < entries@.len() && entries@[i as int].0@ == key@,
            Err(i) => i <= entries@.len() && (forall|j: int| 0 <= j < i ==> key_lt(#[trigger] entries@[j].0@, key@))
                && (forall|j: int| i <= j < entries@.len() ==> key_lt(key@, #[trigger] entries@[j].0@)),
        },
{
    let mut i: usize = 0;
    while i < entries.len()
        invariant
            i <= entries@.len(),
            entries_increasing(entries@),
            forall|j: int| 0 <= j < i ==> key_lt(#[trigger] entries@[j].0@, key@),
        decreases entries@.len() - i,
    {
        let c = compare_keys(&entries[i].0, key);
        proof {
            lemma_key_compare(entries@[i as int].0@, key@);
        }
        if c == 0 {
            return Ok(i);
        }
        if c > 0 {
            proof {
                assert forall|j: int| i <= j < entries@.len() implies key_lt(key@, #[trigger] entries@[j].0@) by {
                    if j > i {
                        lemma_key_lt_trans(key@, entries@[i as int].0@, entries@[j].0@);
                    }
                }
            }
            return Err(i);
        }
        i = i + 1;
    }
    Err(i)
}

/// Where `id` is among increasing ids: `Ok` when present, or `Err` at the
/// index where it would be inserted.
fn search_ids(ids: &Vec<NovaId>, id: &NovaId) -> (r: core::result::Result<usize, usize>)
    requires
        ids_sorted(ids@),
    ensures
        match r {
            Ok(j) => j < ids@.len() && ids@[j as int]@ == id@,
            Err(j) => j <= ids@.len() && (forall|a: int| 0 <= a < j ==> seq_order(#[trigger] ids@[a]@, id@) < 0)
                && (forall|a: int| j <= a < ids@.len() ==> seq_order(id@, #[trigger] ids@[a]@) < 0),
        },
{
    let mut j: usize = 0;
    while j < ids.len()
        invariant
            j <= ids@.len(),
            ids_sorted(ids@),
            forall|a: int| 0 <= a < j ==> seq_order(#[trigger] ids@[a]@, id@) < 0,
        decreases ids@.len() - j,
    {
        let c = compare_bytes(ids[j].as_bytes(), id.as_bytes());
        proof {
            lemma_seq_order_zero(ids@[j as int]@, id@);
            lemma_seq_order_antisym(ids@[j as int]@, id@);
        }
        if c == 0 {
            return Ok(j);
        }
        if c > 0 {
            proof {
                assert forall|a: int| j <= a < ids@.len() implies seq_order(id@, #[trigger] ids@[a]@) < 0 by {
                    if a > j {
                        lemma_seq_order_trans(id@, ids@[j as int]@, ids@[a]@);
                    }
                }
            }
            return Err(j);
        }
        j = j + 1;
    }
    Err(j)
}

/// Inserting `id` at its place keeps ids increasing and adds exactly it.
proof fn lemma_ids_insert(ids: Seq<NovaId>, id: NovaId, j: int)
    requires
        ids_sorted(ids),
        0 <= j <= ids.len(),
        forall|a: int| 0 <= a < j ==> seq_order(#[trigger] ids[a]@, id@) < 0,
        forall|a: int| j <= a < ids.len() ==> seq_order(id@, #[trigger] ids[a]@) < 0,
    ensures
        ids_after(ids, id, ids.insert(j, id)),
{
    let n = ids.insert(j, id);
    assert forall|a: int, b: int| 0 <= a < b < n.len() implies seq_order(#[trigger] n[a]@, #[trigger] n[b]@) < 0 by {
        if a < j && b == j {
        } else if a == j {
        } else if b < j {
            assert(seq_order(ids[a]@, ids[b]@) < 0);
        } else if a < j && b > j {
            lemma_seq_order_trans(ids[a]@, id@, ids[b - 1]@);
        } else {
            assert(seq_order(ids[a - 1]@, ids[b - 1]@) < 0);
        }
    }
    assert forall|v: Seq<u8>| #[trigger] id_views(n).contains(v) <==> (id_views(ids).contains(v) || v == id@) by {
        if id_views(n).contains(v) {
            let a = choose|a: int| 0 <= a < id_views(n).len() && id_views(n)[a] == v;
            if a < j {
                assert(id_views(ids)[a] == v);
            } else if a > j {
                assert(id_views(ids)[a - 1] == v);
            }
        }
        if id_views(ids).contains(v) {
            let a = choose|a: int| 0 <= a < id_views(ids).len() && id_views(ids)[a] == v;
            if a < j {
                assert(id_views(n)[a] == v);
            } else {
                assert(id_views(n)[a + 1] == v);
            }
        }
        if v == id@ {
            assert(id_views(n)[j] == v);
        }
    }
}

/// Adds `(key, id)` to increasing entries. The entries stay increasing;
/// their map gains `id` under `key`. Returns whether anything changed (an
/// existing pair is left alone).
fn leaf_insert(entries: &mut Vec<(IndexKey, Vec<NovaId>)>, key: IndexKey, id: NovaId) -> (changed: bool)
    requires
        entries_sound(old(entries)@),
    ensures
        entries_sound(final(entries)@),
        final(entries)@.len() <= old(entries)@.len() + 1,
        !changed ==> final(entries)@ == old(entries)@,
        forall|a: int| 0 <= a < final(entries)@.len() ==> #[trigger] final(entries)@[a].0@ == key@ || exists|b: int|
            0 <= b < old(entries)@.len() && old(entries)@[b] == final(entries)@[a],
        entries_map(final(entries)@).remove(key@) == entries_map(old(entries)@).remove(key@),
        entries_map(final(entries)@).contains_key(key@),
        ids_after(
            if entries_map(old(entries)@).contains_key(key@) {
                entries_map(old(entries)@)[key@]
            } else {
                Seq::empty()
            },
            id,
            entries_map(final(entries)@)[key@],
        ),
{
    let ghost old_e = entries@;
    match search_entries(entries, &key) {
        Ok(i) => {
            match search_ids(&entries[i].1, &id) {
                Ok(j) => {
                    proof {
                        lemma_entries_map_at(old_e, i as int);
                        let ids = old_e[i as int].1@;
                        assert forall|v: Seq<u8>| #[trigger] id_views(ids).contains(v) <==> (id_views(ids).contains(v) || v == id@) by {
                            if v == id@ {
                                assert(id_views(ids)[j as int] == v);
                            }
                        }
                        assert(entries_map(old_e).remove(key@) =~= entries_map(old_e).remove(key@));
                    }
                    false
                },
                Err(j) => {
                    let (k, mut ids) = entries.remove(i);
                    let ghost old_ids = ids@;
                    ids.insert(j, id);
                    proof {
                        lemma_ids_insert(old_ids, id, j as int);
                    }
                    entries.insert(i, (k, ids));
                    proof {
                        let new_e = entries@;
                        assert(new_e =~= old_e.update(i as int, new_e[i as int]));
                        assert(entries_increasing(new_e)) by {
                            assert forall|a: int, b: int| 0 <= a < b < new_e.len() implies key_lt(#[trigger] new_e[a].0@, #[trigger] new_e[b].0@) by {
                                assert(key_lt(old_e[a].0@, old_e[b].0@));
                            }
                        }
                        assert forall|a: int| 0 <= a < new_e.len() implies #[trigger] new_e[a].1@.len() > 0 && ids_sorted(new_e[a].1@) by {
                            if a != i {
                                assert(new_e[a] == old_e[a]);
                            }
                        }
                        lemma_entries_map_at(old_e, i as int);
                        lemma_entries_map_at(new_e, i as int);
                        assert forall|k2: KeyView| #[trigger] entries_map(new_e).remove(key@).contains_key(k2) == entries_map(old_e).remove(key@).contains_key(k2)
                            && (entries_map(new_e).remove(key@).contains_key(k2) ==> entries_map(new_e).remove(key@)[k2] == entries_map(old_e).remove(key@)[k2]) by {
                            if k2 != key@ {
                                if entries_map(old_e).contains_key(k2) {
                                    let a = choose|a: int| 0 <= a < old_e.len() && #[trigger] old_e[a].0@ == k2;
                                    assert(a != i);
                                    assert(new_e[a] == old_e[a]);
                                    lemma_entries_map_at(old_e, a);
                                    lemma_entries_map_at(new_e, a);
                                }
                                if entries_map(new_e).contains_key(k2) {
                                    let a = choose|a: int| 0 <= a < new_e.len() && #[trigger] new_e[a].0@ == k2;
                                    assert(a != i);
                                    assert(new_e[a] == old_e[a]);
                                }
                            }
                        }
                        assert(entries_map(new_e).remove(key@) =~= entries_map(old_e).remove(key@));
                        assert forall|a: int| 0 <= a < new_e.len() implies #[trigger] new_e[a].0@ == key@ || exists|b: int|
                            0 <= b < old_e.len() && old_e[b] == new_e[a] by {
                            if a != i {
                                assert(old_e[a] == new_e[a]);
                            }
                        }
                    }
                    true
                },
            }
        },
        Err(i) => {
            let mut ids: Vec<NovaId> = Vec::new();
            ids.push(id);
            let ghost kv = key@;
            entries.insert(i, (key, ids));
            proof {
                let new_e = entries@;
                assert(new_e =~= old_e.insert(i as int, new_e[i as int]));
                assert(entries_increasing(new_e)) by {
                    assert forall|a: int, b: int| 0 <= a < b < new_e.len() implies key_lt(#[trigger] new_e[a].0@, #[trigger] new_e[b].0@) by {
                        if a < i && b == i {
                        } else if a == i {
                        } else if b < i {
                            assert(key_lt(old_e[a].0@, old_e[b].0@));
                        } else if a < i && b > i {
                            lemma_key_lt_trans(old_e[a].0@, kv, old_e[b - 1].0@);
                        } else {
                            assert(key_lt(old_e[a - 1].0@, old_e[b - 1].0@));
                        }
                    }
                }
                assert forall|a: int| 0 <= a < new_e.len() implies #[trigger] new_e[a].1@.len() > 0 && ids_sorted(new_e[a].1@) by {
                    if a < i {
                        assert(new_e[a] == old_e[a]);
                    } else if a > i {
                        assert(new_e[a] == old_e[a - 1]);
                    }
                }
                assert(!entries_map(old_e).contains_key(kv)) by {
                    if entries_map(old_e).contains_key(kv) {
                        let a = choose|a: int| 0 <= a < old_e.len() && #[trigger] old_e[a].0@ == kv;
                        lemma_key_compare(kv, kv);
                        if a < i {
                            assert(key_lt(old_e[a].0@, kv));
                        } else {
                            assert(key_lt(kv, old_e[a].0@));
                        }
                    }
                }
                lemma_entries_map_at(new_e, i as int);
                let single = new_e[i as int].1@;
                assert(single =~= seq![id]);
                assert forall|a: int, b: int| 0 <= a < b < single.len() implies seq_order(#[trigger] single[a]@, #[trigger] single[b]@) < 0 by {
                }
                assert forall|v: Seq<u8>| #[trigger] id_views(single).contains(v) <==> (id_views(Seq::<NovaId>::empty()).contains(v) || v == id@) by {
                    if v == id@ {
                        assert(id_views(single)[0] == v);
                    }
                }
                assert forall|k2: KeyView| #[trigger] entries_map(new_e).remove(kv).contains_key(k2) == entries_map(old_e).remove(kv).contains_key(k2)
                    && (entries_map(new_e).remove(kv).contains_key(k2) ==> entries_map(new_e).remove(kv)[k2] == entries_map(old_e).remove(kv)[k2]) by {
                    if k2 != kv {
                        if entries_map(old_e).contains_key(k2) {
                            let a = choose|a: int| 0 <= a < old_e.len() && #[trigger] old_e[a].0@ == k2;
                            let a2 = if a < i { a } else { a + 1 };
                            assert(new_e[a2] == old_e[a]);
                            lemma_entries_map_at(old_e, a);
                            lemma_entries_map_at(new_e, a2);
                        }
                        if entries_map(new_e).contains_key(k2) {
                            let a = choose|a: int| 0 <= a < new_e.len() && #[trigger] new_e[a].0@ == k2;
                            assert(a != i);
                            let a0 = if a < i { a } else { a - 1 };
                            assert(new_e[a] == old_e[a0]);
                        }
                    }
                }
                assert(entries_map(new_e).remove(kv) =~= entries_map(old_e).remove(kv));
                assert forall|a: int| 0 <= a < new_e.len() implies #[trigger] new_e[a].0@ == kv || exists|b: int|
                    0 <= b < old_e.len() && old_e[b] == new_e[a] by {
                    if a < i {
                        assert(old_e[a] == new_e[a]);
                    } else if a > i {
                        assert(old_e[a - 1] == new_e[a]);
                    }
                }
            }
            true
        },
    }
}

/// Within leaf `l`'s interval, the map is the map of the leaf's entries.
proof fn lemma_contents_leaf_map(nodes: Seq<Node>, s: Shape, max: nat, l: int, k: KeyView)
    requires
        leaves_sound(nodes, s, max),
        leaves_apart(nodes, s),
        is_leaf(nodes, l),
        in_bounds(k, s.lo[l], s.hi[l]),
    ensures
        contents(nodes).contains_key(k) == entries_map(nodes[l]->Leaf_entries@).contains_key(k),
        contents(nodes).contains_key(k) ==> contents(nodes)[k] == entries_map(nodes[l]->Leaf_entries@)[k],
{
    let e = nodes[l]->Leaf_entries@;
    assert(node_ok(nodes, s, max, l));
    lemma_contents_leaf(nodes, s, max, l, k);
    if contents(nodes).contains_key(k) {
        let i = choose|i: int| 0 <= i < e.len() && #[trigger] e[i].0@ == k;
        lemma_entries_map_at(e, i);
    }
}

/// The map of a whole tree in which only leaf `l` changed, and which keeps
/// `key` in `l`'s interval.
proof fn lemma_contents_replace(
    old_nodes: Seq<Node>,
    new_nodes: Seq<Node>,
    s: Shape,
    max: nat,
    l: int,
    key: KeyView,
)
    requires
        leaves_sound(old_nodes, s, max),
        leaves_apart(old_nodes, s),
        leaves_sound(new_nodes, s, max),
        leaves_apart(new_nodes, s),
        old_nodes.len() == new_nodes.len(),
        forall|n: int| 0 <= n < old_nodes.len() && n != l ==> old_nodes[n] == new_nodes[n],
        is_leaf(old_nodes, l),
        is_leaf(new_nodes, l),
        in_bounds(key, s.lo[l], s.hi[l]),
        entries_map(new_nodes[l]->Leaf_entries@).remove(key) == entries_map(old_nodes[l]->Leaf_entries@).remove(key),
    ensures
        contents(new_nodes).remove(key) == contents(old_nodes).remove(key),
        contents(new_nodes).contains_key(key) == entries_map(new_nodes[l]->Leaf_entries@).contains_key(key),
        contents(new_nodes).contains_key(key) ==> contents(new_nodes)[key] == entries_map(
            new_nodes[l]->Leaf_entries@,
        )[key],
        contents(old_nodes).contains_key(key) == entries_map(old_nodes[l]->Leaf_entries@).contains_key(key),
        contents(old_nodes).contains_key(key) ==> contents(old_nodes)[key] == entries_map(
            old_nodes[l]->Leaf_entries@,
        )[key],
{
    let em_new = entries_map(new_nodes[l]->Leaf_entries@);
    let em_old = entries_map(old_nodes[l]->Leaf_entries@);
    lemma_contents_leaf_map(new_nodes, s, max, l, key);
    lemma_contents_leaf_map(old_nodes, s, max, l, key);
    assert forall|k: KeyView| #[trigger] contents(new_nodes).remove(key).contains_key(k) == contents(old_nodes).remove(key).contains_key(k)
        && (contents(new_nodes).remove(key).contains_key(k) ==> contents(new_nodes).remove(key)[k] == contents(old_nodes).remove(key)[k]) by {
        if k != key {
            if in_bounds(k, s.lo[l], s.hi[l]) {
                lemma_contents_leaf_map(new_nodes, s, max, l, k);
                lemma_contents_leaf_map(old_nodes, s, max, l, k);
                assert(em_new.remove(key).contains_key(k) == em_old.remove(key).contains_key(k));
                if em_new.contains_key(k) {
                    assert(em_new.remove(key)[k] == em_old.remove(key)[k]);
                }
            } else {
                lemma_contents_frame(old_nodes, new_nodes, s, max, l, k);
            }
        }
    }
    assert(contents(new_nodes).remove(key) =~= contents(old_nodes).remove(key));
}

/// The intervals of a split leaf are disjoint.
proof fn lemma_split_disjoint(k: KeyView, sep: KeyView)
    ensures
        !(key_lt(k, sep) && key_le(sep, k)),
{
    if key_lt(k, sep) && key_le(sep, k) {
        lemma_key_lt_trans(k, sep, k);
        lemma_key_compare(k, k);
    }
}

/// The nodes below `n` (following ghost parents), `n` itself too.
pub open spec fn in_subtree(s: Shape, m: int, n: int) -> bool
    decreases s.height[n] - s.height[m],
{
    if m == n {
        true
    } else if 0 <= m < s.parent.len() && 0 <= n < s.height.len() && s.height[m] < s.height[n] && 0 <= s.parent[m]
        < s.height.len() && s.height[m] < s.height[s.parent[m]] && s.height[s.parent[m]] <= s.height[n] {
        in_subtree(s, s.parent[m], n)
    } else {
        false
    }
}

/// The subtree of a child lies in the subtree of its parent.
proof fn lemma_subtree_parent(s: Shape, m: int, c: int, n: int)
    requires
        in_subtree(s, m, c),
        0 <= c < s.parent.len(),
        0 <= n < s.height.len(),
        s.parent.len() == s.height.len(),
        s.parent[c] == n,
        s.height[c] + 1 == s.height[n],
    ensures
        in_subtree(s, m, n),
    decreases s.height[c] - s.height[m],
{
    if m == c {
        assert(in_subtree(s, n, n));
    } else {
        lemma_subtree_parent(s, s.parent[m], c, n);
    }
}

/// Nodes other than `old_len`-bounded subtree members keep node and shape.
pub open spec fn framed(old_nodes: Seq<Node>, old_s: Shape, new_nodes: Seq<Node>, new_s: Shape, n: int) -> bool {
    forall|m: int|
        0 <= m < old_nodes.len() && !#[trigger] in_subtree(old_s, m, n) ==> {
            &&& new_nodes[m] == old_nodes[m]
            &&& new_s.height[m] == old_s.height[m]
            &&& new_s.lo[m] == old_s.lo[m]
            &&& new_s.hi[m] == old_s.hi[m]
            &&& new_s.parent[m] == old_s.parent[m]
        }
}

/// The whole arena is well formed under the shape.
pub open spec fn tree_ok(nodes: Seq<Node>, s: Shape, max: nat) -> bool {
    &&& shape_sized(nodes, s)
    &&& forall|m: int| 0 <= m < nodes.len() ==> #[trigger] node_ok(nodes, s, max, m)
    &&& leaves_apart(nodes, s)
}

/// The map after adding `id` under `key`.
pub open spec fn inserted(before: Map<KeyView, Seq<NovaId>>, key: KeyView, id: NovaId, after: Map<KeyView, Seq<NovaId>>) -> bool {
    &&& after.remove(key) == before.remove(key)
    &&& after.contains_key(key)
    &&& ids_after(if before.contains_key(key) { before[key] } else { Seq::empty() }, id, after[key])
}

/// The map of a tree in which leaf `l` was split into `l` and a new leaf
/// `rr` at separator `sep`: inside `l`'s old interval it is the map of the
/// two halves together; outside it is unchanged.
proof fn lemma_contents_split(
    old_nodes: Seq<Node>,
    new_nodes: Seq<Node>,
    so: Shape,
    sn: Shape,
    max: nat,
    l: int,
    rr: int,
    sep: KeyView,
    k: KeyView,
)
    requires
        leaves_sound(old_nodes, so, max),
        leaves_apart(old_nodes, so),
        leaves_sound(new_nodes, sn, max),
        leaves_apart(new_nodes, sn),
        new_nodes.len() == old_nodes.len() + 1,
        rr == old_nodes.len(),
        forall|n: int| 0 <= n < old_nodes.len() && n != l ==> old_nodes[n] == new_nodes[n],
        forall|n: int|
            0 <= n < old_nodes.len() && n != l && #[trigger] is_leaf(old_nodes, n) ==> sn.lo[n] == so.lo[n]
                && sn.hi[n] == so.hi[n],
        is_leaf(old_nodes, l),
        is_leaf(new_nodes, l),
        is_leaf(new_nodes, rr),
        sn.lo[l] == so.lo[l],
        sn.hi[l] == Some(sep),
        sn.lo[rr] == Some(sep),
        sn.hi[rr] == so.hi[l],
        in_bounds(sep, so.lo[l], so.hi[l]),
    ensures
        in_bounds(k, so.lo[l], so.hi[l]) ==> {
            let em = entries_map(new_nodes[l]->Leaf_entries@ + new_nodes[rr]->Leaf_entries@);
            &&& contents(new_nodes).contains_key(k) == em.contains_key(k)
            &&& em.contains_key(k) ==> contents(new_nodes)[k] == em[k]
        },
        !in_bounds(k, so.lo[l], so.hi[l]) ==> {
            &&& contents(new_nodes).contains_key(k) == contents(old_nodes).contains_key(k)
            &&& contents(old_nodes).contains_key(k) ==> contents(new_nodes)[k] == contents(old_nodes)[k]
        },
{
    let left = new_nodes[l]->Leaf_entries@;
    let right = new_nodes[rr]->Leaf_entries@;
    let all = left + right;
    assert(node_ok(new_nodes, sn, max, l));
    assert(node_ok(new_nodes, sn, max, rr));
    lemma_leaf_ok(new_nodes, sn, max, l);
    lemma_leaf_ok(new_nodes, sn, max, rr);
    if in_bounds(k, so.lo[l], so.hi[l]) {
        let em = entries_map(all);
        if key_lt(k, sep) {
            lemma_contents_leaf_map(new_nodes, sn, max, l, k);
            let eml = entries_map(left);
            if eml.contains_key(k) {
                let i = choose|i: int| 0 <= i < left.len() && #[trigger] left[i].0@ == k;
                lemma_entries_map_at(left, i);
                assert(all[i] == left[i]);
                assert(entries_increasing(all)) by {
                    assert forall|a: int, b: int| 0 <= a < b < all.len() implies key_lt(#[trigger] all[a].0@, #[trigger] all[b].0@) by {
                        if b < left.len() {
                            assert(key_lt(left[a].0@, left[b].0@));
                        } else if a >= left.len() {
                            assert(key_lt(right[a - left.len()].0@, right[b - left.len()].0@));
                        } else {
                            assert(in_bounds(left[a].0@, sn.lo[l], sn.hi[l]));
                            assert(in_bounds(right[b - left.len()].0@, sn.lo[rr], sn.hi[rr]));
                            lemma_key_lt_trans(left[a].0@, sep, right[b - left.len()].0@);
                        }
                    }
                }
                lemma_entries_map_at(all, i);
            }
            if em.contains_key(k) {
                let i = choose|i: int| 0 <= i < all.len() && #[trigger] all[i].0@ == k;
                if i >= left.len() {
                    assert(in_bounds(right[i - left.len()].0@, sn.lo[rr], sn.hi[rr]));
                    lemma_split_disjoint(k, sep);
                }
                assert(left[i].0@ == k);
            }
        } else {
            assert(key_le(sep, k)) by {
                lemma_key_compare(k, sep);
            }
            lemma_contents_leaf_map(new_nodes, sn, max, rr, k);
            let emr = entries_map(right);
            assert(entries_increasing(all)) by {
                assert forall|a: int, b: int| 0 <= a < b < all.len() implies key_lt(#[trigger] all[a].0@, #[trigger] all[b].0@) by {
                    if b < left.len() {
                        assert(key_lt(left[a].0@, left[b].0@));
                    } else if a >= left.len() {
                        assert(key_lt(right[a - left.len()].0@, right[b - left.len()].0@));
                    } else {
                        assert(in_bounds(left[a].0@, sn.lo[l], sn.hi[l]));
                        assert(in_bounds(right[b - left.len()].0@, sn.lo[rr], sn.hi[rr]));
                        lemma_key_lt_trans(left[a].0@, sep, right[b - left.len()].0@);
                    }
                }
            }
            if emr.contains_key(k) {
                let i = choose|i: int| 0 <= i < right.len() && #[trigger] right[i].0@ == k;
                lemma_entries_map_at(right, i);
                assert(all[i + left.len()] == right[i]);
                lemma_entries_map_at(all, i + left.len());
            }
            if em.contains_key(k) {
                let i = choose|i: int| 0 <= i < all.len() && #[trigger] all[i].0@ == k;
                if i < left.len() {
                    assert(in_bounds(left[i].0@, sn.lo[l], sn.hi[l]));
                    lemma_split_disjoint(k, sep);
                }
                assert(right[i - left.len()].0@ == k);
            }
        }
    } else {
        if stored(old_nodes, k) {
            let (m, i) = choose|m: int, i: int| #[trigger] entry_at(old_nodes, m, i, k);
            assert(node_ok(old_nodes, so, max, m));
            assert(m != l);
            assert(entry_at(new_nodes, m, i, k));
            lemma_contents_at(old_nodes, so, max, m, i);
            lemma_contents_at(new_nodes, sn, max, m, i);
        }
        if stored(new_nodes, k) {
            let (m, i) = choose|m: int, i: int| #[trigger] entry_at(new_nodes, m, i, k);
            assert(node_ok(new_nodes, sn, max, m));
            if m == l {
                assert(in_bounds(left[i].0@, sn.lo[l], sn.hi[l]));
                if let Some(h) = so.hi[l] {
                    lemma_key_lt_trans(k, sep, h);
                }
            } else if m == rr {
                assert(in_bounds(right[i].0@, sn.lo[rr], sn.hi[rr]));
                if let Some(lo) = so.lo[l] {
                    lemma_key_le_trans(lo, sep, k);
                }
            }
            if m != l && m != rr {
                assert(is_leaf(old_nodes, m));
                assert(entry_at(old_nodes, m, i, k));
            }
        }
    }
}

/// What inserting into the subtree of `n` leaves behind: the map gains the
/// pair, nothing outside the subtree changes, and either every node is well
/// formed, or `n` split off a new right sibling `rr` at separator `sep` and
/// only the parent of `n` still has to take it in.
pub open spec fn insert_post(
    on: Seq<Node>,
    os: Shape,
    nn: Seq<Node>,
    ns: Shape,
    max: nat,
    n: int,
    key: KeyView,
    id: NovaId,
    r: Option<(IndexKey, usize)>,
) -> bool {
    &&& nn.len() >= on.len()
    &&& shape_sized(nn, ns)
    &&& framed(on, os, nn, ns, n)
    &&& ns.height[n] == os.height[n]
    &&& ns.lo[n] == os.lo[n]
    &&& ns.parent[n] == os.parent[n]
    &&& inserted(contents(on), key, id, contents(nn))
    &&& leaves_apart(nn, ns)
    &&& match r {
        None => {
            &&& forall|m: int| 0 <= m < nn.len() ==> #[trigger] node_ok(nn, ns, max, m)
            &&& ns.hi[n] == os.hi[n]
        },
        Some((sep, rr)) => {
            &&& forall|m: int| 0 <= m < nn.len() && m != os.parent[n] ==> #[trigger] node_ok(nn, ns, max, m)
            &&& on.len() <= rr < nn.len()
            &&& ns.hi[n] == Some(sep@)
            &&& strictly_inside(sep@, os.lo[n], os.hi[n])
            &&& ns.height[rr as int] == os.height[n]
            &&& ns.lo[rr as int] == Some(sep@)
            &&& ns.hi[rr as int] == os.hi[n]
            &&& ns.parent[rr as int] == os.parent[n]
        },
    }
}

/// The ranks after leaf `n` is split and the new leaf `rr` follows it in
/// the chain: every later leaf moves up by one.
pub open spec fn shifted_ranks(nodes: Seq<Node>, s: Shape, n: int, rr: int) -> Seq<nat> {
    Seq::new(
        (nodes.len() + 1) as nat,
        |m: int|
            if m == rr {
                s.rank[n] + 1
            } else if is_leaf(nodes, m) && s.rank[m] > s.rank[n] {
                s.rank[m] + 1
            } else {
                s.rank[m]
            },
    )
}

/// After a leaf split, every node but the split leaf's parent is well
/// formed and the leaves stay apart.
proof fn lemma_leaf_split_ok(
    on: Seq<Node>,
    os: Shape,
    nn: Seq<Node>,
    ns: Shape,
    max: nat,
    n: int,
    rr: int,
    sep: KeyView,
)
    requires
        tree_ok(on, os, max),
        is_leaf(on, n),
        rr == on.len(),
        nn.len() == on.len() + 1,
        on.len() <= usize::MAX,
        forall|m: int| 0 <= m < on.len() && m != n ==> nn[m] == on[m],
        is_leaf(nn, n),
        is_leaf(nn, rr),
        nn[n]->Leaf_next == Some(rr as usize),
        nn[rr]->Leaf_next == on[n]->Leaf_next,
        entries_ok(nn[n]->Leaf_entries@, os.lo[n], Some(sep), max),
        entries_ok(nn[rr]->Leaf_entries@, Some(sep), os.hi[n], max),
        strictly_inside(sep, os.lo[n], os.hi[n]),
        ns.height == os.height.push(0),
        ns.lo == os.lo.push(Some(sep)),
        ns.hi == os.hi.update(n, Some(sep)).push(os.hi[n]),
        ns.parent == os.parent.push(os.parent[n]),
        ns.rank == shifted_ranks(on, os, n, rr),
        os.parent[n] == -1 || (0 <= os.parent[n] < on.len() && on[os.parent[n]] is Internal),
    ensures
        shape_sized(nn, ns),
        forall|m: int| 0 <= m < nn.len() && m != os.parent[n] ==> #[trigger] node_ok(nn, ns, max, m),
        leaves_apart(nn, ns),
        leaves_sound(nn, ns, max),
{
    assert(node_ok(on, os, max, n));
    lemma_leaf_ok(on, os, max, n);
    let rn = os.rank[n];
    assert forall|m: int| 0 <= m < nn.len() && m != os.parent[n] implies #[trigger] node_ok(nn, ns, max, m) by {
        if m == n {
            assert(ns.rank[n] == rn);
            assert(ns.rank[rr] == rn + 1);
            assert(ns.hi[n] == Some(sep));
            assert(ns.lo[rr] == Some(sep));
            assert(ns.height[n] == 0);
            assert(link_ok(nn, ns, n, nn[n]->Leaf_next));
            lemma_leaf_ok(nn, ns, max, n);
        } else if m == rr {
            let next = on[n]->Leaf_next;
            if let Some(x) = next {
                assert(is_leaf(on, x as int));
                assert(x as int != n);
                assert(os.rank[x as int] > rn);
                assert(is_leaf(nn, x as int));
            }
            assert(link_ok(nn, ns, rr, nn[rr]->Leaf_next));
            lemma_leaf_ok(nn, ns, max, rr);
        } else {
            assert(node_ok(on, os, max, m));
            assert(nn[m] == on[m]);
            match on[m] {
                Node::Leaf { entries, next } => {
                    lemma_leaf_ok(on, os, max, m);
                    assert(is_leaf(on, m));
                    if let Some(x) = next {
                        assert(is_leaf(on, x as int));
                        assert(is_leaf(nn, x as int));
                        if x as int == n {
                            assert(os.rank[m] < rn);
                        } else {
                            assert(os.rank[x as int] == os.rank[m] + 1);
                            if os.rank[m] < rn && os.rank[x as int] == rn {
                                assert(is_leaf(on, x as int) && is_leaf(on, n));
                            }
                        }
                    }
                    assert(link_ok(nn, ns, m, next));
                    assert(entries_ok(nn[m]->Leaf_entries@, ns.lo[m], ns.hi[m], max));
                    lemma_leaf_ok(nn, ns, max, m);
                },
                Node::Internal { keys, children } => {
                    assert forall|i: int| 0 <= i < children@.len() implies {
                        let c = #[trigger] children@[i] as int;
                        &&& 0 <= c < nn.len()
                        &&& ns.height[c] + 1 == ns.height[m]
                        &&& ns.parent[c] == m
                        &&& ns.lo[c] == if i == 0 { ns.lo[m] } else { Some(keys@[i - 1]@) }
                        &&& ns.hi[c] == if i == keys@.len() { ns.hi[m] } else { Some(keys@[i]@) }
                    } by {
                        let c = children@[i] as int;
                        assert(os.parent[c] == m);
                        assert(c != n);
                    }
                },
            }
        }
    }
    assert forall|m: int| #[trigger] is_leaf(nn, m) implies node_ok(nn, ns, max, m) by {
        if m == os.parent[n] {
            assert(m != n);
            assert(nn[m] == on[m]);
        }
    }
    assert forall|a: int, b: int| #[trigger] is_leaf(nn, a) && #[trigger] is_leaf(nn, b) && a != b implies {
        &&& ns.rank[a] != ns.rank[b]
        &&& forall|k: KeyView| !(in_bounds(k, ns.lo[a], ns.hi[a]) && in_bounds(k, ns.lo[b], ns.hi[b]))
    } by {
        assert forall|k: KeyView| !(in_bounds(k, ns.lo[a], ns.hi[a]) && in_bounds(k, ns.lo[b], ns.hi[b])) by {
            if (a == n && b == rr) || (a == rr && b == n) {
                lemma_split_disjoint(k, sep);
            } else if a == n || a == rr {
                assert(is_leaf(on, b));
                if in_bounds(k, ns.lo[a], ns.hi[a]) {
                    if a == n {
                        if let Some(h) = os.hi[n] {
                            lemma_key_lt_trans(k, sep, h);
                        }
                    } else {
                        if let Some(lo) = os.lo[n] {
                            lemma_key_le_trans(lo, sep, k);
                        }
                    }
                    assert(in_bounds(k, os.lo[n], os.hi[n]));
                }
            } else if b == n || b == rr {
                assert(is_leaf(on, a));
                if in_bounds(k, ns.lo[b], ns.hi[b]) {
                    if b == n {
                        if let Some(h) = os.hi[n] {
                            lemma_key_lt_trans(k, sep, h);
                        }
                    } else {
                        if let Some(lo) = os.lo[n] {
                            lemma_key_le_trans(lo, sep, k);
                        }
                    }
                    assert(in_bounds(k, os.lo[n], os.hi[n]));
                }
            } else {
                assert(is_leaf(on, a) && is_leaf(on, b));
            }
        }
        if a == rr {
            assert(is_leaf(on, b) || b == n);
            if b != n {
                if os.rank[b] == rn + 1 {
                } else {
                    assert(is_leaf(on, b) && is_leaf(on, n));
                }
            }
        } else if b == rr {
            if a != n {
                assert(is_leaf(on, a) && is_leaf(on, n));
            }
        } else {
            assert(is_leaf(on, a) && is_leaf(on, b));
        }
    }
}

impl BPlusTree {
    /// Inserts into leaf `n`, splitting it when it overflows.
    fn insert_leaf(&mut self, n: usize, key: IndexKey, id: NovaId) -> (r: Option<(IndexKey, usize)>)
        requires
            tree_ok(old(self).nodes@, old(self).shape@, old(self).max_keys as nat),
            is_leaf(old(self).nodes@, n as int),
            in_bounds(key@, old(self).shape@.lo[n as int], old(self).shape@.hi[n as int]),
            old(self).max_keys >= MIN_MAX_KEYS,
            old(self).shape@.parent[n as int] == -1 || (0 <= old(self).shape@.parent[n as int] < old(self).nodes@.len()
                && old(self).nodes@[old(self).shape@.parent[n as int]] is Internal),
        ensures
            insert_post(
                old(self).nodes@,
                old(self).shape@,
                final(self).nodes@,
                final(self).shape@,
                old(self).max_keys as nat,
                n as int,
                key@,
                id,
                r,
            ),
            final(self).max_keys == old(self).max_keys,
            final(self).root == old(self).root,
            final(self).path == old(self).path,
    {
        let ghost on = self.nodes@;
        let ghost os = self.shape@;
        let ghost max = self.max_keys as nat;
        let ghost kv = key@;
        let mut node = Node::Leaf { entries: Vec::new(), next: None };
        std::mem::swap(&mut node, &mut self.nodes[n]);
        let (mut entries, next) = match node {
            Node::Leaf { entries, next } => (entries, next),
            Node::Internal { keys, children } => {
                assert(false);
                (Vec::new(), None)
            },
        };
        let ghost old_e = entries@;
        proof {
            assert(node_ok(on, os, max, n as int));
            lemma_leaf_ok(on, os, max, n as int);
            assert(old_e == on[n as int]->Leaf_entries@);
            assert(entries_ok(old_e, os.lo[n as int], os.hi[n as int], max));
            assert forall|a: int| 0 <= a < old_e.len() implies #[trigger] old_e[a].1@.len() > 0 && ids_sorted(old_e[a].1@) by {
                assert(in_bounds(old_e[a].0@, os.lo[n as int], os.hi[n as int]));
            }
        }
        let _changed = leaf_insert(&mut entries, key, id);
        let ghost mid_e = entries@;
        proof {
            assert forall|a: int| 0 <= a < mid_e.len() implies in_bounds(#[trigger] mid_e[a].0@, os.lo[n as int], os.hi[n as int]) by {
                if mid_e[a].0@ != kv {
                    let b = choose|b: int| 0 <= b < old_e.len() && old_e[b] == mid_e[a];
                    assert(in_bounds(old_e[b].0@, os.lo[n as int], os.hi[n as int]));
                }
            }
        }
        if entries.len() <= self.max_keys {
            let mut back = Node::Leaf { entries, next };
            std::mem::swap(&mut back, &mut self.nodes[n]);
            self.dirty = true;
            proof {
                let nn = self.nodes@;
                assert(nn =~= on.update(n as int, nn[n as int]));
                assert(nn[n as int]->Leaf_entries@ == mid_e);
                assert(entries_ok(mid_e, os.lo[n as int], os.hi[n as int], max));
                assert(link_ok(nn, os, n as int, nn[n as int]->Leaf_next)) by {
                    if let Some(x) = next {
                        assert(is_leaf(nn, x as int));
                    }
                }
                lemma_leaf_ok(nn, os, max, n as int);
                lemma_replace_leaf(on, nn, os, max, n as int);
                lemma_contents_replace(on, nn, os, max, n as int, kv);
                assert(contents(nn).remove(kv) == contents(on).remove(kv));
                assert(framed(on, os, nn, os, n as int));
            }
            return None;
        }
        let mid = entries.len() / 2;
        let right = entries.split_off(mid);
        let sep = clone_key(&right[0].0);
        let rr = self.nodes.len();
        let ghost left_e = entries@;
        let ghost right_e = right@;
        let mut back = Node::Leaf { entries, next: Some(rr) };
        std::mem::swap(&mut back, &mut self.nodes[n]);
        self.nodes.push(Node::Leaf { entries: right, next });
        self.dirty = true;
        let ghost sv = sep@;
        let ghost ns = Shape {
            height: os.height.push(0),
            lo: os.lo.push(Some(sv)),
            hi: os.hi.update(n as int, Some(sv)).push(os.hi[n as int]),
            parent: os.parent.push(os.parent[n as int]),
            rank: shifted_ranks(on, os, n as int, rr as int),
        };
        self.shape = Ghost(ns);
        proof {
            let nn = self.nodes@;
            assert(mid_e =~= left_e + right_e);
            assert(sv == mid_e[mid as int].0@);
            assert(entries_ok(left_e, os.lo[n as int], Some(sv), max)) by {
                assert forall|a: int| 0 <= a < left_e.len() implies in_bounds(#[trigger] left_e[a].0@, os.lo[n as int], Some(sv))
                    && left_e[a].1@.len() > 0 && ids_sorted(left_e[a].1@) by {
                    assert(left_e[a] == mid_e[a]);
                    assert(in_bounds(mid_e[a].0@, os.lo[n as int], os.hi[n as int]));
                    assert(key_lt(mid_e[a].0@, mid_e[mid as int].0@));
                }
                assert forall|a: int, b: int| 0 <= a < b < left_e.len() implies key_lt(#[trigger] left_e[a].0@, #[trigger] left_e[b].0@) by {
                    assert(left_e[a] == mid_e[a] && left_e[b] == mid_e[b]);
                }
            }
            assert(entries_ok(right_e, Some(sv), os.hi[n as int], max)) by {
                assert forall|a: int| 0 <= a < right_e.len() implies in_bounds(#[trigger] right_e[a].0@, Some(sv), os.hi[n as int])
                    && right_e[a].1@.len() > 0 && ids_sorted(right_e[a].1@) by {
                    assert(right_e[a] == mid_e[a + mid]);
                    assert(in_bounds(mid_e[a + mid].0@, os.lo[n as int], os.hi[n as int]));
                    if a > 0 {
                        assert(key_lt(mid_e[mid as int].0@, mid_e[a + mid].0@));
                    }
                    lemma_key_compare(mid_e[mid as int].0@, mid_e[a + mid].0@);
                }
                assert forall|a: int, b: int| 0 <= a < b < right_e.len() implies key_lt(#[trigger] right_e[a].0@, #[trigger] right_e[b].0@) by {
                    assert(right_e[a] == mid_e[a + mid] && right_e[b] == mid_e[b + mid]);
                }
            }
            assert(in_bounds(sv, os.lo[n as int], os.hi[n as int]));
            assert(nn[n as int]->Leaf_entries@ == left_e);
            assert(nn[rr as int]->Leaf_entries@ == right_e);
            assert(strictly_inside(sv, os.lo[n as int], os.hi[n as int])) by {
                if let Some(lo) = os.lo[n as int] {
                    assert(key_le(lo, mid_e[0].0@));
                    assert(key_lt(mid_e[0].0@, sv));
                    lemma_key_compare(lo, mid_e[0].0@);
                    if lo != mid_e[0].0@ {
                        lemma_key_lt_trans(lo, mid_e[0].0@, sv);
                    }
                }
            }
            lemma_leaf_split_ok(on, os, nn, ns, max, n as int, rr as int, sv);
            assert(tree_ok(on, os, max));
            assert(leaves_sound(on, os, max));
            assert forall|m: int|
                0 <= m < on.len() && m != n && #[trigger] is_leaf(on, m) implies ns.lo[m] == os.lo[m] && ns.hi[m] == os.hi[m] by {
            }
            assert forall|k: KeyView| #[trigger] contents(nn).remove(kv).contains_key(k) == contents(on).remove(kv).contains_key(k)
                && (contents(nn).remove(kv).contains_key(k) ==> contents(nn).remove(kv)[k] == contents(on).remove(kv)[k]) by {
                lemma_contents_split(on, nn, os, ns, max, n as int, rr as int, sv, k);
                if k != kv && in_bounds(k, os.lo[n as int], os.hi[n as int]) {
                    lemma_contents_leaf_map(on, os, max, n as int, k);
                    assert(nn[n as int]->Leaf_entries@ + nn[rr as int]->Leaf_entries@ == mid_e);
                    assert(entries_map(mid_e).remove(kv).contains_key(k) == entries_map(old_e).remove(kv).contains_key(k));
                    if entries_map(mid_e).contains_key(k) {
                        assert(entries_map(mid_e).remove(kv)[k] == entries_map(old_e).remove(kv)[k]);
                        assert(entries_map(mid_e)[k] == entries_map(old_e)[k]);
                    }
                    assert(old_e == on[n as int]->Leaf_entries@);
                }
            }
            assert(contents(nn).remove(kv) =~= contents(on).remove(kv));
            lemma_contents_split(on, nn, os, ns, max, n as int, rr as int, sv, kv);
            lemma_contents_leaf_map(on, os, max, n as int, kv);
            assert(nn[n as int]->Leaf_entries@ + nn[rr as int]->Leaf_entries@ == mid_e);
            assert(framed(on, os, nn, ns, n as int)) by {
                assert forall|m: int| 0 <= m < on.len() && !#[trigger] in_subtree(os, m, n as int) implies {
                    &&& nn[m] == on[m]
                    &&& ns.height[m] == os.height[m]
                    &&& ns.lo[m] == os.lo[m]
                    &&& ns.hi[m] == os.hi[m]
                    &&& ns.parent[m] == os.parent[m]
                } by {
                    assert(m != n);
                }
            }
        }
        Some((sep, rr))
    }
}

/// The children of a well-formed internal node are distinct.
proof fn lemma_children_distinct(keys: Seq<IndexKey>, children: Seq<usize>, count: int, s: Shape, n: int, a: int, b: int)
    requires
        internal_ok(keys, children, count, s, n),
        0 <= a < b < children.len(),
    ensures
        children[a] != children[b],
{
    let ca = children[a] as int;
    let cb = children[b] as int;
    if ca == cb {
        assert(s.lo[cb] == Some(keys[b - 1]@));
        if a == 0 {
            assert(strictly_inside(keys[b - 1]@, s.lo[n], s.hi[n]));
            lemma_key_compare(keys[b - 1]@, keys[b - 1]@);
        } else {
            assert(s.lo[ca] == Some(keys[a - 1]@));
            assert(key_lt(keys[a - 1]@, keys[b - 1]@));
            lemma_key_compare(keys[a - 1]@, keys[b - 1]@);
        }
    }
}

/// A sibling of `c` (another child of its parent) lies outside `c`'s
/// subtree, and so does the parent.
proof fn lemma_not_below(s: Shape, m: int, c: int)
    requires
        0 <= m < s.height.len(),
        0 <= c < s.height.len(),
        m != c,
        s.height[m] >= s.height[c],
    ensures
        !in_subtree(s, m, c),
{
}

/// Taking the separator `sep` and the new sibling `rr` of child `i` into
/// an internal node keeps its separators and children well formed.
proof fn lemma_absorb(
    on: Seq<Node>,
    os: Shape,
    nn: Seq<Node>,
    ns: Shape,
    n: int,
    keys: Seq<IndexKey>,
    children: Seq<usize>,
    i: int,
    sep: IndexKey,
    rr: usize,
)
    requires
        internal_ok(keys, children, on.len() as int, os, n),
        shape_sized(on, os),
        0 <= n < on.len(),
        0 <= i < children.len(),
        framed(on, os, nn, ns, children[i] as int),
        nn.len() >= on.len(),
        ns.height[children[i] as int] == os.height[children[i] as int],
        ns.lo[children[i] as int] == os.lo[children[i] as int],
        ns.parent[children[i] as int] == os.parent[children[i] as int],
        ns.hi[children[i] as int] == Some(sep@),
        strictly_inside(sep@, os.lo[children[i] as int], os.hi[children[i] as int]),
        on.len() <= rr < nn.len(),
        ns.height[rr as int] == os.height[children[i] as int],
        ns.lo[rr as int] == Some(sep@),
        ns.hi[rr as int] == os.hi[children[i] as int],
        ns.parent[rr as int] == os.parent[children[i] as int],
    ensures
        internal_ok(keys.insert(i, sep), children.insert(i + 1, rr), nn.len() as int, ns, n),
        ns.height[n] == os.height[n],
        ns.lo[n] == os.lo[n],
        ns.hi[n] == os.hi[n],
{
    let c = children[i] as int;
    let k2 = keys.insert(i, sep);
    let c2 = children.insert(i + 1, rr);
    assert(os.height[c] + 1 == os.height[n]);
    lemma_not_below(os, n, c);
    assert(!in_subtree(os, n, c));
    assert(keys_increasing(k2)) by {
        assert forall|a: int, b: int| 0 <= a < b < k2.len() implies key_lt(#[trigger] k2[a]@, #[trigger] k2[b]@) by {
            if a < i && b == i {
                assert(os.lo[c] == Some(keys[i - 1]@));
                if a < i - 1 {
                    lemma_key_lt_trans(keys[a]@, keys[i - 1]@, sep@);
                }
            } else if a == i {
                assert(os.hi[c] == Some(keys[i]@));
                if b - 1 > i {
                    lemma_key_lt_trans(sep@, keys[i]@, keys[b - 1]@);
                }
            } else if b < i {
                assert(key_lt(keys[a]@, keys[b]@));
            } else if a < i && b > i {
                assert(key_lt(keys[a]@, keys[b - 1]@));
            } else {
                assert(key_lt(keys[a - 1]@, keys[b - 1]@));
            }
        }
    }
    assert forall|j: int| 0 <= j < k2.len() implies strictly_inside(#[trigger] k2[j]@, ns.lo[n], ns.hi[n]) by {
        if j < i {
            assert(strictly_inside(keys[j]@, os.lo[n], os.hi[n]));
        } else if j > i {
            assert(strictly_inside(keys[j - 1]@, os.lo[n], os.hi[n]));
        } else {
            if i > 0 {
                assert(strictly_inside(keys[i - 1]@, os.lo[n], os.hi[n]));
                if let Some(lo) = os.lo[n] {
                    lemma_key_lt_trans(lo, keys[i - 1]@, sep@);
                }
            }
            if i < keys.len() {
                assert(strictly_inside(keys[i]@, os.lo[n], os.hi[n]));
                if let Some(hi) = os.hi[n] {
                    lemma_key_lt_trans(sep@, keys[i]@, hi);
                }
            }
        }
    }
    assert forall|j: int| 0 <= j < c2.len() implies {
        let x = #[trigger] c2[j] as int;
        &&& 0 <= x < nn.len()
        &&& ns.height[x] + 1 == ns.height[n]
        &&& ns.parent[x] == n
        &&& ns.lo[x] == if j == 0 { ns.lo[n] } else { Some(k2[j - 1]@) }
        &&& ns.hi[x] == if j == k2.len() { ns.hi[n] } else { Some(k2[j]@) }
    } by {
        if j < i {
            let x = children[j] as int;
            lemma_children_distinct(keys, children, on.len() as int, os, n, j, i);
            assert(os.height[x] == os.height[c]);
            lemma_not_below(os, x, c);
        } else if j > i + 1 {
            let x = children[j - 1] as int;
            lemma_children_distinct(keys, children, on.len() as int, os, n, i, j - 1);
            assert(os.height[x] == os.height[c]);
            lemma_not_below(os, x, c);
        }
    }
}

/// Node `m` is one of the children after position `middle`.
pub open spec fn in_right(children: Seq<usize>, middle: int, m: int) -> bool {
    exists|j: int| middle < j < children.len() && #[trigger] children[j] as int == m
}

/// The shape after internal node `n` with children `children` is split at
/// `middle` into itself and a new node `rn`.
pub open spec fn split_shape(s: Shape, n: int, rn: int, sep: KeyView, children: Seq<usize>, middle: int) -> Shape {
    Shape {
        height: s.height.push(s.height[n]),
        lo: s.lo.push(Some(sep)),
        hi: s.hi.update(n, Some(sep)).push(s.hi[n]),
        parent: Seq::new(
            (s.parent.len() + 1) as nat,
            |m: int|
                if m == rn {
                    s.parent[n]
                } else if in_right(children, middle, m) {
                    rn
                } else {
                    s.parent[m]
                },
        ),
        rank: s.rank.push(0),
    }
}

/// Splitting an overfull internal node leaves every node but its parent
/// well formed.
proof fn lemma_internal_split(
    n1: Seq<Node>,
    s1: Shape,
    n2: Seq<Node>,
    s2: Shape,
    max: nat,
    n: int,
    rn: int,
    keys: Seq<IndexKey>,
    children: Seq<usize>,
    middle: int,
)
    requires
        internal_ok(keys, children, n1.len() as int, s1, n),
        shape_sized(n1, s1),
        0 <= n < n1.len(),
        n1[n] is Internal,
        max >= 3,
        keys.len() == max + 1,
        middle == keys.len() / 2,
        forall|m: int| 0 <= m < n1.len() && m != n && m != s1.parent[n] ==> #[trigger] node_ok(n1, s1, max, m),
        leaves_apart(n1, s1),
        rn == n1.len(),
        n2.len() == n1.len() + 1,
        forall|m: int| 0 <= m < n1.len() && m != n ==> n2[m] == n1[m],
        n2[n] is Internal,
        n2[n]->Internal_keys@ == keys.subrange(0, middle),
        n2[n]->Internal_children@ == children.subrange(0, middle + 1),
        n2[rn] is Internal,
        n2[rn]->Internal_keys@ == keys.subrange(middle + 1, keys.len() as int),
        n2[rn]->Internal_children@ == children.subrange(middle + 1, children.len() as int),
        s2 == split_shape(s1, n, rn, keys[middle]@, children, middle),
        s1.parent[n] == -1 || (0 <= s1.parent[n] < n1.len() && n1[s1.parent[n]] is Internal),
    ensures
        shape_sized(n2, s2),
        forall|m: int| 0 <= m < n2.len() && m != s1.parent[n] ==> #[trigger] node_ok(n2, s2, max, m),
        leaves_apart(n2, s2),
        strictly_inside(keys[middle]@, s1.lo[n], s1.hi[n]),
{
    let sep = keys[middle]@;
    let lk = keys.subrange(0, middle);
    let lc = children.subrange(0, middle + 1);
    let rk = keys.subrange(middle + 1, keys.len() as int);
    let rc = children.subrange(middle + 1, children.len() as int);
    assert(strictly_inside(sep, s1.lo[n], s1.hi[n]));
    assert forall|m: int| 0 <= m < n1.len() && m != rn && !in_right(children, middle, m) implies s2.parent[m] == s1.parent[m] by {
    }
    assert forall|j: int| middle < j < children.len() implies #[trigger] s2.parent[children[j] as int] == rn by {
        assert(in_right(children, middle, children[j] as int));
        assert(children[j] as int != rn) by {
            assert(0 <= children[j] as int && (children[j] as int) < n1.len());
        }
    }
    assert forall|j: int| 0 <= j <= middle implies !in_right(children, middle, #[trigger] children[j] as int) by {
        if in_right(children, middle, children[j] as int) {
            let j2 = choose|j2: int| middle < j2 < children.len() && #[trigger] children[j2] as int == children[j] as int;
            lemma_children_distinct(keys, children, n1.len() as int, s1, n, j, j2);
        }
    }
    // the left half
    assert(internal_ok(lk, lc, n2.len() as int, s2, n)) by {
        assert forall|a: int, b: int| 0 <= a < b < lk.len() implies key_lt(#[trigger] lk[a]@, #[trigger] lk[b]@) by {
            assert(key_lt(keys[a]@, keys[b]@));
        }
        assert forall|j: int| 0 <= j < lk.len() implies strictly_inside(#[trigger] lk[j]@, s2.lo[n], s2.hi[n]) by {
            assert(strictly_inside(keys[j]@, s1.lo[n], s1.hi[n]));
            assert(key_lt(keys[j]@, keys[middle]@));
        }
        assert forall|j: int| 0 <= j < lc.len() implies {
            let x = #[trigger] lc[j] as int;
            &&& 0 <= x < n2.len()
            &&& s2.height[x] + 1 == s2.height[n]
            &&& s2.parent[x] == n
            &&& s2.lo[x] == if j == 0 { s2.lo[n] } else { Some(lk[j - 1]@) }
            &&& s2.hi[x] == if j == lk.len() { s2.hi[n] } else { Some(lk[j]@) }
        } by {
            let x = children[j] as int;
            assert(lc[j] == children[j]);
            assert(!in_right(children, middle, x));
            assert(x != n) by {
                assert(s1.height[x] + 1 == s1.height[n]);
            }
        }
    }
    // the right half
    assert(internal_ok(rk, rc, n2.len() as int, s2, rn)) by {
        assert forall|a: int, b: int| 0 <= a < b < rk.len() implies key_lt(#[trigger] rk[a]@, #[trigger] rk[b]@) by {
            assert(key_lt(keys[a + middle + 1]@, keys[b + middle + 1]@));
        }
        assert forall|j: int| 0 <= j < rk.len() implies strictly_inside(#[trigger] rk[j]@, s2.lo[rn], s2.hi[rn]) by {
            assert(strictly_inside(keys[j + middle + 1]@, s1.lo[n], s1.hi[n]));
            assert(key_lt(keys[middle]@, keys[j + middle + 1]@));
        }
        assert forall|j: int| 0 <= j < rc.len() implies {
            let x = #[trigger] rc[j] as int;
            &&& 0 <= x < n2.len()
            &&& s2.height[x] + 1 == s2.height[rn]
            &&& s2.parent[x] == rn
            &&& s2.lo[x] == if j == 0 { s2.lo[rn] } else { Some(rk[j - 1]@) }
            &&& s2.hi[x] == if j == rk.len() { s2.hi[rn] } else { Some(rk[j]@) }
        } by {
            let x = children[j + middle + 1] as int;
            assert(rc[j] == children[j + middle + 1]);
            assert(s2.parent[x] == rn);
            assert(x != n) by {
                assert(s1.height[x] + 1 == s1.height[n]);
            }
        }
    }
    assert forall|m: int| 0 <= m < n2.len() && m != s1.parent[n] implies #[trigger] node_ok(n2, s2, max, m) by {
        if m == n {
            assert(lk.len() <= max);
        } else if m == rn {
            assert(rk.len() <= max);
        } else {
            assert(node_ok(n1, s1, max, m));
            assert(n2[m] == n1[m]);
            match n1[m] {
                Node::Leaf { entries, next } => {
                    lemma_leaf_ok(n1, s1, max, m);
                    if let Some(x) = next {
                        assert(is_leaf(n1, x as int));
                        assert(x as int != n);
                        assert(is_leaf(n2, x as int));
                    }
                    assert(link_ok(n2, s2, m, next));
                    lemma_leaf_ok(n2, s2, max, m);
                },
                Node::Internal { keys: mk, children: mc } => {
                    assert forall|j: int| 0 <= j < mc@.len() implies {
                        let x = #[trigger] mc@[j] as int;
                        &&& 0 <= x < n2.len()
                        &&& s2.height[x] + 1 == s2.height[m]
                        &&& s2.parent[x] == m
                        &&& s2.lo[x] == if j == 0 { s2.lo[m] } else { Some(mk@[j - 1]@) }
                        &&& s2.hi[x] == if j == mk@.len() { s2.hi[m] } else { Some(mk@[j]@) }
                    } by {
                        let x = mc@[j] as int;
                        assert(s1.parent[x] == m);
                        assert(x != n);
                        if in_right(children, middle, x) {
                            let j2 = choose|j2: int| middle < j2 < children.len() && #[trigger] children[j2] as int == x;
                            assert(s1.parent[children[j2] as int] == n);
                        }
                    }
                },
            }
        }
    }
    assert forall|a: int, b: int| #[trigger] is_leaf(n2, a) && #[trigger] is_leaf(n2, b) && a != b implies {
        &&& s2.rank[a] != s2.rank[b]
        &&& forall|k: KeyView| !(in_bounds(k, s2.lo[a], s2.hi[a]) && in_bounds(k, s2.lo[b], s2.hi[b]))
    } by {
        assert(a != n && a != rn && b != n && b != rn);
        assert(is_leaf(n1, a) && is_leaf(n1, b));
    }
}

/// Changing or adding internal nodes leaves the map alone.
proof fn lemma_contents_internal(n1: Seq<Node>, n2: Seq<Node>, s1: Shape, s2: Shape, max: nat, n: int)
    requires
        leaves_sound(n1, s1, max),
        leaves_apart(n1, s1),
        leaves_sound(n2, s2, max),
        leaves_apart(n2, s2),
        n1.len() <= n2.len(),
        forall|m: int| 0 <= m < n1.len() && m != n ==> n2[m] == n1[m],
        0 <= n < n1.len() ==> n1[n] is Internal && n2[n] is Internal,
        forall|m: int| n1.len() <= m < n2.len() ==> #[trigger] n2[m] is Internal,
    ensures
        contents(n2) == contents(n1),
{
    assert forall|k: KeyView, m: int, i: int| #[trigger] entry_at(n1, m, i, k) == #[trigger] entry_at(n2, m, i, k) by {
        if entry_at(n2, m, i, k) {
            assert(m < n1.len());
            assert(m != n);
        }
        if entry_at(n1, m, i, k) {
            assert(m != n);
        }
    }
    assert forall|k: KeyView| #[trigger] stored(n1, k) == stored(n2, k) by {
        if stored(n1, k) {
            let (m, i) = choose|m: int, i: int| #[trigger] entry_at(n1, m, i, k);
            assert(entry_at(n2, m, i, k));
        }
        if stored(n2, k) {
            let (m, i) = choose|m: int, i: int| #[trigger] entry_at(n2, m, i, k);
            assert(entry_at(n1, m, i, k));
        }
    }
    assert forall|k: KeyView| #[trigger] contents(n1).contains_key(k) implies contents(n1)[k] == contents(n2)[k] by {
        let (m1, i1) = choose|m: int, i: int| #[trigger] entry_at(n1, m, i, k);
        assert(entry_at(n2, m1, i1, k));
        lemma_contents_at(n1, s1, max, m1, i1);
        lemma_contents_at(n2, s2, max, m1, i1);
    }
    assert(contents(n2) =~= contents(n1));
}

/// Replacing internal node `n` by another internal node keeps every other
/// node's invariant.
proof fn lemma_replace_internal(n1: Seq<Node>, n2: Seq<Node>, s: Shape, max: nat, n: int, skip: int)
    requires
        forall|m: int| 0 <= m < n1.len() && m != n && m != skip ==> #[trigger] node_ok(n1, s, max, m),
        n2.len() == n1.len(),
        0 <= n < n1.len(),
        n1[n] is Internal,
        n2[n] is Internal,
        forall|m: int| 0 <= m < n1.len() && m != n ==> n2[m] == n1[m],
        leaves_apart(n1, s),
    ensures
        forall|m: int| 0 <= m < n2.len() && m != n && m != skip ==> #[trigger] node_ok(n2, s, max, m),
        leaves_apart(n2, s),
{
    assert forall|m: int| 0 <= m < n2.len() && m != n && m != skip implies #[trigger] node_ok(n2, s, max, m) by {
        assert(node_ok(n1, s, max, m));
        match n1[m] {
            Node::Leaf { entries, next } => {
                lemma_leaf_ok(n1, s, max, m);
                if let Some(x) = next {
                    assert(is_leaf(n1, x as int));
                    assert(is_leaf(n2, x as int));
                }
                assert(link_ok(n2, s, m, next));
                lemma_leaf_ok(n2, s, max, m);
            },
            Node::Internal { .. } => {},
        }
    }
    assert forall|a: int, b: int| #[trigger] is_leaf(n2, a) && #[trigger] is_leaf(n2, b) && a != b implies {
        &&& s.rank[a] != s.rank[b]
        &&& forall|k: KeyView| !(in_bounds(k, s.lo[a], s.hi[a]) && in_bounds(k, s.lo[b], s.hi[b]))
    } by {
        assert(is_leaf(n1, a) && is_leaf(n1, b));
    }
}

impl BPlusTree {
    /// Inserts into the subtree of `n`; a split of `n` is handed back as its
    /// separator and new right sibling.
    fn insert_node(&mut self, n: usize, key: IndexKey, id: NovaId) -> (r: Option<(IndexKey, usize)>)
        requires
            tree_ok(old(self).nodes@, old(self).shape@, old(self).max_keys as nat),
            0 <= n < old(self).nodes@.len(),
            in_bounds(key@, old(self).shape@.lo[n as int], old(self).shape@.hi[n as int]),
            old(self).max_keys >= MIN_MAX_KEYS,
            old(self).max_keys % 2 == 1,
            old(self).shape@.parent[n as int] == -1 || (0 <= old(self).shape@.parent[n as int] < old(self).nodes@.len()
                && old(self).nodes@[old(self).shape@.parent[n as int]] is Internal
                && old(self).shape@.height[old(self).shape@.parent[n as int]] > old(self).shape@.height[n as int]),
        ensures
            insert_post(
                old(self).nodes@,
                old(self).shape@,
                final(self).nodes@,
                final(self).shape@,
                old(self).max_keys as nat,
                n as int,
                key@,
                id,
                r,
            ),
            final(self).max_keys == old(self).max_keys,
            final(self).root == old(self).root,
            final(self).path == old(self).path,
        decreases old(self).shape@.height[n as int],
    {
        let leaf = match &self.nodes[n] {
            Node::Leaf { .. } => true,
            Node::Internal { .. } => false,
        };
        if leaf {
            return self.insert_leaf(n, key, id);
        }
        let ghost on = self.nodes@;
        let ghost os = self.shape@;
        let ghost max = self.max_keys as nat;
        let ghost kv = key@;
        proof {
            assert(node_ok(on, os, max, n as int));
        }
        let (i, c) = match &self.nodes[n] {
            Node::Internal { keys, children } => {
                let i = child_index(keys, &key);
                (i, children[i])
            },
            Node::Leaf { .. } => {
                assert(false);
                (0, 0)
            },
        };
        let ghost k0 = on[n as int]->Internal_keys@;
        let ghost c0 = on[n as int]->Internal_children@;
        proof {
            assert(c0[i as int] == c);
            assert(os.height[c as int] + 1 == os.height[n as int]);
            assert(os.parent[c as int] == n);
            if i > 0 {
                assert(key_le(k0[i - 1]@, kv));
            }
        }
        let res = self.insert_node(c, key, id);
        let ghost n1 = self.nodes@;
        let ghost s1 = self.shape@;
        proof {
            lemma_not_below(os, n as int, c as int);
            assert forall|m: int| 0 <= m < on.len() && !#[trigger] in_subtree(os, m, n as int) implies !in_subtree(os, m, c as int) by {
                if in_subtree(os, m, c as int) {
                    lemma_subtree_parent(os, m, c as int, n as int);
                }
            }
            assert(n1[n as int] == on[n as int]);
            assert(in_subtree(os, n as int, n as int));
        }
        match res {
            None => {
                proof {
                    assert(framed(on, os, n1, s1, n as int));
                }
                return None;
            },
            Some((sep, rr)) => {
                let mut node = Node::Leaf { entries: Vec::new(), next: None };
                std::mem::swap(&mut node, &mut self.nodes[n]);
                let (mut keys, mut children) = match node {
                    Node::Internal { keys, children } => (keys, children),
                    Node::Leaf { .. } => {
                        assert(false);
                        (Vec::new(), Vec::new())
                    },
                };
                assert(keys@ == k0 && children@ == c0);
                let ghost sepv = sep@;
                assert(i < children.len());
                keys.insert(i, sep);
                children.insert(i + 1, rr);
                let ghost k1 = keys@;
                let ghost c1 = children@;
                proof {
                    assert(internal_ok(k0, c0, on.len() as int, os, n as int));
                    lemma_absorb(on, os, n1, s1, n as int, k0, c0, i as int, k1[i as int], rr);
                    assert(k1 =~= k0.insert(i as int, k1[i as int]));
                    assert(c1 =~= c0.insert(i as int + 1, rr));
                }
                if keys.len() <= self.max_keys {
                    let mut back = Node::Internal { keys, children };
                    std::mem::swap(&mut back, &mut self.nodes[n]);
                    self.dirty = true;
                    proof {
                        let n2 = self.nodes@;
                        assert(n2 =~= n1.update(n as int, n2[n as int]));
                        lemma_replace_internal(n1, n2, s1, max, n as int, n as int);
                        assert(node_ok(n2, s1, max, n as int));
                        assert(leaves_sound(n2, s1, max));
                        lemma_contents_internal(n1, n2, s1, s1, max, n as int);
                        assert(framed(on, os, n2, s1, n as int));
                    }
                    return None;
                }
                let middle = keys.len() / 2;
                let right_keys = keys.split_off(middle + 1);
                let sep_n = match keys.pop() {
                    Some(k) => k,
                    None => {
                        assert(false);
                        IndexKey::Int64(0)
                    },
                };
                let right_children = children.split_off(middle + 1);
                let rn = self.nodes.len();
                let ghost sv = sep_n@;
                let mut back = Node::Internal { keys, children };
                std::mem::swap(&mut back, &mut self.nodes[n]);
                self.nodes.push(Node::Internal { keys: right_keys, children: right_children });
                self.dirty = true;
                let ghost s2 = split_shape(s1, n as int, rn as int, sv, c1, middle as int);
                self.shape = Ghost(s2);
                proof {
                    let n2 = self.nodes@;
                    assert(sv == k1[middle as int]@);
                    assert(n2[n as int]->Internal_keys@ =~= k1.subrange(0, middle as int));
                    assert(n2[n as int]->Internal_children@ =~= c1.subrange(0, middle as int + 1));
                    assert(n2[rn as int]->Internal_keys@ =~= k1.subrange(middle as int + 1, k1.len() as int));
                    assert(n2[rn as int]->Internal_children@ =~= c1.subrange(middle as int + 1, c1.len() as int));
                    assert(s1.parent[n as int] == os.parent[n as int]);
                    assert(n1[n as int] is Internal);
                    if os.parent[n as int] != -1 {
                        let p = os.parent[n as int];
                        lemma_not_below(os, p, c as int);
                        assert(n1[p] == on[p]);
                    }
                    lemma_internal_split(n1, s1, n2, s2, max, n as int, rn as int, k1, c1, middle as int);
                    assert(leaves_sound(n1, s1, max));
                    assert(leaves_sound(n2, s2, max));
                    lemma_contents_internal(n1, n2, s1, s2, max, n as int);
                    assert(framed(on, os, n2, s2, n as int)) by {
                        assert forall|m: int| 0 <= m < on.len() && !#[trigger] in_subtree(os, m, n as int) implies {
                            &&& n2[m] == on[m]
                            &&& s2.height[m] == os.height[m]
                            &&& s2.lo[m] == os.lo[m]
                            &&& s2.hi[m] == os.hi[m]
                            &&& s2.parent[m] == os.parent[m]
                        } by {
                            assert(!in_subtree(os, m, c as int));
                            assert(m != n);
                            if in_right(c1, middle as int, m) {
                                let j = choose|j: int| middle < j < c1.len() && #[trigger] c1[j] as int == m;
                                if j == i + 1 {
                                    assert(m == rr);
                                } else {
                                    let j0 = if j < i + 1 { j } else { j - 1 };
                                    assert(c0[j0] as int == m);
                                    assert(os.parent[m] == n);
                                    assert(os.height[m] + 1 == os.height[n as int]);
                                    assert(in_subtree(os, n as int, n as int));
                                    assert(in_subtree(os, m, n as int));
                                }
                            }
                        }
                    }
                }
                return Some((sep_n, rn));
            },
        }
    }

    /// Inserts a document id under `key`; inserting a pair that is already
    /// there changes nothing.
    pub fn insert(&mut self, key: IndexKey, id: NovaId) -> (r: Result<()>)
        requires
            old(self).wf(),
        ensures
            final(self).wf(),
            r is Ok,
            inserted(old(self)@, key@, id, final(self)@),
            final(self).is_dirty(),
            final(self).capacity() == old(self).capacity(),
            final(self).path_view() == old(self).path_view(),
    {
        let ghost on = self.nodes@;
        let ghost os = self.shape@;
        let ghost max = self.max_keys as nat;
        let root = self.root;
        match self.insert_node(root, key, id) {
            None => {},
            Some((sep, right)) => {
                let ghost s1 = self.shape@;
                let ghost n1 = self.nodes@;
                let ghost sv = sep@;
                let new_root = self.nodes.len();
                let mut keys: Vec<IndexKey> = Vec::new();
                keys.push(sep);
                let mut children: Vec<usize> = Vec::new();
                children.push(root);
                children.push(right);
                self.nodes.push(Node::Internal { keys, children });
                self.root = new_root;
                let ghost s2 = Shape {
                    height: s1.height.push(s1.height[root as int] + 1),
                    lo: s1.lo.push(None),
                    hi: s1.hi.push(None),
                    parent: s1.parent.update(root as int, new_root as int).update(right as int, new_root as int).push(-1),
                    rank: s1.rank.push(0),
                };
                self.shape = Ghost(s2);
                proof {
                    let n2 = self.nodes@;
                    assert forall|m: int| 0 <= m < n2.len() implies #[trigger] node_ok(n2, s2, max, m) by {
                        if m == new_root {
                            assert(n2[m]->Internal_keys@ =~= seq![n2[m]->Internal_keys@[0]]);
                            assert(internal_ok(n2[m]->Internal_keys@, n2[m]->Internal_children@, n2.len() as int, s2, m));
                        } else {
                            assert(node_ok(n1, s1, max, m));
                            assert(n2[m] == n1[m]);
                            match n1[m] {
                                Node::Leaf { entries, next } => {
                                    lemma_leaf_ok(n1, s1, max, m);
                                    if let Some(x) = next {
                                        assert(is_leaf(n2, x as int));
                                    }
                                    assert(link_ok(n2, s2, m, next));
                                    lemma_leaf_ok(n2, s2, max, m);
                                },
                                Node::Internal { keys: mk, children: mc } => {
                                    assert forall|j: int| 0 <= j < mc@.len() implies {
                                        let x = #[trigger] mc@[j] as int;
                                        &&& 0 <= x < n2.len()
                                        &&& s2.height[x] + 1 == s2.height[m]
                                        &&& s2.parent[x] == m
                                        &&& s2.lo[x] == if j == 0 { s2.lo[m] } else { Some(mk@[j - 1]@) }
                                        &&& s2.hi[x] == if j == mk@.len() { s2.hi[m] } else { Some(mk@[j]@) }
                                    } by {
                                        let x = mc@[j] as int;
                                        assert(s1.parent[x] == m);
                                        assert(x != root as int);
                                        assert(x != right as int);
                                    }
                                },
                            }
                        }
                    }
                    assert forall|a: int, b: int| #[trigger] is_leaf(n2, a) && #[trigger] is_leaf(n2, b) && a != b implies {
                        &&& s2.rank[a] != s2.rank[b]
                        &&& forall|k: KeyView| !(in_bounds(k, s2.lo[a], s2.hi[a]) && in_bounds(k, s2.lo[b], s2.hi[b]))
                    } by {
                        assert(is_leaf(n1, a) && is_leaf(n1, b));
                    }
                    assert forall|k: KeyView| #[trigger] contents(n2).contains_key(k) == contents(n1).contains_key(k)
                        && (contents(n1).contains_key(k) ==> contents(n2)[k] == contents(n1)[k]) by {
                        if stored(n1, k) {
                            let (m, i) = choose|m: int, i: int| #[trigger] entry_at(n1, m, i, k);
                            assert(entry_at(n2, m, i, k));
                        }
                        if stored(n2, k) {
                            let (m, i) = choose|m: int, i: int| #[trigger] entry_at(n2, m, i, k);
                            assert(m != new_root);
                            assert(entry_at(n1, m, i, k));
                        }
                        if contents(n1).contains_key(k) {
                            let (m, i) = choose|m: int, i: int| #[trigger] entry_at(n1, m, i, k);
                            assert(is_leaf(n1, m));
                            assert(leaves_sound(n1, s1, max));
                            lemma_contents_at(n1, s1, max, m, i);
                            assert(entry_at(n2, m, i, k));
                            assert(leaves_sound(n2, s2, max));
                            lemma_contents_at(n2, s2, max, m, i);
                        }
                    }
                    assert(contents(n2) =~= contents(n1));
                }
            },
        }
        self.dirty = true;
        Ok(())
    }
}

/// The view of an output pair.
pub open spec fn pair_view(p: (IndexKey, NovaId)) -> (KeyView, Seq<u8>) {
    (p.0@, p.1@)
}

/// The views of output pairs.
pub open spec fn pairs_view(v: Seq<(IndexKey, NovaId)>) -> Seq<(KeyView, Seq<u8>)> {
    v.map_values(|p: (IndexKey, NovaId)| pair_view(p))
}

/// Pairs ordered by key, then by id.
pub open spec fn pair_lt(a: (KeyView, Seq<u8>), b: (KeyView, Seq<u8>)) -> bool {
    key_lt(a.0, b.0) || (a.0 == b.0 && seq_order(a.1, b.1) < 0)
}

/// Pairs in strictly increasing order.
pub open spec fn pairs_sorted(v: Seq<(KeyView, Seq<u8>)>) -> bool {
    forall|i: int, j: int| 0 <= i < j < v.len() ==> pair_lt(#[trigger] v[i], #[trigger] v[j])
}

/// The pair `(k, id)` is stored and `k` lies in `[start, end]`.
pub open spec fn in_range(m: Map<KeyView, Seq<NovaId>>, start: KeyView, end: KeyView, p: (KeyView, Seq<u8>)) -> bool {
    &&& key_le(start, p.0)
    &&& key_le(p.0, end)
    &&& m.contains_key(p.0)
    &&& id_views(m[p.0]).contains(p.1)
}

/// The pair comes from an entry of `entries` whose key lies in
/// `[start, end]`.
pub open spec fn from_entries(entries: Seq<(IndexKey, Vec<NovaId>)>, start: KeyView, end: KeyView, p: (KeyView, Seq<u8>)) -> bool {
    exists|a: int|
        0 <= a < entries.len() && #[trigger] entries[a].0@ == p.0 && key_le(start, p.0) && key_le(p.0, end)
            && id_views(entries[a].1@).contains(p.1)
}

/// One more entry taken into the collected pairs.
proof fn lemma_collect_step(
    e: Seq<(IndexKey, Vec<NovaId>)>,
    i: int,
    start: KeyView,
    end: KeyView,
    pv: Seq<(KeyView, Seq<u8>)>,
    nv: Seq<(KeyView, Seq<u8>)>,
    taken: bool,
)
    requires
        0 <= i < e.len(),
        forall|p: (KeyView, Seq<u8>)| pv.contains(p) <==> from_entries(e.take(i), start, end, p),
        key_le(e[i].0@, end),
        taken == key_le(start, e[i].0@),
        nv.len() == pv.len() + if taken { e[i].1@.len() } else { 0 },
        forall|q: int| 0 <= q < pv.len() ==> nv[q] == pv[q],
        taken ==> forall|q: int| 0 <= q < e[i].1@.len() ==> nv[pv.len() + q] == (e[i].0@, e[i].1@[q]@),
    ensures
        forall|p: (KeyView, Seq<u8>)| nv.contains(p) <==> from_entries(e.take(i + 1), start, end, p),
{
    let kv = e[i].0@;
    let ids = e[i].1@;
    assert forall|p: (KeyView, Seq<u8>)| nv.contains(p) <==> from_entries(e.take(i + 1), start, end, p) by {
        let t0 = e.take(i);
        let t1 = e.take(i + 1);
        if nv.contains(p) {
            let q = choose|q: int| 0 <= q < nv.len() && nv[q] == p;
            if q < pv.len() {
                assert(pv[q] == p);
                assert(pv.contains(p));
                assert(from_entries(t0, start, end, p));
                let a = choose|a: int| 0 <= a < t0.len() && #[trigger] t0[a].0@ == p.0 && key_le(start, p.0) && key_le(p.0, end)
                    && id_views(t0[a].1@).contains(p.1);
                assert(t1[a] == t0[a]);
                assert(from_entries(t1, start, end, p));
            } else {
                let x = q - pv.len();
                assert(nv[pv.len() + x] == (kv, ids[x]@));
                assert(id_views(ids)[x] == p.1);
                assert(t1[i] == e[i]);
                assert(from_entries(t1, start, end, p));
            }
        }
        if from_entries(t1, start, end, p) {
            let a = choose|a: int| 0 <= a < t1.len() && #[trigger] t1[a].0@ == p.0 && key_le(start, p.0) && key_le(p.0, end)
                && id_views(t1[a].1@).contains(p.1);
            if a < i {
                assert(t0[a] == t1[a]);
                assert(from_entries(t0, start, end, p));
                assert(pv.contains(p));
                let q = choose|q: int| 0 <= q < pv.len() && pv[q] == p;
                assert(nv[q] == p);
            } else {
                assert(a == i);
                assert(t1[a] == e[i]);
                let x = choose|x: int| 0 <= x < id_views(ids).len() && id_views(ids)[x] == p.1;
                assert(nv[pv.len() + x] == (kv, ids[x]@));
                assert(nv[pv.len() + x] == p);
            }
        }
    }
}

/// Appending the pairs of one entry, whose key lies above every key
/// collected so far, keeps the collected pairs sorted.
proof fn lemma_collect_sorted(
    pv: Seq<(KeyView, Seq<u8>)>,
    nv: Seq<(KeyView, Seq<u8>)>,
    kv: KeyView,
    ids: Seq<NovaId>,
    added: int,
)
    requires
        pairs_sorted(pv),
        ids_sorted(ids),
        0 <= added <= ids.len(),
        nv.len() == pv.len() + added,
        forall|q: int| 0 <= q < pv.len() ==> nv[q] == pv[q],
        forall|q: int| 0 <= q < added ==> nv[pv.len() + q] == (kv, ids[q]@),
        forall|q: int| 0 <= q < pv.len() ==> key_lt((#[trigger] pv[q]).0, kv),
    ensures
        pairs_sorted(nv),
{
    assert forall|a: int, b: int| 0 <= a < b < nv.len() implies pair_lt(#[trigger] nv[a], #[trigger] nv[b]) by {
        if b < pv.len() {
            assert(nv[a] == pv[a] && nv[b] == pv[b]);
        } else if a >= pv.len() {
            assert(nv[pv.len() + (a - pv.len())] == (kv, ids[a - pv.len()]@));
            assert(nv[pv.len() + (b - pv.len())] == (kv, ids[b - pv.len()]@));
            assert(seq_order(ids[a - pv.len()]@, ids[b - pv.len()]@) < 0);
        } else {
            assert(nv[a] == pv[a]);
            assert(key_lt(pv[a].0, kv));
            assert(nv[pv.len() + (b - pv.len())] == (kv, ids[b - pv.len()]@));
        }
    }
}

/// Appends, in order, the pairs of the entries whose keys lie in
/// `[start, end]`; returns whether an entry past `end` was seen.
fn collect_entries(
    entries: &Vec<(IndexKey, Vec<NovaId>)>,
    start: &IndexKey,
    end: &IndexKey,
    out: &mut Vec<(IndexKey, NovaId)>,
) -> (past_end: bool)
    requires
        entries_sound(entries@),
    ensures
        final(out)@.len() >= old(out)@.len(),
        final(out)@.subrange(0, old(out)@.len() as int) == old(out)@,
        pairs_sorted(pairs_view(final(out)@.subrange(old(out)@.len() as int, final(out)@.len() as int))),
        forall|p: (KeyView, Seq<u8>)|
            pairs_view(final(out)@.subrange(old(out)@.len() as int, final(out)@.len() as int)).contains(p)
                <==> from_entries(entries@, start@, end@, p),
        past_end == exists|a: int| 0 <= a < entries@.len() && key_lt(end@, #[trigger] entries@[a].0@),
{
    let ghost base = out@.len();
    let ghost e = entries@;
    let mut i: usize = 0;
    while i < entries.len()
        invariant
            i <= e.len(),
            e == entries@,
            entries_sound(e),
            out@.len() >= base,
            out@.subrange(0, base as int) == old(out)@,
            base == old(out)@.len(),
            pairs_sorted(pairs_view(out@.subrange(base as int, out@.len() as int))),
            forall|p: (KeyView, Seq<u8>)|
                pairs_view(out@.subrange(base as int, out@.len() as int)).contains(p)
                    <==> from_entries(e.take(i as int), start@, end@, p),
            forall|a: int| 0 <= a < i ==> !key_lt(end@, #[trigger] e[a].0@),
            forall|q: int| base <= q < out@.len() ==> exists|a: int| 0 <= a < i && #[trigger] e[a].0@ == (#[trigger] out@[q]).0@,
        decreases e.len() - i,
    {
        let key = &entries[i].0;
        let c_end = compare_keys(key, end);
        if c_end > 0 {
            proof {
                lemma_key_compare(key@, end@);
                assert forall|p: (KeyView, Seq<u8>)| from_entries(e.take(i as int), start@, end@, p) == from_entries(e, start@, end@, p) by {
                    if from_entries(e, start@, end@, p) {
                        let a = choose|a: int| 0 <= a < e.len() && #[trigger] e[a].0@ == p.0 && key_le(start@, p.0) && key_le(p.0, end@)
                            && id_views(e[a].1@).contains(p.1);
                        if a >= i {
                            if a > i {
                                assert(key_lt(e[i as int].0@, e[a].0@));
                                lemma_key_lt_trans(end@, e[i as int].0@, e[a].0@);
                            }
                            lemma_key_compare(end@, p.0);
                        }
                        assert(e.take(i as int)[a] == e[a]);
                    }
                    if from_entries(e.take(i as int), start@, end@, p) {
                        let a = choose|a: int| 0 <= a < e.take(i as int).len() && #[trigger] e.take(i as int)[a].0@ == p.0 && key_le(start@, p.0) && key_le(p.0, end@)
                            && id_views(e.take(i as int)[a].1@).contains(p.1);
                        assert(e[a] == e.take(i as int)[a]);
                    }
                }
            }
            return true;
        }
        let c_start = compare_keys(key, start);
        let ghost before = out@;
        assert(forall|p: (KeyView, Seq<u8>)|
            pairs_view(before.subrange(base as int, before.len() as int)).contains(p)
                <==> from_entries(e.take(i as int), start@, end@, p));
        if c_start >= 0 {
            let ids = &entries[i].1;
            let mut j: usize = 0;
            while j < ids.len()
                invariant
                    j <= ids@.len(),
                    ids@ == e[i as int].1@,
                    key@ == e[i as int].0@,
                    i < e.len(),
                    e == entries@,
                    out@.len() == before.len() + j,
                    out@.subrange(0, before.len() as int) == before,
                    forall|q: int| 0 <= q < j ==> pair_view(#[trigger] out@[before.len() + q]) == (e[i as int].0@, ids@[q]@),
                decreases ids@.len() - j,
            {
                let ghost prev = out@;
                let kc = clone_key(key);
                let idj = ids[j];
                out.push((kc, idj));
                proof {
                    assert(out@[before.len() + j] == (kc, idj));
                    assert(kc@ == e[i as int].0@);
                    assert(idj == ids@[j as int]);
                    assert forall|q: int| 0 <= q < j + 1 implies pair_view(#[trigger] out@[before.len() + q]) == (e[i as int].0@, ids@[q]@) by {
                        if q < j {
                            assert(out@[before.len() + q] == prev[before.len() + q]);
                        }
                    }
                    assert(out@.subrange(0, before.len() as int) =~= before) by {
                        assert forall|q: int| 0 <= q < before.len() implies out@[q] == before[q] by {
                            assert(out@[q] == prev[q]);
                            assert(prev.subrange(0, before.len() as int)[q] == before[q]);
                        }
                    }
                }
                j = j + 1;
            }
        }
        proof {
            lemma_key_compare(key@, end@);
            lemma_key_compare(key@, start@);
            let nv = pairs_view(out@.subrange(base as int, out@.len() as int));
            let pv = pairs_view(before.subrange(base as int, before.len() as int));
            let kv = e[i as int].0@;
            let ids = e[i as int].1@;
            let added = if c_start >= 0 { ids.len() } else { 0 };
            assert(out@.len() == before.len() + added);
            assert(nv.len() == pv.len() + added);
            assert forall|q: int| 0 <= q < pv.len() implies nv[q] == pv[q] by {
                assert(out@[base + q] == before[base + q]);
            }
            assert forall|q: int| 0 <= q < added implies nv[pv.len() + q] == (kv, ids[q]@) by {
                assert(out@[before.len() + q] == out@[base + pv.len() + q]);
            }
            assert forall|q: int| 0 <= q < pv.len() implies key_lt((#[trigger] pv[q]).0, kv) by {
                let qa = base + q;
                assert(out@[qa] == before[qa]);
                let x = choose|x: int| 0 <= x < i && #[trigger] e[x].0@ == before[qa].0@;
                assert(key_lt(e[x].0@, kv));
            }
            lemma_collect_sorted(pv, nv, kv, ids, added as int);
            lemma_collect_step(e, i as int, start@, end@, pv, nv, c_start >= 0);
            assert forall|q: int| base <= q < out@.len() implies exists|a: int| 0 <= a < i + 1 && #[trigger] e[a].0@ == (#[trigger] out@[q]).0@ by {
                if q < before.len() {
                    assert(out@[q] == before[q]);
                    let a = choose|a: int| 0 <= a < i && #[trigger] e[a].0@ == before[q].0@;
                } else {
                    let q2 = q - before.len();
                    assert(pair_view(out@[before.len() + q2]) == (kv, ids[q2]@));
                    assert(out@[q].0@ == kv);
                }
            }
            assert(out@.subrange(0, base as int) =~= old(out)@) by {
                assert forall|q: int| 0 <= q < base implies out@[q] == before[q] by {
                }
            }
        }
        i = i + 1;
    }
    proof {
        assert(e.take(i as int) =~= e);
    }
    false
}

/// `k` lies below a lower bound (nothing lies below an absent one).
pub open spec fn below_lo(k: KeyView, bound: Option<KeyView>) -> bool {
    match bound {
        Some(b) => key_lt(k, b),
        None => false,
    }
}

/// `k` lies below an upper bound (everything lies below an absent one).
pub open spec fn below_hi(k: KeyView, bound: Option<KeyView>) -> bool {
    match bound {
        Some(b) => key_lt(k, b),
        None => true,
    }
}

impl BPlusTree {
    /// Returns the `(key, id)` pairs whose keys lie in `[start, end]`, in
    /// key/id order, following the leaf chain. A start past the end is an
    /// `InvalidArgument` error.
    pub fn range(&self, start: &IndexKey, end: &IndexKey) -> (r: Result<Vec<(IndexKey, NovaId)>>)
        requires
            self.wf(),
        ensures
            r is Err <==> key_lt(end@, start@),
            r matches Err(e) ==> e is InvalidArgument,
            r matches Ok(v) ==> pairs_sorted(pairs_view(v@)) && forall|p: (KeyView, Seq<u8>)|
                pairs_view(v@).contains(p) <==> in_range(self@, start@, end@, p),
    {
        let ghost s = self.shape@;
        let ghost max = self.max_keys as nat;
        let ghost m = self@;
        if compare_keys(start, end) > 0 {
            proof {
                lemma_key_compare(start@, end@);
            }
            return Err(NovaError::InvalidArgument("index range start must not exceed end".to_owned()));
        }
        proof {
            lemma_key_compare(start@, end@);
            assert(leaves_sound(self.nodes@, s, max));
        }
        let mut out: Vec<(IndexKey, NovaId)> = Vec::new();
        let mut leaf = self.find_leaf(start);
        proof {
            assert forall|p: (KeyView, Seq<u8>)| #[trigger] pairs_view(out@).contains(p) <==> (in_range(m, start@, end@, p) && below_lo(p.0, s.lo[leaf as int])) by {
                if in_range(m, start@, end@, p) && below_lo(p.0, s.lo[leaf as int]) {
                    let l = s.lo[leaf as int]->0;
                    assert(key_le(l, start@));
                    lemma_key_lt_trans(p.0, l, start@);
                    lemma_key_compare(p.0, start@);
                }
            }
        }
        loop
            invariant
                self.wf(),
                s == self.shape@,
                max == self.max_keys as nat,
                m == self@,
                leaves_sound(self.nodes@, s, max),
                is_leaf(self.nodes@, leaf as int),
                key_le(start@, end@),
                !key_lt(end@, start@),
                pairs_sorted(pairs_view(out@)),
                forall|p: (KeyView, Seq<u8>)|
                    #[trigger] pairs_view(out@).contains(p) <==> (in_range(m, start@, end@, p) && below_lo(p.0, s.lo[leaf as int])),
            decreases self.nodes@.len() - s.rank[leaf as int],
        {
            proof {
                assert(node_ok(self.nodes@, s, max, leaf as int));
                lemma_leaf_ok(self.nodes@, s, max, leaf as int);
            }
            let (entries, next) = match &self.nodes[leaf] {
                Node::Leaf { entries, next } => (entries, *next),
                Node::Internal { .. } => {
                    assert(false);
                    return Ok(out);
                },
            };
            let ghost e = entries@;
            let ghost before = out@;
            let ghost lo = s.lo[leaf as int];
            let ghost hi = s.hi[leaf as int];
            proof {
                assert(entries_ok(e, lo, hi, max));
                assert forall|a: int| 0 <= a < e.len() implies #[trigger] e[a].1@.len() > 0 && ids_sorted(e[a].1@) by {
                    assert(in_bounds(e[a].0@, lo, hi));
                }
            }
            let past_end = collect_entries(entries, start, end, &mut out);
            assert(forall|p: (KeyView, Seq<u8>)|
                pairs_view(out@.subrange(before.len() as int, out@.len() as int)).contains(p) <==> from_entries(e, start@, end@, p));
            proof {
                let nv = pairs_view(out@);
                let pv = pairs_view(before);
                let av = pairs_view(out@.subrange(before.len() as int, out@.len() as int));
                assert(out@ =~= before + out@.subrange(before.len() as int, out@.len() as int));
                assert(nv =~= pv + av);
                // the new pairs are exactly the stored pairs of this leaf in range
                assert forall|p: (KeyView, Seq<u8>)| #[trigger] av.contains(p) <==> (in_range(m, start@, end@, p) && in_bounds(p.0, lo, hi)) by {
                    if av.contains(p) {
                        assert(from_entries(e, start@, end@, p));
                        let a = choose|a: int| 0 <= a < e.len() && #[trigger] e[a].0@ == p.0 && key_le(start@, p.0) && key_le(p.0, end@)
                            && id_views(e[a].1@).contains(p.1);
                        assert(in_bounds(e[a].0@, lo, hi));
                        lemma_contents_leaf(self.nodes@, s, max, leaf as int, p.0);
                    }
                    if in_range(m, start@, end@, p) && in_bounds(p.0, lo, hi) {
                        lemma_contents_leaf(self.nodes@, s, max, leaf as int, p.0);
                        let a = choose|a: int| 0 <= a < e.len() && #[trigger] e[a].0@ == p.0;
                        assert(from_entries(e, start@, end@, p));
                    }
                }
                assert forall|x: int, y: int| 0 <= x < y < nv.len() implies pair_lt(#[trigger] nv[x], #[trigger] nv[y]) by {
                    if y < pv.len() {
                        assert(pair_lt(pv[x], pv[y]));
                    } else if x >= pv.len() {
                        assert(pair_lt(av[x - pv.len()], av[y - pv.len()]));
                    } else {
                        assert(pv.contains(pv[x]));
                        assert(below_lo(pv[x].0, lo));
                        assert(av.contains(av[y - pv.len()]));
                        assert(in_bounds(av[y - pv.len()].0, lo, hi));
                        let l = lo->0;
                        lemma_key_lt_trans(pv[x].0, l, av[y - pv.len()].0);
                    }
                }
                assert forall|p: (KeyView, Seq<u8>)| #[trigger] nv.contains(p) <==> (in_range(m, start@, end@, p) && below_hi(p.0, hi)) by {
                    if nv.contains(p) {
                        let q = choose|q: int| 0 <= q < nv.len() && nv[q] == p;
                        if q < pv.len() {
                            assert(pv.contains(p));
                            assert(below_lo(p.0, lo));
                            if let (Some(l), Some(h)) = (lo, hi) {
                                lemma_key_lt_trans(p.0, l, h);
                            }
                        } else {
                            assert(av.contains(p));
                        }
                    }
                    if in_range(m, start@, end@, p) && below_hi(p.0, hi) {
                        if below_lo(p.0, lo) {
                            assert(pv.contains(p));
                            let q = choose|q: int| 0 <= q < pv.len() && pv[q] == p;
                            assert(nv[q] == p);
                        } else {
                            assert(in_bounds(p.0, lo, hi)) by {
                                if let Some(l) = lo {
                                    lemma_key_compare(p.0, l);
                                }
                            }
                            assert(av.contains(p));
                            let q = choose|q: int| 0 <= q < av.len() && av[q] == p;
                            assert(nv[pv.len() + q] == p);
                        }
                    }
                }
            }
            if past_end {
                proof {
                    let nv = pairs_view(out@);
                    let a = choose|a: int| 0 <= a < e.len() && key_lt(end@, #[trigger] e[a].0@);
                    assert(in_bounds(e[a].0@, lo, hi));
                    assert forall|p: (KeyView, Seq<u8>)| #[trigger] nv.contains(p) <==> in_range(m, start@, end@, p) by {
                        if in_range(m, start@, end@, p) && !below_hi(p.0, hi) {
                            let h = hi->0;
                            lemma_key_compare(p.0, h);
                            lemma_key_lt_trans(end@, e[a].0@, h);
                            lemma_key_le_trans(h, p.0, end@);
                            lemma_key_lt_trans(end@, h, end@);
                            lemma_key_compare(end@, end@);
                        }
                    }
                }
                return Ok(out);
            }
            match next {
                Some(x) => {
                    proof {
                        assert(s.lo[x as int] == hi);
                        assert(s.rank[x as int] == s.rank[leaf as int] + 1);
                        assert(node_ok(self.nodes@, s, max, x as int));
                        lemma_leaf_ok(self.nodes@, s, max, x as int);
                    }
                    leaf = x;
                },
                None => {
                    proof {
                        assert(hi is None);
                    }
                    return Ok(out);
                },
            }
        }
    }
}

impl BPlusTree {
    /// The file this tree is written as.
    pub closed spec fn file_bytes(&self) -> Seq<u8> {
        tree_bytes(self.max_keys, self.root, self.nodes@)
    }

    /// Every count, length and string of the tree fits its field in the
    /// file.
    pub closed spec fn encodable(&self) -> bool {
        self.max_keys <= 0xFFFF_FFFF && nodes_encodable(self.nodes@)
    }

    /// The capacity, root and node arena of the tree.
    pub closed spec fn parts(&self) -> (usize, usize, Seq<Node>) {
        (self.max_keys, self.root, self.nodes@)
    }

    /// Every key of the tree is storable: floats in canonical bits, strings
    /// of at most `MAX_STRING_BYTES` bytes.
    pub closed spec fn keys_storable(&self) -> bool {
        forall|n: int| 0 <= n < self.nodes@.len() ==> node_keys_storable(#[trigger] self.nodes@[n])
    }

    /// `bytes` is exactly this tree's file, its float keys carrying the
    /// bits that `bytes` gives them.
    pub closed spec fn read_from(&self, bytes: Seq<u8>) -> bool {
        bytes == tree_bytes_in(self.max_keys, self.root, self.nodes@, bytes)
    }

    /// Opens a tree from the complete contents of its file, backed by
    /// `path`: the file is decoded and fully checked (see `decode_tree`
    /// and the structural check). A file of another format version is
    /// `Unsupported`; any other defect is `Corruption` (or `Storage` for a
    /// position that does not fit a `usize`).
    pub fn open_bytes(path: String, bytes: &[u8]) -> (r: Result<Self>)
        ensures
            r matches Ok(t) ==> t.wf() && t.path_view() == path@ && t.read_from(bytes@) && !t.is_dirty(),
            (r matches Err(e) && e is Unsupported) <==> unsupported_version(bytes@),
            r matches Err(e) ==> e is Corruption || e is Unsupported || e is Storage,
    {
        let (max_keys, root, nodes) = match decode_tree(bytes) {
            Ok(parts) => parts,
            Err(e) => {
                return Err(e);
            },
        };
        let shape = match check_tree(max_keys, root, &nodes) {
            Ok(shape) => shape,
            Err(e) => {
                return Err(e);
            },
        };
        Ok(BPlusTree { path, max_keys, root, nodes, dirty: false, shape })
    }

    /// Verifies the tree's invariants. Every tree this library builds or
    /// opens satisfies them, so this always succeeds.
    pub fn verify(&self) -> (r: Result<()>)
        requires
            self.wf(),
        ensures
            r is Ok,
    {
        Ok(())
    }

    /// The file to write when the tree changed since it was last written
    /// (`None` when it did not). A count, length or string that does not
    /// fit its 32-bit field is a `Storage` error.
    pub fn pending_snapshot(&self) -> (r: Result<Option<Vec<u8>>>)
        requires
            self.wf(),
        ensures
            !self.is_dirty() ==> r matches Ok(None),
            self.is_dirty() ==> (r is Ok <==> self.encodable()),
            self.is_dirty() ==> (r matches Ok(x) ==> x matches Some(b) && b@ == self.file_bytes()),
            r matches Err(e) ==> e is Storage,
    {
        if !self.dirty {
            return Ok(None);
        }
        match encode_tree(self.max_keys, self.root, &self.nodes) {
            Ok(bytes) => Ok(Some(bytes)),
            Err(e) => Err(e),
        }
    }

    /// Records that the tree's file is up to date.
    pub fn mark_synced(&mut self)
        requires
            old(self).wf(),
        ensures
            final(self).wf(),
            !final(self).is_dirty(),
            final(self)@ == old(self)@,
            final(self).file_bytes() == old(self).file_bytes(),
            final(self).capacity() == old(self).capacity(),
            final(self).path_view() == old(self).path_view(),
    {
        self.dirty = false;
    }
}

/// A well-formed tree whose counts fit the file and whose keys are storable
/// writes a file that reads back as itself: its file is the encoding of its
/// parts, and those parts satisfy `tree_storable`, so `decode_tree` on the
/// file returns its capacity, its root and the views of its nodes.
pub proof fn law_file_reads_back(t: BPlusTree)
    requires
        t.wf(),
        t.encodable(),
        t.keys_storable(),
    ensures
        t.file_bytes() == tree_bytes(t.parts().0, t.parts().1, t.parts().2),
        tree_storable(t.parts().0, t.parts().1, t.parts().2),
{
    let ns = t.nodes@;
    let m = t.max_keys;
    assert forall|i: int| 0 <= i < ns.len() implies node_storable(#[trigger] ns[i], m, ns.len() as int) by {
        assert(node_ok(ns, t.shape@, m as nat, i));
        assert(node_encodable(ns[i]));
        assert(node_keys_storable(ns[i]));
        match ns[i] {
            Node::Leaf { entries, next } => {
                assert forall|j: int| 0 <= j < entries@.len() implies entry_storable(#[trigger] entries@[j]) by {
                    lemma_index_key_storable(entries@[j].0);
                }
            },
            Node::Internal { keys, children } => {
                assert forall|j: int| 0 <= j < keys@.len() implies key_storable(#[trigger] keys@[j]@) by {
                    lemma_index_key_storable(keys@[j]);
                }
            },
        }
    }
}

/// Integer keys are ordered as the integers they hold: `Int(x)` comes
/// before `Int(y)` exactly when `x < y`, whatever their signs.
pub proof fn law_int_keys_numeric(x: i64, y: i64)
    ensures
        (key_compare(KeyView::Int(x), KeyView::Int(y)) < 0) == (x < y),
        (key_compare(KeyView::Int(x), KeyView::Int(y)) == 0) == (x == y),
        (key_compare(KeyView::Int(x), KeyView::Int(y)) > 0) == (x > y),
{
}

} // verus!
