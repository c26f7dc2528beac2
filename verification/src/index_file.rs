//! The index file: a 40-byte big-endian header (magic `NVIX`, version,
//! header size, node capacity, a reserved word, root, node count, a CRC-32
//! of the whole file with its own field zero, a reserved word) followed by
//! the nodes of the arena in order.
use vstd::prelude::*;

use crate::bytes::{
    be16, be32, be64, copy_range, get_u16, get_u32, get_u64, lemma_be16_round_trip, lemma_be32_round_trip, lemma_be64_round_trip,
    lemma_read_be16, lemma_read_be32, lemma_read_be64, push_all, push_u16,
    push_u32, push_u64, read_be16, read_be32, read_be64, set_u32,
};
use crate::checksum::{crc32, crc32_of, zeroed};
use crate::error::{NovaError, Result};
use crate::index::{canonical_bits, sortable, IndexKey, KeyView, Node, OrderedF64};
use crate::nova_id::NovaId;
use crate::text::{string_from_utf8, utf8_bytes};

verus! {

/// Index file magic `NVIX`.
pub const INDEX_MAGIC: [u8; 4] = [78u8, 86u8, 73u8, 88u8];

/// Index file format version.
pub const INDEX_VERSION: u16 = 1;

/// Index file header size.
pub const INDEX_HEADER_SIZE: usize = 40;

/// Offset of the header checksum.
pub const INDEX_CHECKSUM_OFFSET: usize = 32;

/// The stored `next` of a leaf without a successor.
pub const NONE_NODE: u64 = 0xFFFF_FFFF_FFFF_FFFF;

/// Longest string key a file may hold.
pub const MAX_STRING_BYTES: usize = 16_777_216;

/// The IEEE-754 bits of a float key's order key.
pub open spec fn raw_bits(k: u64) -> u64 {
    if k >= 0x8000_0000_0000_0000u64 {
        k & 0x7fff_ffff_ffff_ffffu64
    } else {
        !k
    }
}

/// The raw bits a float field at `at` of `file` holds for the float key
/// `f`: the file's own bits where they denote `f` (any `NaN` payload denotes
/// the one canonical `NaN`), else the canonical bits of `f`.
pub open spec fn float_field(file: Seq<u8>, at: int, f: u64) -> u64 {
    if 0 <= at && at + 8 <= file.len() && sortable(canonical_bits(read_be64(file, at))) == f {
        read_be64(file, at)
    } else {
        raw_bits(f)
    }
}

/// The encoding of a key placed at `at` of `file`: a kind tag, then the
/// value. Only a float's bits depend on the file (see `float_field`).
pub open spec fn key_bytes(k: KeyView, file: Seq<u8>, at: int) -> Seq<u8> {
    match k {
        KeyView::Int(v) => seq![0u8] + be64(v as u64),
        KeyView::Float(f) => seq![1u8] + be64(float_field(file, at + 1, f)),
        KeyView::Str(b) => seq![2u8] + be32(b.len() as u32) + b,
        KeyView::Id(b) => seq![3u8] + b,
    }
}

/// The bytes of a list of ids.
pub open spec fn ids_bytes(ids: Seq<NovaId>) -> Seq<u8>
    decreases ids.len(),
{
    if ids.len() == 0 {
        Seq::empty()
    } else {
        ids_bytes(ids.drop_last()) + ids.last()@
    }
}

/// The encoding of one leaf entry placed at `at`.
pub open spec fn entry_bytes(e: (IndexKey, Vec<NovaId>), file: Seq<u8>, at: int) -> Seq<u8> {
    key_bytes(e.0@, file, at) + be32(e.1@.len() as u32) + ids_bytes(e.1@)
}

/// The encodings of leaf entries, in order, from `at`.
pub open spec fn entries_bytes(es: Seq<(IndexKey, Vec<NovaId>)>, file: Seq<u8>, at: int) -> Seq<u8>
    decreases es.len(),
{
    if es.len() == 0 {
        Seq::empty()
    } else {
        let front = entries_bytes(es.drop_last(), file, at);
        front + entry_bytes(es.last(), file, at + front.len())
    }
}

/// The encodings of separator keys, in order, from `at`.
pub open spec fn keys_bytes(ks: Seq<IndexKey>, file: Seq<u8>, at: int) -> Seq<u8>
    decreases ks.len(),
{
    if ks.len() == 0 {
        Seq::empty()
    } else {
        let front = keys_bytes(ks.drop_last(), file, at);
        front + key_bytes(ks.last()@, file, at + front.len())
    }
}

/// The encodings of child references, in order.
pub open spec fn children_bytes(cs: Seq<usize>) -> Seq<u8>
    decreases cs.len(),
{
    if cs.len() == 0 {
        Seq::empty()
    } else {
        children_bytes(cs.drop_last()) + be64(cs.last() as u64)
    }
}

/// The stored form of a leaf's successor.
pub open spec fn next_field(next: Option<usize>) -> u64 {
    match next {
        Some(x) => x as u64,
        None => NONE_NODE,
    }
}

/// The encoding of one node placed at `at`.
pub open spec fn node_bytes(n: Node, file: Seq<u8>, at: int) -> Seq<u8> {
    match n {
        Node::Leaf { entries, next } => seq![0u8] + be64(next_field(next)) + be32(entries@.len() as u32)
            + entries_bytes(entries@, file, at + 13),
        Node::Internal { keys, children } => seq![1u8] + be32(keys@.len() as u32) + keys_bytes(keys@, file, at + 5)
            + be32(children@.len() as u32) + children_bytes(children@),
    }
}

/// The encodings of nodes, in arena order, from `at`.
pub open spec fn nodes_bytes(ns: Seq<Node>, file: Seq<u8>, at: int) -> Seq<u8>
    decreases ns.len(),
{
    if ns.len() == 0 {
        Seq::empty()
    } else {
        let front = nodes_bytes(ns.drop_last(), file, at);
        front + node_bytes(ns.last(), file, at + front.len())
    }
}

/// The header with a given checksum field.
pub open spec fn index_header(max_keys: usize, root: usize, count: usize, checksum: u32) -> Seq<u8> {
    seq![78u8, 86u8, 73u8, 88u8] + be16(1) + be16(40) + be32(max_keys as u32) + be32(0) + be64(root as u64) + be64(
        count as u64,
    ) + be32(checksum) + be32(0)
}

/// The checksummed file of a tree whose float keys carry the bits that
/// `file` gives them (see `float_field`).
pub open spec fn tree_bytes_in(max_keys: usize, root: usize, nodes: Seq<Node>, file: Seq<u8>) -> Seq<u8> {
    let body = nodes_bytes(nodes, file, 40);
    let unsummed = index_header(max_keys, root, nodes.len() as usize, 0) + body;
    index_header(max_keys, root, nodes.len() as usize, crc32_of(zeroed(unsummed, 32, 36))) + body
}

/// The file the encoder writes for a tree: every float key in its
/// canonical bits.
pub open spec fn tree_bytes(max_keys: usize, root: usize, nodes: Seq<Node>) -> Seq<u8> {
    tree_bytes_in(max_keys, root, nodes, Seq::empty())
}

/// Every length the file stores fits its 32-bit field.
pub open spec fn key_encodable(k: KeyView) -> bool {
    k matches KeyView::Str(b) ==> b.len() <= 0xFFFF_FFFF
}

/// Every length of a node fits its 32-bit field.
pub open spec fn node_encodable(n: Node) -> bool {
    match n {
        Node::Leaf { entries, .. } => {
            &&& entries@.len() <= 0xFFFF_FFFF
            &&& forall|i: int|
                0 <= i < entries@.len() ==> key_encodable(#[trigger] entries@[i].0@) && entries@[i].1@.len()
                    <= 0xFFFF_FFFF
        },
        Node::Internal { keys, children } => {
            &&& keys@.len() <= 0xFFFF_FFFF
            &&& children@.len() <= 0xFFFF_FFFF
            &&& forall|i: int| 0 <= i < keys@.len() ==> key_encodable(#[trigger] keys@[i]@)
        },
    }
}

/// Every node of the arena is encodable.
pub open spec fn nodes_encodable(ns: Seq<Node>) -> bool {
    forall|i: int| 0 <= i < ns.len() ==> node_encodable(#[trigger] ns[i])
}

/// `b` stands in `input` from `at` on.
pub open spec fn bytes_at(input: Seq<u8>, at: int, b: Seq<u8>) -> bool {
    &&& 0 <= at
    &&& at + b.len() <= input.len()
    &&& input.subrange(at, at + b.len()) == b
}

/// The concatenation of `f` applied to each element, front to back.
pub open spec fn concat_map<T>(s: Seq<T>, f: spec_fn(T) -> Seq<u8>) -> Seq<u8>
    decreases s.len(),
{
    if s.len() == 0 {
        Seq::empty()
    } else {
        f(s[0]) + concat_map(s.drop_first(), f)
    }
}

/// The encoding of a key wherever it stands, floats in canonical bits.
pub open spec fn key_enc(k: KeyView) -> Seq<u8> {
    key_bytes(k, Seq::empty(), 0)
}

/// The encoding of a leaf entry, floats in canonical bits.
pub open spec fn entry_enc(e: (IndexKey, Vec<NovaId>)) -> Seq<u8> {
    entry_bytes(e, Seq::empty(), 0)
}

/// The encoding of a node, floats in canonical bits.
pub open spec fn node_enc(n: Node) -> Seq<u8> {
    node_bytes(n, Seq::empty(), 0)
}

/// A key that reads back as itself: a float in canonical bits, a UTF-8
/// string of at most `MAX_STRING_BYTES` bytes, a sixteen-byte id.
pub open spec fn key_storable(k: KeyView) -> bool {
    match k {
        KeyView::Int(_) => true,
        KeyView::Float(f) => sortable(canonical_bits(raw_bits(f))) == f,
        KeyView::Str(b) => b.len() <= MAX_STRING_BYTES && vstd::utf8::valid_utf8(b),
        KeyView::Id(b) => b.len() == 16,
    }
}

/// A leaf entry that reads back as itself: a storable key and at least one
/// id, their count fitting its 32-bit field.
pub open spec fn entry_storable(e: (IndexKey, Vec<NovaId>)) -> bool {
    key_storable(e.0@) && 0 < e.1@.len() <= 0xFFFF_FFFF
}

/// A node that reads back as itself in an arena of `count` nodes of
/// capacity `max_keys`.
pub open spec fn node_storable(n: Node, max_keys: usize, count: int) -> bool {
    match n {
        Node::Leaf { entries, next } => {
            &&& entries@.len() <= max_keys
            &&& forall|i: int| 0 <= i < entries@.len() ==> entry_storable(#[trigger] entries@[i])
            &&& (next matches Some(x) ==> x < count)
        },
        Node::Internal { keys, children } => {
            &&& keys@.len() <= max_keys
            &&& children@.len() <= max_keys + 1
            &&& children@.len() <= 0xFFFF_FFFF
            &&& forall|i: int| 0 <= i < keys@.len() ==> key_storable(#[trigger] keys@[i]@)
        },
    }
}

/// A tree whose file reads back as itself: a valid capacity, at least one
/// node, and every node storable.
pub open spec fn tree_storable(max_keys: usize, root: usize, nodes: Seq<Node>) -> bool {
    &&& max_keys >= crate::index::MIN_MAX_KEYS
    &&& max_keys % 2 == 1
    &&& max_keys <= 0xFFFF_FFFF
    &&& nodes.len() >= 1
    &&& forall|i: int| 0 <= i < nodes.len() ==> node_storable(#[trigger] nodes[i], max_keys, nodes.len() as int)
}

/// The abstract value of a node: keys by their views, ids by their bytes.
pub enum NodeView {
    Leaf { entries: Seq<(KeyView, Seq<Seq<u8>>)>, next: Option<usize> },
    Internal { keys: Seq<KeyView>, children: Seq<usize> },
}

/// The bytes of each id.
pub open spec fn ids_view(ids: Seq<NovaId>) -> Seq<Seq<u8>> {
    ids.map_values(|i: NovaId| i@)
}

/// The abstract value of a leaf entry.
pub open spec fn entry_view(e: (IndexKey, Vec<NovaId>)) -> (KeyView, Seq<Seq<u8>>) {
    (e.0@, ids_view(e.1@))
}

/// The abstract values of leaf entries.
pub open spec fn entries_view(es: Seq<(IndexKey, Vec<NovaId>)>) -> Seq<(KeyView, Seq<Seq<u8>>)> {
    es.map_values(|e: (IndexKey, Vec<NovaId>)| entry_view(e))
}

/// The abstract values of keys.
pub open spec fn keys_view(ks: Seq<IndexKey>) -> Seq<KeyView> {
    ks.map_values(|k: IndexKey| k@)
}

/// The abstract value of a node.
pub open spec fn node_view(n: Node) -> NodeView {
    match n {
        Node::Leaf { entries, next } => NodeView::Leaf { entries: entries_view(entries@), next },
        Node::Internal { keys, children } => NodeView::Internal { keys: keys_view(keys@), children: children@ },
    }
}

/// The abstract value of an arena.
pub open spec fn nodes_view(ns: Seq<Node>) -> Seq<NodeView> {
    ns.map_values(|n: Node| node_view(n))
}

/// Each leaf entry to its encoding.
pub open spec fn entry_parts() -> spec_fn((IndexKey, Vec<NovaId>)) -> Seq<u8> {
    |e: (IndexKey, Vec<NovaId>)| entry_enc(e)
}

/// Each separator key to its encoding.
pub open spec fn key_parts() -> spec_fn(IndexKey) -> Seq<u8> {
    |k: IndexKey| key_enc(k@)
}

/// Each id to its bytes.
pub open spec fn id_parts() -> spec_fn(NovaId) -> Seq<u8> {
    |i: NovaId| i@
}

/// Each child reference to its eight bytes.
pub open spec fn child_parts() -> spec_fn(usize) -> Seq<u8> {
    |c: usize| be64(c as u64)
}

/// Each node to its encoding.
pub open spec fn node_parts() -> spec_fn(Node) -> Seq<u8> {
    |n: Node| node_enc(n)
}

proof fn lemma_concat_map_push<T>(s: Seq<T>, x: T, f: spec_fn(T) -> Seq<u8>)
    ensures
        concat_map(s.push(x), f) == concat_map(s, f) + f(x),
    decreases s.len(),
{
    if s.len() == 0 {
        assert(s.push(x).drop_first() =~= Seq::<T>::empty());
        assert(s.push(x)[0] == x);
        assert(concat_map(s.push(x).drop_first(), f) == Seq::<u8>::empty());
        assert(concat_map(s, f) == Seq::<u8>::empty());
        assert(concat_map(s.push(x), f) == f(x) + concat_map(s.push(x).drop_first(), f));
        assert(concat_map(s.push(x), f) =~= concat_map(s, f) + f(x));
    } else {
        assert(s.push(x).drop_first() =~= s.drop_first().push(x));
        lemma_concat_map_push(s.drop_first(), x, f);
        assert(s.push(x)[0] == s[0]);
        assert(concat_map(s.push(x), f) == f(s[0]) + concat_map(s.drop_first().push(x), f));
        assert(concat_map(s, f) == f(s[0]) + concat_map(s.drop_first(), f));
        assert(concat_map(s.push(x), f) =~= concat_map(s, f) + f(x));
    }
}

proof fn lemma_concat_map_len<T>(s: Seq<T>, f: spec_fn(T) -> Seq<u8>)
    requires
        forall|i: int| 0 <= i < s.len() ==> #[trigger] f(s[i]).len() >= 1,
    ensures
        concat_map(s, f).len() >= s.len(),
    decreases s.len(),
{
    if s.len() > 0 {
        assert(f(s[0]).len() >= 1);
        assert forall|i: int| 0 <= i < s.drop_first().len() implies #[trigger] f(s.drop_first()[i]).len() >= 1 by {
            assert(s.drop_first()[i] == s[i + 1]);
        }
        lemma_concat_map_len(s.drop_first(), f);
    }
}

proof fn lemma_concat_map_fixed<T>(s: Seq<T>, f: spec_fn(T) -> Seq<u8>, w: nat)
    requires
        forall|i: int| 0 <= i < s.len() ==> #[trigger] f(s[i]).len() == w,
    ensures
        concat_map(s, f).len() == w * s.len(),
    decreases s.len(),
{
    if s.len() > 0 {
        assert(f(s[0]).len() == w);
        assert forall|i: int| 0 <= i < s.drop_first().len() implies #[trigger] f(s.drop_first()[i]).len() == w by {
            assert(s.drop_first()[i] == s[i + 1]);
        }
        lemma_concat_map_fixed(s.drop_first(), f, w);
        let n = s.len();
        assert(w + w * (n - 1) == w * n) by (nonlinear_arith);
    }
}

/// Splits the encoding of the suffix from `i` into its first element and
/// the rest.
proof fn lemma_concat_map_step<T>(s: Seq<T>, i: int, f: spec_fn(T) -> Seq<u8>)
    requires
        0 <= i < s.len(),
    ensures
        concat_map(s.skip(i), f) == f(s[i]) + concat_map(s.skip(i + 1), f),
{
    assert(s.skip(i).drop_first() =~= s.skip(i + 1));
    assert(s.skip(i)[0] == s[i]);
}

proof fn lemma_entries_enc(es: Seq<(IndexKey, Vec<NovaId>)>, at: int)
    ensures
        entries_bytes(es, Seq::empty(), at) == concat_map(es, entry_parts()),
    decreases es.len(),
{
    let f = entry_parts();
    if es.len() > 0 {
        lemma_entries_enc(es.drop_last(), at);
        lemma_concat_map_push(es.drop_last(), es.last(), f);
        assert(es.drop_last().push(es.last()) =~= es);
        let x = at + entries_bytes(es.drop_last(), Seq::empty(), at).len();
        assert(entry_bytes(es.last(), Seq::empty(), x) =~= entry_enc(es.last()));
    } else {
        assert(concat_map(es, f) =~= Seq::<u8>::empty());
    }
}

proof fn lemma_keys_enc(ks: Seq<IndexKey>, at: int)
    ensures
        keys_bytes(ks, Seq::empty(), at) == concat_map(ks, key_parts()),
    decreases ks.len(),
{
    let f = key_parts();
    if ks.len() > 0 {
        lemma_keys_enc(ks.drop_last(), at);
        lemma_concat_map_push(ks.drop_last(), ks.last(), f);
        assert(ks.drop_last().push(ks.last()) =~= ks);
        let x = at + keys_bytes(ks.drop_last(), Seq::empty(), at).len();
        assert(key_bytes(ks.last()@, Seq::empty(), x) =~= key_enc(ks.last()@));
    } else {
        assert(concat_map(ks, f) =~= Seq::<u8>::empty());
    }
}

proof fn lemma_ids_enc(ids: Seq<NovaId>)
    ensures
        ids_bytes(ids) == concat_map(ids, id_parts()),
    decreases ids.len(),
{
    let f = id_parts();
    if ids.len() > 0 {
        lemma_ids_enc(ids.drop_last());
        lemma_concat_map_push(ids.drop_last(), ids.last(), f);
        assert(ids.drop_last().push(ids.last()) =~= ids);
    } else {
        assert(concat_map(ids, f) =~= Seq::<u8>::empty());
    }
}

proof fn lemma_children_enc(cs: Seq<usize>)
    ensures
        children_bytes(cs) == concat_map(cs, child_parts()),
    decreases cs.len(),
{
    let f = child_parts();
    if cs.len() > 0 {
        lemma_children_enc(cs.drop_last());
        lemma_concat_map_push(cs.drop_last(), cs.last(), f);
        assert(cs.drop_last().push(cs.last()) =~= cs);
    } else {
        assert(concat_map(cs, f) =~= Seq::<u8>::empty());
    }
}

proof fn lemma_node_enc(n: Node, at: int)
    ensures
        node_bytes(n, Seq::empty(), at) == node_enc(n),
{
    match n {
        Node::Leaf { entries, next } => {
            lemma_entries_enc(entries@, at + 13);
            lemma_entries_enc(entries@, 13);
        },
        Node::Internal { keys, children } => {
            lemma_keys_enc(keys@, at + 5);
            lemma_keys_enc(keys@, 5);
        },
    }
}

proof fn lemma_nodes_enc(ns: Seq<Node>, at: int)
    ensures
        nodes_bytes(ns, Seq::empty(), at) == concat_map(ns, node_parts()),
    decreases ns.len(),
{
    let f = node_parts();
    if ns.len() > 0 {
        lemma_nodes_enc(ns.drop_last(), at);
        lemma_concat_map_push(ns.drop_last(), ns.last(), f);
        assert(ns.drop_last().push(ns.last()) =~= ns);
        let x = at + nodes_bytes(ns.drop_last(), Seq::empty(), at).len();
        lemma_node_enc(ns.last(), x);
    } else {
        assert(concat_map(ns, f) =~= Seq::<u8>::empty());
    }
}

/// `a + b` standing at `at` means `a` stands there and `b` right after it.
proof fn lemma_bytes_at_split(input: Seq<u8>, at: int, a: Seq<u8>, b: Seq<u8>)
    requires
        bytes_at(input, at, a + b),
    ensures
        bytes_at(input, at, a),
        bytes_at(input, at + a.len(), b),
{
    let whole = input.subrange(at, at + a.len() + b.len());
    assert forall|j: int| 0 <= j < a.len() implies input[at + j] == a[j] by {
        assert(whole[j] == (a + b)[j]);
    }
    assert forall|j: int| 0 <= j < b.len() implies input[at + a.len() + j] == b[j] by {
        assert(whole[a.len() + j] == (a + b)[a.len() + j]);
    }
    assert(input.subrange(at, at + a.len()) =~= a);
    assert(input.subrange(at + a.len(), at + a.len() + b.len()) =~= b);
}

/// What a storable key encoded at `at` says of the bytes there.
pub open spec fn key_facts(input: Seq<u8>, at: int, k: KeyView) -> bool {
    &&& at < input.len()
    &&& key_enc(k).len() >= 1
    &&& match k {
        KeyView::Int(v) => {
            &&& input[at] == 0
            &&& at + 9 <= input.len()
            &&& read_be64(input, at + 1) as i64 == v
            &&& key_enc(k).len() == 9
        },
        KeyView::Float(f) => {
            &&& input[at] == 1
            &&& at + 9 <= input.len()
            &&& sortable(canonical_bits(read_be64(input, at + 1))) == f
            &&& key_enc(k).len() == 9
        },
        KeyView::Str(b) => {
            &&& input[at] == 2
            &&& at + 5 + b.len() <= input.len()
            &&& read_be32(input, at + 1) == b.len()
            &&& b.len() <= MAX_STRING_BYTES
            &&& input.subrange(at + 5, at + 5 + b.len()) == b
            &&& vstd::utf8::valid_utf8(b)
            &&& key_enc(k).len() == 5 + b.len()
        },
        KeyView::Id(b) => {
            &&& input[at] == 3
            &&& at + 17 <= input.len()
            &&& input.subrange(at + 1, at + 17) == b
            &&& key_enc(k).len() == 17
        },
    }
}

proof fn lemma_key_at(input: Seq<u8>, at: int, k: KeyView)
    requires
        key_storable(k),
        bytes_at(input, at, key_enc(k)),
    ensures
        key_facts(input, at, k),
{
    let e = key_enc(k);
    let sub = input.subrange(at, at + e.len());
    assert(input[at] == sub[0]);
    match k {
        KeyView::Int(v) => {
            lemma_bytes_at_split(input, at, seq![0u8], be64(v as u64));
            lemma_be64_round_trip(v as u64, input, at + 1);
            assert((v as u64) as i64 == v) by (bit_vector);
        },
        KeyView::Float(f) => {
            lemma_bytes_at_split(input, at, seq![1u8], be64(raw_bits(f)));
            lemma_be64_round_trip(raw_bits(f), input, at + 1);
        },
        KeyView::Str(b) => {
            assert(e =~= seq![2u8] + (be32(b.len() as u32) + b));
            lemma_bytes_at_split(input, at, seq![2u8], be32(b.len() as u32) + b);
            lemma_bytes_at_split(input, at + 1, be32(b.len() as u32), b);
            lemma_be32_round_trip(b.len() as u32, input, at + 1);
        },
        KeyView::Id(b) => {
            lemma_bytes_at_split(input, at, seq![3u8], b);
        },
    }
}

/// The facts of every storable key that stands at `at`.
proof fn lemma_keys_at(input: Seq<u8>, at: int)
    ensures
        forall|k: KeyView| key_storable(k) && #[trigger] bytes_at(input, at, key_enc(k)) ==> key_facts(input, at, k),
{
    assert forall|k: KeyView| key_storable(k) && #[trigger] bytes_at(input, at, key_enc(k)) implies key_facts(
        input,
        at,
        k,
    ) by {
        lemma_key_at(input, at, k);
    }
}

/// What a storable leaf entry encoded at `at` says of the bytes there.
pub open spec fn entry_facts(input: Seq<u8>, at: int, e: (IndexKey, Vec<NovaId>)) -> bool {
    let k = key_enc(e.0@).len();
    &&& key_storable(e.0@)
    &&& bytes_at(input, at, key_enc(e.0@))
    &&& at + k + 4 <= input.len()
    &&& read_be32(input, at + k) == e.1@.len()
    &&& 0 < e.1@.len() <= input.len() / 16
    &&& at + k + 4 + e.1@.len() <= input.len()
    &&& bytes_at(input, at + k + 4, ids_bytes(e.1@))
    &&& ids_bytes(e.1@).len() == 16 * e.1@.len()
    &&& entry_enc(e).len() == k + 4 + ids_bytes(e.1@).len()
}

proof fn lemma_entry_at(input: Seq<u8>, at: int, e: (IndexKey, Vec<NovaId>))
    requires
        entry_storable(e),
        bytes_at(input, at, entry_enc(e)),
    ensures
        entry_facts(input, at, e),
{
    let kb = key_enc(e.0@);
    let cb = be32(e.1@.len() as u32);
    let ib = ids_bytes(e.1@);
    assert(entry_enc(e) =~= kb + (cb + ib));
    lemma_bytes_at_split(input, at, kb, cb + ib);
    lemma_bytes_at_split(input, at + kb.len(), cb, ib);
    lemma_be32_round_trip(e.1@.len() as u32, input, at + kb.len());
    lemma_ids_enc(e.1@);
    assert forall|j: int| 0 <= j < e.1@.len() implies #[trigger] id_parts()(e.1@[j]).len() == 16 by {
        crate::nova_id::lemma_id_len(e.1@[j]);
    }
    lemma_concat_map_fixed(e.1@, id_parts(), 16);
    let n = e.1@.len();
    let total = input.len();
    assert(16 * n <= total);
    assert(n <= total / 16) by (nonlinear_arith)
        requires
            16 * n <= total,
    ;
}

/// The facts of every storable leaf entry that stands at `at`.
proof fn lemma_entries_at(input: Seq<u8>, at: int)
    ensures
        forall|e: (IndexKey, Vec<NovaId>)|
            entry_storable(e) && #[trigger] bytes_at(input, at, entry_enc(e)) ==> entry_facts(input, at, e),
{
    assert forall|e: (IndexKey, Vec<NovaId>)| entry_storable(e) && #[trigger] bytes_at(input, at, entry_enc(e)) implies entry_facts(
        input,
        at,
        e,
    ) by {
        lemma_entry_at(input, at, e);
    }
}

/// What a storable node encoded at `at` says of the bytes there.
pub open spec fn node_facts(input: Seq<u8>, at: int, n: Node, max_keys: usize) -> bool {
    &&& at < input.len()
    &&& match n {
        Node::Leaf { entries, next } => {
            let body = concat_map(entries@, entry_parts());
            &&& input[at] == 0
            &&& at + 13 <= input.len()
            &&& read_be64(input, at + 1) == next_field(next)
            &&& (next matches Some(x) ==> x < usize::MAX)
            &&& read_be32(input, at + 9) == entries@.len()
            &&& entries@.len() <= max_keys
            &&& entries@.len() <= body.len()
            &&& bytes_at(input, at + 13, body)
            &&& node_enc(n).len() == 13 + body.len()
            &&& forall|i: int| 0 <= i < entries@.len() ==> entry_storable(#[trigger] entries@[i])
        },
        Node::Internal { keys, children } => {
            let kb = concat_map(keys@, key_parts());
            let cb = concat_map(children@, child_parts());
            &&& input[at] == 1
            &&& at + 9 + kb.len() + cb.len() <= input.len()
            &&& read_be32(input, at + 1) == keys@.len()
            &&& keys@.len() <= max_keys
            &&& keys@.len() <= kb.len()
            &&& bytes_at(input, at + 5, kb)
            &&& read_be32(input, at + 5 + kb.len()) == children@.len()
            &&& children@.len() <= max_keys + 1
            &&& cb.len() == 8 * children@.len()
            &&& bytes_at(input, at + 9 + kb.len(), cb)
            &&& node_enc(n).len() == 9 + kb.len() + cb.len()
            &&& forall|i: int| 0 <= i < keys@.len() ==> key_storable(#[trigger] keys@[i]@)
        },
    }
}

proof fn lemma_node_at(input: Seq<u8>, at: int, n: Node, max_keys: usize)
    requires
        node_storable(n, max_keys, usize::MAX as int),
        max_keys <= 0xFFFF_FFFF,
        bytes_at(input, at, node_enc(n)),
    ensures
        node_facts(input, at, n, max_keys),
{
    let sub = input.subrange(at, at + node_enc(n).len());
    match n {
        Node::Leaf { entries, next } => {
            let body = concat_map(entries@, entry_parts());
            lemma_entries_enc(entries@, 13);
            let b64 = be64(next_field(next));
            let b32 = be32(entries@.len() as u32);
            assert(node_enc(n) =~= seq![0u8] + (b64 + (b32 + body)));
            lemma_bytes_at_split(input, at, seq![0u8], b64 + (b32 + body));
            lemma_bytes_at_split(input, at + 1, b64, b32 + body);
            lemma_bytes_at_split(input, at + 9, b32, body);
            lemma_be64_round_trip(next_field(next), input, at + 1);
            lemma_be32_round_trip(entries@.len() as u32, input, at + 9);
            assert(input[at] == sub[0]);
            assert forall|i: int| 0 <= i < entries@.len() implies #[trigger] entry_parts()(entries@[i]).len() >= 1 by {
                assert(key_enc(entries@[i].0@).len() >= 1);
            }
            lemma_concat_map_len(entries@, entry_parts());
        },
        Node::Internal { keys, children } => {
            let kb = concat_map(keys@, key_parts());
            let cb = concat_map(children@, child_parts());
            lemma_keys_enc(keys@, 5);
            lemma_children_enc(children@);
            let k32 = be32(keys@.len() as u32);
            let c32 = be32(children@.len() as u32);
            assert(node_enc(n) =~= seq![1u8] + (k32 + (kb + (c32 + cb))));
            lemma_bytes_at_split(input, at, seq![1u8], k32 + (kb + (c32 + cb)));
            lemma_bytes_at_split(input, at + 1, k32, kb + (c32 + cb));
            lemma_bytes_at_split(input, at + 5, kb, c32 + cb);
            lemma_bytes_at_split(input, at + 5 + kb.len(), c32, cb);
            lemma_be32_round_trip(keys@.len() as u32, input, at + 1);
            lemma_be32_round_trip(children@.len() as u32, input, at + 5 + kb.len());
            assert(input[at] == sub[0]);
            assert forall|i: int| 0 <= i < keys@.len() implies #[trigger] key_parts()(keys@[i]).len() >= 1 by {
                assert(key_enc(keys@[i]@).len() >= 1);
            }
            lemma_concat_map_len(keys@, key_parts());
            assert forall|i: int| 0 <= i < children@.len() implies #[trigger] child_parts()(children@[i]).len() == 8 by {}
            lemma_concat_map_fixed(children@, child_parts(), 8);
        },
    }
}

/// The facts of every storable node that stands at `at`.
proof fn lemma_nodes_at(input: Seq<u8>, at: int, max_keys: usize)
    requires
        max_keys <= 0xFFFF_FFFF,
    ensures
        forall|n: Node|
            node_storable(n, max_keys, usize::MAX as int) && #[trigger] bytes_at(input, at, node_enc(n)) ==> node_facts(
                input,
                at,
                n,
                max_keys,
            ),
{
    assert forall|n: Node| node_storable(n, max_keys, usize::MAX as int) && #[trigger] bytes_at(input, at, node_enc(n)) implies node_facts(
        input,
        at,
        n,
        max_keys,
    ) by {
        lemma_node_at(input, at, n, max_keys);
    }
}

/// Reading a leaf: `got` holds the views of the first `i` entries of `n`,
/// and the rest of its entries stand at `pos`.
pub open spec fn leaf_progress(
    input: Seq<u8>,
    n: Node,
    next: Option<usize>,
    count: int,
    got: Seq<(IndexKey, Vec<NovaId>)>,
    i: int,
    pos: int,
    first: int,
) -> bool {
    match n {
        Node::Leaf { entries, next: nx } => {
            let rest = concat_map(entries@.skip(i), entry_parts());
            &&& nx == next
            &&& entries@.len() == count
            &&& 0 <= i <= count
            &&& entries_view(got) == entries_view(entries@.take(i))
            &&& bytes_at(input, pos, rest)
            &&& pos + rest.len() == first + concat_map(entries@, entry_parts()).len()
            &&& forall|j: int| 0 <= j < entries@.len() ==> entry_storable(#[trigger] entries@[j])
        },
        _ => false,
    }
}

/// Reading the separators of an internal node `n`.
pub open spec fn keys_progress(input: Seq<u8>, n: Node, count: int, got: Seq<IndexKey>, i: int, pos: int, first: int) -> bool {
    match n {
        Node::Internal { keys, children } => {
            let rest = concat_map(keys@.skip(i), key_parts());
            &&& keys@.len() == count
            &&& 0 <= i <= count
            &&& keys_view(got) == keys_view(keys@.take(i))
            &&& bytes_at(input, pos, rest)
            &&& pos + rest.len() == first + concat_map(keys@, key_parts()).len()
            &&& forall|j: int| 0 <= j < keys@.len() ==> key_storable(#[trigger] keys@[j]@)
        },
        _ => false,
    }
}

/// Reading the children of an internal node `n` whose separators are read.
pub open spec fn children_progress(
    input: Seq<u8>,
    n: Node,
    keys_got: Seq<IndexKey>,
    count: int,
    got: Seq<usize>,
    j: int,
    pos: int,
    first: int,
) -> bool {
    match n {
        Node::Internal { keys, children } => {
            let rest = concat_map(children@.skip(j), child_parts());
            &&& keys_view(keys_got) == keys_view(keys@)
            &&& children@.len() == count
            &&& 0 <= j <= count
            &&& got == children@.take(j)
            &&& bytes_at(input, pos, rest)
            &&& pos + rest.len() == first + concat_map(children@, child_parts()).len()
        },
        _ => false,
    }
}

proof fn lemma_entries_view_push(
    prev: Seq<(IndexKey, Vec<NovaId>)>,
    x: (IndexKey, Vec<NovaId>),
    es: Seq<(IndexKey, Vec<NovaId>)>,
    i: int,
)
    requires
        0 <= i < es.len(),
        entries_view(prev) == entries_view(es.take(i)),
        entry_view(x) == entry_view(es[i]),
    ensures
        entries_view(prev.push(x)) == entries_view(es.take(i + 1)),
{
    assert(prev.len() == entries_view(prev).len());
    assert forall|j: int| 0 <= j < i + 1 implies #[trigger] entries_view(prev.push(x))[j] == entries_view(es.take(i + 1))[j] by {
        if j < i {
            assert(entries_view(prev)[j] == entries_view(es.take(i))[j]);
        }
    }
    assert(entries_view(prev.push(x)) =~= entries_view(es.take(i + 1)));
}

proof fn lemma_keys_view_push(prev: Seq<IndexKey>, x: IndexKey, ks: Seq<IndexKey>, i: int)
    requires
        0 <= i < ks.len(),
        keys_view(prev) == keys_view(ks.take(i)),
        x@ == ks[i]@,
    ensures
        keys_view(prev.push(x)) == keys_view(ks.take(i + 1)),
{
    assert(prev.len() == keys_view(prev).len());
    assert forall|j: int| 0 <= j < i + 1 implies #[trigger] keys_view(prev.push(x))[j] == keys_view(ks.take(i + 1))[j] by {
        if j < i {
            assert(keys_view(prev)[j] == keys_view(ks.take(i))[j]);
            assert(prev.push(x)[j] == prev[j]);
            assert(ks.take(i + 1)[j] == ks.take(i)[j]);
            assert(keys_view(prev.push(x))[j] == prev.push(x)[j]@);
            assert(keys_view(prev)[j] == prev[j]@);
            assert(keys_view(ks.take(i))[j] == ks.take(i)[j]@);
            assert(keys_view(ks.take(i + 1))[j] == ks.take(i + 1)[j]@);
        } else {
            assert(prev.push(x)[j] == x);
            assert(ks.take(i + 1)[j] == ks[i]);
            assert(keys_view(prev.push(x))[j] == prev.push(x)[j]@);
            assert(keys_view(ks.take(i + 1))[j] == ks.take(i + 1)[j]@);
        }
    }
    assert(keys_view(prev.push(x)) =~= keys_view(ks.take(i + 1)));
}

/// What the file of a storable tree says of its bytes.
pub open spec fn tree_facts(b: Seq<u8>, m: usize, root: usize, ns: Seq<Node>) -> bool {
    let body = concat_map(ns, node_parts());
    &&& b.len() == 40 + body.len()
    &&& ns.len() <= body.len()
    &&& b[0] == 78u8
    &&& b[1] == 86u8
    &&& b[2] == 73u8
    &&& b[3] == 88u8
    &&& read_be16(b, 4) == 1
    &&& read_be16(b, 6) == 40
    &&& read_be32(b, 8) == m
    &&& read_be32(b, 12) == 0
    &&& read_be64(b, 16) == root as u64
    &&& read_be64(b, 24) == ns.len()
    &&& read_be32(b, 32) == crc32_of(zeroed(b, 32, 36))
    &&& read_be32(b, 36) == 0
    &&& bytes_at(b, 40, body)
    &&& forall|i: int| 0 <= i < ns.len() ==> node_storable(#[trigger] ns[i], m, usize::MAX as int)
}

proof fn lemma_tree_at(b: Seq<u8>, m: usize, root: usize, ns: Seq<Node>)
    requires
        tree_storable(m, root, ns),
        tree_bytes(m, root, ns) == b,
        b.len() <= usize::MAX,
    ensures
        tree_facts(b, m, root, ns),
{
    let body = concat_map(ns, node_parts());
    lemma_nodes_enc(ns, 40);
    assert forall|i: int| 0 <= i < ns.len() implies #[trigger] node_parts()(ns[i]).len() >= 1 by {
        match ns[i] {
            Node::Leaf { .. } => {},
            Node::Internal { .. } => {},
        }
    }
    lemma_concat_map_len(ns, node_parts());
    let count = ns.len() as usize;
    let h0 = index_header(m, root, count, 0);
    let crc = crc32_of(zeroed(h0 + body, 32, 36));
    let h = index_header(m, root, count, crc);
    assert(b == h + body);
    assert(h.len() == 40);
    assert(b.subrange(4, 6) =~= be16(1));
    assert(b.subrange(6, 8) =~= be16(40));
    assert(b.subrange(8, 12) =~= be32(m as u32));
    assert(b.subrange(12, 16) =~= be32(0));
    assert(b.subrange(16, 24) =~= be64(root as u64));
    assert(b.subrange(24, 32) =~= be64(count as u64));
    assert(b.subrange(32, 36) =~= be32(crc));
    assert(b.subrange(36, 40) =~= be32(0));
    lemma_be16_round_trip(1, b, 4);
    lemma_be16_round_trip(40, b, 6);
    lemma_be32_round_trip(m as u32, b, 8);
    lemma_be32_round_trip(0, b, 12);
    lemma_be64_round_trip(root as u64, b, 16);
    lemma_be64_round_trip(count as u64, b, 24);
    lemma_be32_round_trip(crc, b, 32);
    lemma_be32_round_trip(0, b, 36);
    assert(zeroed(h0 + body, 32, 36) =~= zeroed(b, 32, 36));
    assert(b.subrange(40, 40 + body.len() as int) =~= body);
    assert(b[0] == h[0] && b[1] == h[1] && b[2] == h[2] && b[3] == h[3]);
    assert forall|i: int| 0 <= i < ns.len() implies node_storable(#[trigger] ns[i], m, usize::MAX as int) by {
        assert(node_storable(ns[i], m, ns.len() as int));
    }
}

/// The facts of every storable tree whose file `b` is.
proof fn lemma_trees_at(b: Seq<u8>)
    requires
        b.len() <= usize::MAX,
    ensures
        forall|m: usize, root: usize, ns: Seq<Node>|
            tree_storable(m, root, ns) && #[trigger] tree_bytes(m, root, ns) == b ==> tree_facts(b, m, root, ns),
{
    assert forall|m: usize, root: usize, ns: Seq<Node>|
        tree_storable(m, root, ns) && #[trigger] tree_bytes(m, root, ns) == b implies tree_facts(b, m, root, ns) by {
        lemma_tree_at(b, m, root, ns);
    }
}

/// Reading the arena of a storable tree `ns`: `got` holds the views of its
/// first `i` nodes, and the rest stand at `pos`.
pub open spec fn tree_progress(b: Seq<u8>, ns: Seq<Node>, max_keys: usize, got: Seq<Node>, i: int, pos: int) -> bool {
    let rest = concat_map(ns.skip(i), node_parts());
    &&& 0 <= i <= ns.len()
    &&& nodes_view(got) == nodes_view(ns.take(i))
    &&& bytes_at(b, pos, rest)
    &&& pos + rest.len() == b.len()
    &&& forall|j: int| 0 <= j < ns.len() ==> node_storable(#[trigger] ns[j], max_keys, usize::MAX as int)
}

proof fn lemma_nodes_view_push(prev: Seq<Node>, x: Node, ns: Seq<Node>, i: int)
    requires
        0 <= i < ns.len(),
        nodes_view(prev) == nodes_view(ns.take(i)),
        node_view(x) == node_view(ns[i]),
    ensures
        nodes_view(prev.push(x)) == nodes_view(ns.take(i + 1)),
{
    assert(prev.len() == nodes_view(prev).len());
    assert forall|j: int| 0 <= j < i + 1 implies #[trigger] nodes_view(prev.push(x))[j] == nodes_view(ns.take(i + 1))[j] by {
        if j < i {
            assert(nodes_view(prev)[j] == nodes_view(ns.take(i))[j]);
            assert(prev.push(x)[j] == prev[j]);
            assert(ns.take(i + 1)[j] == ns.take(i)[j]);
            assert(nodes_view(prev.push(x))[j] == node_view(prev.push(x)[j]));
            assert(nodes_view(prev)[j] == node_view(prev[j]));
            assert(nodes_view(ns.take(i))[j] == node_view(ns.take(i)[j]));
            assert(nodes_view(ns.take(i + 1))[j] == node_view(ns.take(i + 1)[j]));
        } else {
            assert(prev.push(x)[j] == x);
            assert(ns.take(i + 1)[j] == ns[i]);
            assert(nodes_view(prev.push(x))[j] == node_view(prev.push(x)[j]));
            assert(nodes_view(ns.take(i + 1))[j] == node_view(ns.take(i + 1)[j]));
        }
    }
    assert(nodes_view(prev.push(x)) =~= nodes_view(ns.take(i + 1)));
}

/// A key whose float bits are canonical and whose string fits the file's
/// limit.
pub open spec fn index_key_storable(k: IndexKey) -> bool {
    match k {
        IndexKey::Float64(f) => sortable(canonical_bits(raw_bits(f@))) == f@,
        IndexKey::String(s) => utf8_bytes(s@).len() <= MAX_STRING_BYTES,
        _ => true,
    }
}

/// Every key of a node is storable.
pub open spec fn node_keys_storable(n: Node) -> bool {
    match n {
        Node::Leaf { entries, .. } => forall|i: int|
            0 <= i < entries@.len() ==> index_key_storable(#[trigger] entries@[i].0),
        Node::Internal { keys, .. } => forall|i: int| 0 <= i < keys@.len() ==> index_key_storable(#[trigger] keys@[i]),
    }
}

/// A storable key reads back as itself (strings are always UTF-8, ids
/// always sixteen bytes).
pub proof fn lemma_index_key_storable(k: IndexKey)
    requires
        index_key_storable(k),
    ensures
        key_storable(k@),
{
    match k {
        IndexKey::String(s) => {
            vstd::utf8::encode_utf8_valid_utf8(s@);
        },
        IndexKey::NovaId(id) => {
            crate::nova_id::lemma_id_len(id);
        },
        _ => {},
    }
}

/// Appends a length as four big-endian bytes, when it fits.
fn write_len(out: &mut Vec<u8>, len: usize) -> (r: Result<()>)
    ensures
        r is Ok <==> len <= 0xFFFF_FFFF,
        r is Ok ==> final(out)@ == old(out)@ + be32(len as u32),
        r matches Err(e) ==> e is Storage && final(out)@ == old(out)@,
{
    if len as u64 > 0xFFFF_FFFFu64 {
        return Err(NovaError::Storage("index size is not representable".to_owned()));
    }
    push_u32(out, len as u32);
    Ok(())
}

/// Appends the encoding of a key.
fn encode_key(out: &mut Vec<u8>, key: &IndexKey) -> (r: Result<()>)
    ensures
        r is Ok <==> key_encodable(key@),
        r is Ok ==> final(out)@ == old(out)@ + key_bytes(key@, Seq::empty(), 0),
        r matches Err(e) ==> e is Storage,
{
    match key {
        IndexKey::Int64(v) => {
            out.push(0u8);
            push_u64(out, *v as u64);
            assert(out@ =~= old(out)@ + key_bytes(key@, Seq::empty(), 0));
        },
        IndexKey::Float64(f) => {
            out.push(1u8);
            let bits = f.to_bits();
            proof {
                let k = f@;
                assert(sortable(bits) == k);
                assert(raw_bits(sortable(bits)) == bits) by (bit_vector);
            }
            push_u64(out, bits);
            assert(out@ =~= old(out)@ + key_bytes(key@, Seq::empty(), 0));
        },
        IndexKey::String(s) => {
            out.push(2u8);
            let bytes = s.as_str().as_bytes();
            match write_len(out, bytes.len()) {
                Ok(()) => {},
                Err(e) => {
                    return Err(e);
                },
            }
            push_all(out, bytes);
            assert(out@ =~= old(out)@ + key_bytes(key@, Seq::empty(), 0));
        },
        IndexKey::NovaId(id) => {
            out.push(3u8);
            push_all(out, id.as_bytes());
            assert(out@ =~= old(out)@ + key_bytes(key@, Seq::empty(), 0));
        },
    }
    Ok(())
}


/// Appends the sixteen bytes of each id.
fn push_ids(out: &mut Vec<u8>, ids: &Vec<NovaId>)
    ensures
        final(out)@ == old(out)@ + ids_bytes(ids@),
{
    let mut i: usize = 0;
    while i < ids.len()
        invariant
            i <= ids@.len(),
            out@ == old(out)@ + ids_bytes(ids@.take(i as int)),
        decreases ids@.len() - i,
    {
        push_all(out, ids[i].as_bytes());
        proof {
            assert(ids@.take(i + 1).drop_last() =~= ids@.take(i as int));
        }
        i = i + 1;
        assert(out@ =~= old(out)@ + ids_bytes(ids@.take(i as int)));
    }
    assert(ids@.take(i as int) =~= ids@);
}

/// Every entry of a leaf has an encodable key and id count.
pub open spec fn entries_encodable(es: Seq<(IndexKey, Vec<NovaId>)>) -> bool {
    forall|i: int| 0 <= i < es.len() ==> key_encodable(#[trigger] es[i].0@) && es[i].1@.len() <= 0xFFFF_FFFF
}

/// Appends the encodings of leaf entries.
fn encode_entries(out: &mut Vec<u8>, entries: &Vec<(IndexKey, Vec<NovaId>)>) -> (r: Result<()>)
    ensures
        r is Ok <==> entries_encodable(entries@),
        r is Ok ==> final(out)@ == old(out)@ + entries_bytes(entries@, Seq::empty(), old(out)@.len() as int),
        r matches Err(e) ==> e is Storage,
{
    let ghost base = old(out)@;
    let mut i: usize = 0;
    while i < entries.len()
        invariant
            i <= entries@.len(),
            base == old(out)@,
            out@ == base + entries_bytes(entries@.take(i as int), Seq::empty(), base.len() as int),
            entries_encodable(entries@.take(i as int)),
        decreases entries@.len() - i,
    {
        let ghost front = out@;
        let (key, ids) = &entries[i];
        match encode_key(out, key) {
            Ok(()) => {},
            Err(e) => {
                assert(!entries_encodable(entries@)) by {
                    assert(!key_encodable(entries@[i as int].0@));
                }
                return Err(e);
            },
        }
        match write_len(out, ids.len()) {
            Ok(()) => {},
            Err(e) => {
                assert(!entries_encodable(entries@)) by {
                    assert(entries@[i as int].1@.len() > 0xFFFF_FFFF);
                }
                return Err(e);
            },
        }
        push_ids(out, ids);
        proof {
            let t = entries@.take(i + 1);
            assert(t.drop_last() =~= entries@.take(i as int));
            assert(t.last() == entries@[i as int]);
            let fb = entries_bytes(entries@.take(i as int), Seq::empty(), base.len() as int);
            assert(key_bytes(key@, Seq::empty(), 0) == key_bytes(key@, Seq::empty(), (base.len() + fb.len()) as int));
            assert(out@ =~= base + entries_bytes(t, Seq::empty(), base.len() as int));
            assert forall|j: int| 0 <= j < t.len() implies key_encodable(#[trigger] t[j].0@) && t[j].1@.len() <= 0xFFFF_FFFF by {
                if j < i {
                    assert(t[j] == entries@.take(i as int)[j]);
                }
            }
        }
        i = i + 1;
    }
    assert(entries@.take(i as int) =~= entries@);
    Ok(())
}

/// Appends the encodings of separator keys.
fn encode_keys(out: &mut Vec<u8>, keys: &Vec<IndexKey>) -> (r: Result<()>)
    ensures
        r is Ok <==> forall|i: int| 0 <= i < keys@.len() ==> key_encodable(#[trigger] keys@[i]@),
        r is Ok ==> final(out)@ == old(out)@ + keys_bytes(keys@, Seq::empty(), old(out)@.len() as int),
        r matches Err(e) ==> e is Storage,
{
    let ghost base = old(out)@;
    let mut i: usize = 0;
    while i < keys.len()
        invariant
            i <= keys@.len(),
            base == old(out)@,
            out@ == base + keys_bytes(keys@.take(i as int), Seq::empty(), base.len() as int),
            forall|j: int| 0 <= j < i ==> key_encodable(#[trigger] keys@[j]@),
        decreases keys@.len() - i,
    {
        match encode_key(out, &keys[i]) {
            Ok(()) => {},
            Err(e) => {
                return Err(e);
            },
        }
        proof {
            let t = keys@.take(i + 1);
            assert(t.drop_last() =~= keys@.take(i as int));
            let fb = keys_bytes(keys@.take(i as int), Seq::empty(), base.len() as int);
            assert(key_bytes(keys@[i as int]@, Seq::empty(), 0) == key_bytes(t.last()@, Seq::empty(), (base.len() + fb.len()) as int));
            assert(out@ =~= base + keys_bytes(t, Seq::empty(), base.len() as int));
        }
        i = i + 1;
    }
    assert(keys@.take(i as int) =~= keys@);
    Ok(())
}

/// Appends the encodings of child references.
fn push_children(out: &mut Vec<u8>, children: &Vec<usize>)
    ensures
        final(out)@ == old(out)@ + children_bytes(children@),
{
    let mut i: usize = 0;
    while i < children.len()
        invariant
            i <= children@.len(),
            out@ == old(out)@ + children_bytes(children@.take(i as int)),
        decreases children@.len() - i,
    {
        push_u64(out, children[i] as u64);
        proof {
            assert(children@.take(i + 1).drop_last() =~= children@.take(i as int));
        }
        i = i + 1;
        assert(out@ =~= old(out)@ + children_bytes(children@.take(i as int)));
    }
    assert(children@.take(i as int) =~= children@);
}

/// Appends the encoding of one node.
fn encode_node(out: &mut Vec<u8>, node: &Node) -> (r: Result<()>)
    ensures
        r is Ok <==> node_encodable(*node),
        r is Ok ==> final(out)@ == old(out)@ + node_bytes(*node, Seq::empty(), old(out)@.len() as int),
        r matches Err(e) ==> e is Storage,
{
    let ghost base = old(out)@;
    match node {
        Node::Leaf { entries, next } => {
            out.push(0u8);
            let raw: u64 = match next {
                Some(x) => *x as u64,
                None => NONE_NODE,
            };
            push_u64(out, raw);
            match write_len(out, entries.len()) {
                Ok(()) => {},
                Err(e) => {
                    return Err(e);
                },
            }
            let ghost mid = out@;
            match encode_entries(out, entries) {
                Ok(()) => {},
                Err(e) => {
                    return Err(e);
                },
            }
            assert(mid.len() == base.len() + 13);
            assert(out@ =~= base + node_bytes(*node, Seq::empty(), base.len() as int));
        },
        Node::Internal { keys, children } => {
            out.push(1u8);
            match write_len(out, keys.len()) {
                Ok(()) => {},
                Err(e) => {
                    return Err(e);
                },
            }
            let ghost mid = out@;
            match encode_keys(out, keys) {
                Ok(()) => {},
                Err(e) => {
                    return Err(e);
                },
            }
            match write_len(out, children.len()) {
                Ok(()) => {},
                Err(e) => {
                    return Err(e);
                },
            }
            push_children(out, children);
            assert(mid.len() == base.len() + 5);
            assert(out@ =~= base + node_bytes(*node, Seq::empty(), base.len() as int));
        },
    }
    Ok(())
}

/// Encodes a tree as a complete checksummed file.
///
/// Fails with `Storage` when the capacity or a count, length or string
/// does not fit its 32-bit field.
pub fn encode_tree(max_keys: usize, root: usize, nodes: &Vec<Node>) -> (r: Result<Vec<u8>>)
    ensures
        r is Ok <==> (max_keys <= 0xFFFF_FFFF && nodes_encodable(nodes@)),
        r matches Ok(b) ==> b@ == tree_bytes(max_keys, root, nodes@),
        r matches Err(e) ==> e is Storage,
{
    let mut out: Vec<u8> = Vec::new();
    push_all(&mut out, INDEX_MAGIC.as_slice());
    push_u16(&mut out, INDEX_VERSION);
    push_u16(&mut out, 40u16);
    match write_len(&mut out, max_keys) {
        Ok(()) => {},
        Err(e) => {
            return Err(e);
        },
    }
    push_u32(&mut out, 0u32);
    push_u64(&mut out, root as u64);
    push_u64(&mut out, nodes.len() as u64);
    push_u32(&mut out, 0u32);
    push_u32(&mut out, 0u32);
    let ghost head = out@;
    assert(head =~= index_header(max_keys, root, nodes@.len() as usize, 0));
    let mut i: usize = 0;
    while i < nodes.len()
        invariant
            i <= nodes@.len(),
            head.len() == 40,
            out@ == head + nodes_bytes(nodes@.take(i as int), Seq::empty(), 40),
            nodes_encodable(nodes@.take(i as int)),
        decreases nodes@.len() - i,
    {
        match encode_node(&mut out, &nodes[i]) {
            Ok(()) => {},
            Err(e) => {
                return Err(e);
            },
        }
        proof {
            let t = nodes@.take(i + 1);
            assert(t.drop_last() =~= nodes@.take(i as int));
            assert(out@ =~= head + nodes_bytes(t, Seq::empty(), 40));
            assert forall|j: int| 0 <= j < t.len() implies node_encodable(#[trigger] t[j]) by {
                if j < i {
                    assert(t[j] == nodes@.take(i as int)[j]);
                }
            }
        }
        i = i + 1;
    }
    assert(nodes@.take(i as int) =~= nodes@);
    let checksum = crc32(out.as_slice(), INDEX_CHECKSUM_OFFSET, INDEX_CHECKSUM_OFFSET + 4);
    let ghost unsummed = out@;
    set_u32(&mut out, INDEX_CHECKSUM_OFFSET, checksum);
    proof {
        let body = nodes_bytes(nodes@, Seq::empty(), 40);
        assert(unsummed == index_header(max_keys, root, nodes@.len() as usize, 0) + body);
        assert(out@ =~= tree_bytes(max_keys, root, nodes@));
    }
    Ok(out)
}

/// A `Corruption` error.
fn corruption(message: &str) -> (e: NovaError)
    ensures
        e is Corruption,
{
    NovaError::Corruption(message.to_owned())
}

/// A stored 64-bit value that does not fit a `usize`.
fn size_error() -> (e: NovaError)
    ensures
        e is Storage,
{
    NovaError::Storage("index size is not representable".to_owned())
}

/// Checks that `len` more bytes follow `pos`.
fn need(input: &[u8], pos: usize, len: usize) -> (r: Result<()>)
    requires
        pos <= input@.len(),
    ensures
        r is Ok <==> pos + len <= input@.len(),
        r matches Err(e) ==> e is Corruption,
{
    if len > input.len() - pos {
        Err(corruption("truncated index file"))
    } else {
        Ok(())
    }
}

/// Reads a 32-bit count at `*pos`; it must be at most `maximum` and at most
/// the number of bytes left after it.
fn read_count(input: &[u8], pos: &mut usize, maximum: usize) -> (r: Result<usize>)
    requires
        *old(pos) <= input@.len(),
    ensures
        match r {
            Ok(c) => {
                &&& *old(pos) + 4 <= input@.len()
                &&& *final(pos) == *old(pos) + 4
                &&& c == read_be32(input@, *old(pos) as int)
                &&& c <= maximum
                &&& c <= input@.len() - *final(pos)
            },
            Err(e) => e is Corruption,
        },
        *old(pos) + 4 <= input@.len() && read_be32(input@, *old(pos) as int) <= maximum && *old(pos) + 4
            + read_be32(input@, *old(pos) as int) <= input@.len() ==> r is Ok,
{
    let _total = input.len();
    match need(input, *pos, 4) {
        Ok(()) => {},
        Err(e) => {
            return Err(e);
        },
    }
    let c = get_u32(input, *pos);
    *pos = *pos + 4;
    if c as u64 > maximum as u64 || c as u64 > (input.len() - *pos) as u64 {
        return Err(corruption("impossible index collection count"));
    }
    Ok(c as usize)
}

/// Reads sixteen bytes at `*pos` as an id.
fn read_id(input: &[u8], pos: &mut usize) -> (r: Result<NovaId>)
    requires
        *old(pos) <= input@.len(),
    ensures
        match r {
            Ok(id) => {
                &&& *final(pos) == *old(pos) + 16 <= input@.len()
                &&& id@ == input@.subrange(*old(pos) as int, *final(pos) as int)
            },
            Err(e) => e is Corruption,
        },
        *old(pos) + 16 <= input@.len() ==> r is Ok,
{
    let _total = input.len();
    match need(input, *pos, 16) {
        Ok(()) => {},
        Err(e) => {
            return Err(e);
        },
    }
    let raw = copy_range(input, *pos, *pos + 16);
    let id = match NovaId::from_bytes(raw.as_slice()) {
        Ok(id) => id,
        Err(_) => {
            return Err(corruption("invalid document id"));
        },
    };
    *pos = *pos + 16;
    Ok(id)
}

/// Decodes one key at `*pos`.
fn decode_key(input: &[u8], pos: &mut usize) -> (r: Result<IndexKey>)
    requires
        *old(pos) <= input@.len(),
    ensures
        match r {
            Ok(k) => {
                &&& *old(pos) <= *final(pos) <= input@.len()
                &&& input@.subrange(*old(pos) as int, *final(pos) as int) == key_bytes(k@, input@, *old(pos) as int)
                &&& key_encodable(k@)
            },
            Err(e) => e is Corruption,
        },
        forall|k: KeyView|
            key_storable(k) && #[trigger] bytes_at(input@, *old(pos) as int, key_enc(k)) ==> (r matches Ok(x) && x@
                == k && *final(pos) == *old(pos) + key_enc(k).len()),
{
    let start = *pos;
    proof {
        lemma_keys_at(input@, start as int);
    }
    match need(input, start, 1) {
        Ok(()) => {},
        Err(e) => {
            return Err(e);
        },
    }
    let tag = input[start];
    *pos = start + 1;
    if tag == 0 {
        match need(input, *pos, 8) {
            Ok(()) => {},
            Err(e) => {
                return Err(e);
            },
        }
        let u = get_u64(input, *pos);
        *pos = *pos + 8;
        let k = IndexKey::Int64(u as i64);
        proof {
            lemma_read_be64(input@, start + 1);
            assert((u as i64) as u64 == u) by (bit_vector);
            assert(input@.subrange(start as int, start + 9) =~= seq![0u8] + input@.subrange(start + 1, start + 9));
        }
        Ok(k)
    } else if tag == 1 {
        match need(input, *pos, 8) {
            Ok(()) => {},
            Err(e) => {
                return Err(e);
            },
        }
        let u = get_u64(input, *pos);
        *pos = *pos + 8;
        let k = IndexKey::Float64(OrderedF64::from_bits(u));
        proof {
            lemma_read_be64(input@, start + 1);
            assert(float_field(input@, start + 1, k@->Float_0) == u);
            assert(input@.subrange(start as int, start + 9) =~= seq![1u8] + input@.subrange(start + 1, start + 9));
        }
        Ok(k)
    } else if tag == 2 {
        let length = match read_count(input, pos, MAX_STRING_BYTES) {
            Ok(v) => v,
            Err(e) => {
                return Err(e);
            },
        };
        let body = *pos;
        match need(input, body, length) {
            Ok(()) => {},
            Err(e) => {
                return Err(e);
            },
        }
        let raw = copy_range(input, body, body + length);
        *pos = body + length;
        match string_from_utf8(raw) {
            Some(text) => {
                let k = IndexKey::String(text);
                proof {
                    vstd::utf8::decode_utf8_encode_utf8(input@.subrange(body as int, body + length));
                    lemma_read_be32(input@, start + 1);
                    assert(input@.subrange(start as int, *pos as int) =~= seq![2u8] + input@.subrange(start + 1, start
                        + 5) + input@.subrange(body as int, body + length));
                }
                Ok(k)
            },
            None => Err(corruption("index string is not UTF-8")),
        }
    } else if tag == 3 {
        let id = match read_id(input, pos) {
            Ok(v) => v,
            Err(e) => {
                return Err(e);
            },
        };
        proof {
            assert(input@.subrange(start as int, *pos as int) =~= seq![3u8] + input@.subrange(start + 1, *pos as int));
        }
        Ok(IndexKey::NovaId(id))
    } else {
        Err(corruption("unknown index key tag"))
    }
}

/// Decodes `count` ids at `*pos`.
fn decode_ids(input: &[u8], pos: &mut usize, count: usize) -> (r: Result<Vec<NovaId>>)
    requires
        *old(pos) <= input@.len(),
    ensures
        match r {
            Ok(ids) => {
                &&& ids@.len() == count
                &&& *old(pos) <= *final(pos) <= input@.len()
                &&& input@.subrange(*old(pos) as int, *final(pos) as int) == ids_bytes(ids@)
            },
            Err(e) => e is Corruption,
        },
        forall|want: Seq<NovaId>|
            want.len() == count && #[trigger] bytes_at(input@, *old(pos) as int, ids_bytes(want)) ==> (r matches Ok(
                v,
            ) && ids_view(v@) == ids_view(want) && *final(pos) == *old(pos) + ids_bytes(want).len()),
{
    let start = *pos;
    let mut ids: Vec<NovaId> = Vec::new();
    let mut i: usize = 0;
    proof {
        assert forall|want: Seq<NovaId>|
            want.len() == count && #[trigger] bytes_at(input@, start as int, ids_bytes(want)) implies (ids_view(ids@)
                == ids_view(want.take(0)) && bytes_at(input@, start as int, concat_map(want.skip(0), id_parts()))) by {
            lemma_ids_enc(want);
            assert(want.skip(0) =~= want);
            assert(ids_view(ids@) =~= ids_view(want.take(0)));
        }
    }
    while i < count
        invariant
            i <= count,
            ids@.len() == i,
            start == *old(pos),
            start <= *pos <= input@.len(),
            *pos == start + 16 * i,
            input@.subrange(start as int, *pos as int) == ids_bytes(ids@),
            forall|want: Seq<NovaId>|
                want.len() == count && #[trigger] bytes_at(input@, start as int, ids_bytes(want)) ==> (ids_view(ids@)
                    == ids_view(want.take(i as int)) && bytes_at(input@, *pos as int, concat_map(want.skip(i as int), id_parts()))),
        decreases count - i,
    {
        let before = *pos;
        proof {
            assert forall|want: Seq<NovaId>|
                want.len() == count && #[trigger] bytes_at(input@, start as int, ids_bytes(want)) implies (before + 16
                    <= input@.len() && input@.subrange(before as int, before + 16) == want[i as int]@ && bytes_at(
                    input@,
                    before + 16,
                    concat_map(want.skip(i + 1), id_parts()),
                )) by {
                lemma_concat_map_step(want, i as int, id_parts());
                crate::nova_id::lemma_id_len(want[i as int]);
                lemma_bytes_at_split(input@, before as int, want[i as int]@, concat_map(want.skip(i + 1), id_parts()));
            }
        }
        let id = match read_id(input, pos) {
            Ok(v) => v,
            Err(e) => {
                return Err(e);
            },
        };
        let ghost prev = ids@;
        ids.push(id);
        proof {
            assert(ids@.drop_last() =~= prev);
            assert(input@.subrange(start as int, *pos as int) =~= input@.subrange(start as int, before as int)
                + input@.subrange(before as int, *pos as int));
            assert forall|want: Seq<NovaId>|
                want.len() == count && #[trigger] bytes_at(input@, start as int, ids_bytes(want)) implies (ids_view(ids@)
                    == ids_view(want.take(i + 1)) && bytes_at(input@, *pos as int, concat_map(want.skip(i + 1), id_parts()))) by {
                assert(ids_view(prev) == ids_view(want.take(i as int)));
                assert(ids_view(ids@) =~= ids_view(want.take(i + 1))) by {
                    assert forall|j: int| 0 <= j < i + 1 implies #[trigger] ids_view(ids@)[j] == ids_view(want.take(i + 1))[j] by {
                        if j < i {
                            assert(ids_view(prev)[j] == ids_view(want.take(i as int))[j]);
                        }
                    }
                }
            }
        }
        i = i + 1;
    }
    proof {
        assert forall|want: Seq<NovaId>|
            want.len() == count && #[trigger] bytes_at(input@, start as int, ids_bytes(want)) implies (ids_view(ids@)
                == ids_view(want) && *pos == start + ids_bytes(want).len()) by {
            assert(want.take(count as int) =~= want);
            lemma_ids_enc(want);
            assert forall|j: int| 0 <= j < want.len() implies #[trigger] id_parts()(want[j]).len() == 16 by {
                crate::nova_id::lemma_id_len(want[j]);
            }
            lemma_concat_map_fixed(want, id_parts(), 16);
        }
    }
    Ok(ids)
}

/// Decodes one leaf entry at `*pos`.
fn decode_entry(input: &[u8], pos: &mut usize) -> (r: Result<(IndexKey, Vec<NovaId>)>)
    requires
        *old(pos) <= input@.len(),
    ensures
        match r {
            Ok(e) => {
                &&& *old(pos) <= *final(pos) <= input@.len()
                &&& input@.subrange(*old(pos) as int, *final(pos) as int) == entry_bytes(e, input@, *old(pos) as int)
            },
            Err(e) => e is Corruption,
        },
        forall|e: (IndexKey, Vec<NovaId>)|
            entry_storable(e) && #[trigger] bytes_at(input@, *old(pos) as int, entry_enc(e)) ==> (r matches Ok(x)
                && entry_view(x) == entry_view(e) && *final(pos) == *old(pos) + entry_enc(e).len()),
{
    let start = *pos;
    proof {
        lemma_entries_at(input@, start as int);
    }
    let total = input.len();
    let key = match decode_key(input, pos) {
        Ok(v) => v,
        Err(e) => {
            return Err(e);
        },
    };
    let mid = *pos;
    let id_count = match read_count(input, pos, total / 16) {
        Ok(v) => v,
        Err(e) => {
            return Err(e);
        },
    };
    if id_count == 0 {
        return Err(corruption("index key has no document ids"));
    }
    let after = *pos;
    let ids = match decode_ids(input, pos, id_count) {
        Ok(v) => v,
        Err(e) => {
            return Err(e);
        },
    };
    proof {
        lemma_read_be32(input@, mid as int);
        assert(input@.subrange(start as int, *pos as int) =~= input@.subrange(start as int, mid as int)
            + input@.subrange(mid as int, after as int) + input@.subrange(after as int, *pos as int));
    }
    Ok((key, ids))
}

/// Decodes one node at `*pos`; a leaf holds at most `max_keys` entries and
/// an internal node at most `max_keys` keys and one more child.
/// Decodes the rest of a leaf whose tag byte stands at `start`.
#[verifier::rlimit(100)]
#[verifier::spinoff_prover]
fn decode_leaf(input: &[u8], pos: &mut usize, max_keys: usize, start: usize) -> (r: Result<Node>)
    requires
        start < input@.len(),
        *old(pos) == start + 1,
        input@[start as int] == 0u8,
        max_keys <= 0xFFFF_FFFF,
    ensures
        match r {
            Ok(n) => {
                &&& start <= *final(pos) <= input@.len()
                &&& input@.subrange(start as int, *final(pos) as int) == node_bytes(n, input@, start as int)
            },
            Err(e) => e is Corruption || e is Storage,
        },
        forall|n: Node|
            node_storable(n, max_keys, usize::MAX as int) && #[trigger] bytes_at(input@, start as int, node_enc(n))
                ==> (r matches Ok(x) && node_view(x) == node_view(n) && *final(pos) == start + node_enc(n).len()),
{
    let _total = input.len();
    proof {
        lemma_nodes_at(input@, start as int, max_keys);
    }
    match need(input, *pos, 8) {
        Ok(()) => {},
        Err(e) => {
            return Err(e);
        },
    }
    let raw = get_u64(input, *pos);
    *pos = *pos + 8;
    let next: Option<usize> = if raw == NONE_NODE {
        None
    } else if raw > usize::MAX as u64 {
        return Err(size_error());
    } else {
        Some(raw as usize)
    };
    let count_at = *pos;
    let count = match read_count(input, pos, max_keys) {
        Ok(v) => v,
        Err(e) => {
            return Err(e);
        },
    };
    let first = *pos;
    let mut entries: Vec<(IndexKey, Vec<NovaId>)> = Vec::new();
    let mut i: usize = 0;
    proof {
        assert forall|n: Node|
            node_storable(n, max_keys, usize::MAX as int) && #[trigger] bytes_at(input@, start as int, node_enc(n))
                implies leaf_progress(input@, n, next, count as int, entries@, 0, *pos as int, first as int) by {
            let es = n->Leaf_entries@;
            assert(es.skip(0) =~= es);
            assert(entries_view(entries@) =~= entries_view(es.take(0)));
        }
    }
    while i < count
        invariant
            i <= count,
            entries@.len() == i,
            first <= *pos <= input@.len(),
            input@.subrange(first as int, *pos as int) == entries_bytes(entries@, input@, first as int),
            start + 1 == *old(pos),
            forall|n: Node|
                node_storable(n, max_keys, usize::MAX as int) && #[trigger] bytes_at(input@, start as int, node_enc(n))
                    ==> leaf_progress(input@, n, next, count as int, entries@, i as int, *pos as int, first as int),
        decreases count - i,
    {
        let before = *pos;
        proof {
            assert forall|n: Node|
                node_storable(n, max_keys, usize::MAX as int) && #[trigger] bytes_at(input@, start as int, node_enc(n))
                    implies ({
                    let es = n->Leaf_entries@;
                    &&& entry_storable(es[i as int])
                    &&& bytes_at(input@, before as int, entry_enc(es[i as int]))
                    &&& bytes_at(input@, before + entry_enc(es[i as int]).len(), concat_map(es.skip(i + 1), entry_parts()))
                    &&& concat_map(es.skip(i as int), entry_parts()).len() == entry_enc(es[i as int]).len()
                        + concat_map(es.skip(i + 1), entry_parts()).len()
                }) by {
                let es = n->Leaf_entries@;
                lemma_concat_map_step(es, i as int, entry_parts());
                lemma_bytes_at_split(input@, before as int, entry_enc(es[i as int]), concat_map(es.skip(i + 1), entry_parts()));
            }
        }
        let e = match decode_entry(input, pos) {
            Ok(v) => v,
            Err(e) => {
                return Err(e);
            },
        };
        let ghost prev = entries@;
        entries.push(e);
        proof {
            assert(entries@.drop_last() =~= prev);
            assert(input@.subrange(first as int, *pos as int) =~= input@.subrange(first as int, before as int)
                + input@.subrange(before as int, *pos as int));
            assert forall|n: Node|
                node_storable(n, max_keys, usize::MAX as int) && #[trigger] bytes_at(input@, start as int, node_enc(n))
                    implies leaf_progress(input@, n, next, count as int, entries@, i + 1, *pos as int, first as int) by {
                let es = n->Leaf_entries@;
                lemma_entries_view_push(prev, e, es, i as int);
            }
        }
        i = i + 1;
    }
    let node = Node::Leaf { entries, next };
    proof {
        assert forall|n: Node|
            node_storable(n, max_keys, usize::MAX as int) && #[trigger] bytes_at(input@, start as int, node_enc(n))
                implies node_view(node) == node_view(n) && *pos == start + node_enc(n).len() by {
            let es = n->Leaf_entries@;
            assert(es.take(count as int) =~= es);
            assert(es.skip(count as int) =~= Seq::<(IndexKey, Vec<NovaId>)>::empty());
            assert(concat_map(es.skip(count as int), entry_parts()) =~= Seq::<u8>::empty());
        }
        lemma_read_be64(input@, start + 1);
        lemma_read_be32(input@, count_at as int);
        assert(next_field(next) == raw);
        assert(input@.subrange(start as int, *pos as int) =~= seq![0u8] + input@.subrange(start + 1, start + 9)
            + input@.subrange(count_at as int, first as int) + input@.subrange(first as int, *pos as int));
    }
    Ok(node)
}

/// Decodes the rest of a internal node whose tag byte stands at `start`.
#[verifier::rlimit(100)]
#[verifier::spinoff_prover]
fn decode_internal(input: &[u8], pos: &mut usize, max_keys: usize, start: usize) -> (r: Result<Node>)
    requires
        start < input@.len(),
        *old(pos) == start + 1,
        input@[start as int] == 1u8,
        max_keys <= 0xFFFF_FFFF,
    ensures
        match r {
            Ok(n) => {
                &&& start <= *final(pos) <= input@.len()
                &&& input@.subrange(start as int, *final(pos) as int) == node_bytes(n, input@, start as int)
            },
            Err(e) => e is Corruption || e is Storage,
        },
        forall|n: Node|
            node_storable(n, max_keys, usize::MAX as int) && #[trigger] bytes_at(input@, start as int, node_enc(n))
                ==> (r matches Ok(x) && node_view(x) == node_view(n) && *final(pos) == start + node_enc(n).len()),
{
    let _total = input.len();
    proof {
        lemma_nodes_at(input@, start as int, max_keys);
    }
    let kcount_at = *pos;
    let key_count = match read_count(input, pos, max_keys) {
        Ok(v) => v,
        Err(e) => {
            return Err(e);
        },
    };
    let first = *pos;
    let mut keys: Vec<IndexKey> = Vec::new();
    let mut i: usize = 0;
    proof {
        assert forall|n: Node|
            node_storable(n, max_keys, usize::MAX as int) && #[trigger] bytes_at(input@, start as int, node_enc(n))
                implies keys_progress(input@, n, key_count as int, keys@, 0, *pos as int, first as int) by {
            let ks = n->Internal_keys@;
            assert(ks.skip(0) =~= ks);
            assert(keys_view(keys@) =~= keys_view(ks.take(0)));
        }
    }
    while i < key_count
        invariant
            i <= key_count,
            keys@.len() == i,
            first <= *pos <= input@.len(),
            input@.subrange(first as int, *pos as int) == keys_bytes(keys@, input@, first as int),
            start + 1 == *old(pos),
            forall|n: Node|
                node_storable(n, max_keys, usize::MAX as int) && #[trigger] bytes_at(input@, start as int, node_enc(n))
                    ==> keys_progress(input@, n, key_count as int, keys@, i as int, *pos as int, first as int),
        decreases key_count - i,
    {
        let before = *pos;
        proof {
            assert forall|n: Node|
                node_storable(n, max_keys, usize::MAX as int) && #[trigger] bytes_at(input@, start as int, node_enc(n))
                    implies ({
                    let ks = n->Internal_keys@;
                    &&& key_storable(ks[i as int]@)
                    &&& bytes_at(input@, before as int, key_enc(ks[i as int]@))
                    &&& bytes_at(input@, before + key_enc(ks[i as int]@).len(), concat_map(ks.skip(i + 1), key_parts()))
                    &&& concat_map(ks.skip(i as int), key_parts()).len() == key_enc(ks[i as int]@).len()
                        + concat_map(ks.skip(i + 1), key_parts()).len()
                }) by {
                let ks = n->Internal_keys@;
                lemma_concat_map_step(ks, i as int, key_parts());
                lemma_bytes_at_split(input@, before as int, key_enc(ks[i as int]@), concat_map(ks.skip(i + 1), key_parts()));
            }
        }
        let k = match decode_key(input, pos) {
            Ok(v) => v,
            Err(e) => {
                return Err(e);
            },
        };
        let ghost prev = keys@;
        keys.push(k);
        proof {
            assert(keys@.drop_last() =~= prev);
            assert(input@.subrange(first as int, *pos as int) =~= input@.subrange(first as int, before as int)
                + input@.subrange(before as int, *pos as int));
            assert forall|n: Node|
                node_storable(n, max_keys, usize::MAX as int) && #[trigger] bytes_at(input@, start as int, node_enc(n))
                    implies keys_progress(input@, n, key_count as int, keys@, i + 1, *pos as int, first as int) by {
                let ks = n->Internal_keys@;
                lemma_keys_view_push(prev, k, ks, i as int);
            }
        }
        i = i + 1;
    }
    proof {
        assert forall|n: Node|
            node_storable(n, max_keys, usize::MAX as int) && #[trigger] bytes_at(input@, start as int, node_enc(n))
                implies keys_view(keys@) == keys_view(n->Internal_keys@) && *pos == first + concat_map(
                n->Internal_keys@,
                key_parts(),
            ).len() by {
            let ks = n->Internal_keys@;
            assert(ks.take(key_count as int) =~= ks);
            assert(ks.skip(key_count as int) =~= Seq::<IndexKey>::empty());
            assert(concat_map(ks.skip(key_count as int), key_parts()) =~= Seq::<u8>::empty());
        }
    }
    let ccount_at = *pos;
    let child_max: usize = if max_keys < usize::MAX {
        max_keys + 1
    } else {
        max_keys
    };
    let child_count = match read_count(input, pos, child_max) {
        Ok(v) => v,
        Err(e) => {
            return Err(e);
        },
    };
    let cfirst = *pos;
    let mut children: Vec<usize> = Vec::new();
    let mut j: usize = 0;
    proof {
        assert forall|n: Node|
            node_storable(n, max_keys, usize::MAX as int) && #[trigger] bytes_at(input@, start as int, node_enc(n))
                implies children_progress(input@, n, keys@, child_count as int, children@, 0, *pos as int, cfirst as int) by {
            let cs = n->Internal_children@;
            assert(cs.skip(0) =~= cs);
            assert(children@ =~= cs.take(0));
        }
    }
    while j < child_count
        invariant
            j <= child_count,
            children@.len() == j,
            cfirst <= *pos <= input@.len(),
            input@.len() <= usize::MAX,
            input@.subrange(cfirst as int, *pos as int) == children_bytes(children@),
            start + 1 == *old(pos),
            forall|n: Node|
                node_storable(n, max_keys, usize::MAX as int) && #[trigger] bytes_at(input@, start as int, node_enc(n))
                    ==> children_progress(input@, n, keys@, child_count as int, children@, j as int, *pos as int, cfirst as int),
        decreases child_count - j,
    {
        let before = *pos;
        proof {
            assert forall|n: Node|
                node_storable(n, max_keys, usize::MAX as int) && #[trigger] bytes_at(input@, start as int, node_enc(n))
                    implies ({
                    let cs = n->Internal_children@;
                    &&& before + 8 <= input@.len()
                    &&& read_be64(input@, before as int) == cs[j as int] as u64
                    &&& bytes_at(input@, before + 8, concat_map(cs.skip(j + 1), child_parts()))
                    &&& concat_map(cs.skip(j as int), child_parts()).len() == 8 + concat_map(cs.skip(j + 1), child_parts()).len()
                }) by {
                let cs = n->Internal_children@;
                lemma_concat_map_step(cs, j as int, child_parts());
                lemma_bytes_at_split(input@, before as int, be64(cs[j as int] as u64), concat_map(cs.skip(j + 1), child_parts()));
                lemma_be64_round_trip(cs[j as int] as u64, input@, before as int);
            }
        }
        match need(input, before, 8) {
            Ok(()) => {},
            Err(e) => {
                return Err(e);
            },
        }
        let raw = get_u64(input, before);
        if raw > usize::MAX as u64 {
            return Err(size_error());
        }
        *pos = before + 8;
        let ghost prev = children@;
        children.push(raw as usize);
        proof {
            lemma_read_be64(input@, before as int);
            assert(children@.drop_last() =~= prev);
            assert(input@.subrange(cfirst as int, *pos as int) =~= input@.subrange(cfirst as int, before as int)
                + input@.subrange(before as int, *pos as int));
            assert forall|n: Node|
                node_storable(n, max_keys, usize::MAX as int) && #[trigger] bytes_at(input@, start as int, node_enc(n))
                    implies children_progress(input@, n, keys@, child_count as int, children@, j + 1, *pos as int, cfirst as int) by {
                let cs = n->Internal_children@;
                assert(children@ =~= cs.take(j + 1));
            }
        }
        j = j + 1;
    }
    proof {
        assert forall|n: Node|
            node_storable(n, max_keys, usize::MAX as int) && #[trigger] bytes_at(input@, start as int, node_enc(n))
                implies children@ == n->Internal_children@ && *pos == cfirst + concat_map(n->Internal_children@, child_parts()).len() by {
            let cs = n->Internal_children@;
            assert(cs.take(child_count as int) =~= cs);
            assert(cs.skip(child_count as int) =~= Seq::<usize>::empty());
            assert(concat_map(cs.skip(child_count as int), child_parts()) =~= Seq::<u8>::empty());
        }
    }
    let node = Node::Internal { keys, children };
    proof {
        lemma_read_be32(input@, kcount_at as int);
        lemma_read_be32(input@, ccount_at as int);
        assert(input@.subrange(start as int, *pos as int) =~= seq![1u8] + input@.subrange(kcount_at as int, first as int)
            + input@.subrange(first as int, ccount_at as int) + input@.subrange(ccount_at as int, cfirst as int)
            + input@.subrange(cfirst as int, *pos as int));
    }
    Ok(node)
}

fn decode_node(input: &[u8], pos: &mut usize, max_keys: usize) -> (r: Result<Node>)
    requires
        *old(pos) <= input@.len(),
        max_keys <= 0xFFFF_FFFF,
    ensures
        match r {
            Ok(n) => {
                &&& *old(pos) <= *final(pos) <= input@.len()
                &&& input@.subrange(*old(pos) as int, *final(pos) as int) == node_bytes(n, input@, *old(pos) as int)
            },
            Err(e) => e is Corruption || e is Storage,
        },
        forall|n: Node|
            node_storable(n, max_keys, usize::MAX as int) && #[trigger] bytes_at(input@, *old(pos) as int, node_enc(n))
                ==> (r matches Ok(x) && node_view(x) == node_view(n) && *final(pos) == *old(pos) + node_enc(n).len()),
{
    let start = *pos;
    let _total = input.len();
    proof {
        lemma_nodes_at(input@, start as int, max_keys);
    }
    match need(input, start, 1) {
        Ok(()) => {},
        Err(e) => {
            return Err(e);
        },
    }
    let tag = input[start];
    *pos = start + 1;
    if tag == 0 {
        decode_leaf(input, pos, max_keys, start)
    } else if tag == 1 {
        decode_internal(input, pos, max_keys, start)
    } else {
        Err(corruption("unknown index node tag"))
    }
}

/// The file starts with the index magic and a header, and names a format
/// version other than this one.
pub open spec fn unsupported_version(b: Seq<u8>) -> bool {
    &&& b.len() >= INDEX_HEADER_SIZE
    &&& b.take(4) == INDEX_MAGIC@
    &&& read_be16(b, 4) != INDEX_VERSION
}

/// Decodes a complete index file into its capacity, root and node arena.
///
/// Every field is checked: magic, header size, capacity (odd, at least
/// three), reserved words, checksum, node count (at least one, at most the
/// bytes after the header), counts, tags, UTF-8 strings, non-empty id lists
/// and the absence of trailing bytes. A file of another format version is
/// `Unsupported`; any other defect is `Corruption`, or `Storage` for a
/// stored position that does not fit a `usize`. On success the input is
/// exactly the encoding of the result (float keys keep the bits the file
/// gives them). Conversely, the file of any parts that satisfy
/// `tree_storable` decodes to those parts: the same capacity and root, and
/// nodes with the same views.
#[verifier::rlimit(100)]
#[verifier::spinoff_prover]
pub fn decode_tree(bytes: &[u8]) -> (r: Result<(usize, usize, Vec<Node>)>)
    ensures
        r matches Ok((m, root, nodes)) ==> {
            &&& bytes@ == tree_bytes_in(m, root, nodes@, bytes@)
            &&& m >= crate::index::MIN_MAX_KEYS
            &&& m % 2 == 1
            &&& m <= 0xFFFF_FFFF
            &&& nodes@.len() >= 1
        },
        (r matches Err(e) && e is Unsupported) <==> unsupported_version(bytes@),
        r matches Err(e) ==> e is Corruption || e is Unsupported || e is Storage,
        forall|m: usize, root: usize, ns: Seq<Node>|
            tree_storable(m, root, ns) && #[trigger] tree_bytes(m, root, ns) == bytes@ ==> (r matches Ok((m2, root2, ns2))
                && m2 == m && root2 == root && nodes_view(ns2@) == nodes_view(ns)),
{
    let total = bytes.len();
    proof {
        lemma_trees_at(bytes@);
    }
    if total < INDEX_HEADER_SIZE {
        return Err(corruption("index file is shorter than its header"));
    }
    if bytes[0] != INDEX_MAGIC[0] || bytes[1] != INDEX_MAGIC[1] || bytes[2] != INDEX_MAGIC[2] || bytes[3]
        != INDEX_MAGIC[3] {
        assert(bytes@.take(4) != INDEX_MAGIC@) by {
            if bytes@.take(4) == INDEX_MAGIC@ {
                assert(bytes@.take(4)[0] == bytes@[0]);
                assert(bytes@.take(4)[1] == bytes@[1]);
                assert(bytes@.take(4)[2] == bytes@[2]);
                assert(bytes@.take(4)[3] == bytes@[3]);
            }
        }
        return Err(corruption("invalid index magic"));
    }
    assert(bytes@.take(4) =~= INDEX_MAGIC@);
    let version = get_u16(bytes, 4);
    if version != INDEX_VERSION {
        return Err(NovaError::Unsupported("index format version".to_owned()));
    }
    if get_u16(bytes, 6) != 40u16 {
        return Err(corruption("invalid index header size"));
    }
    let raw_max = get_u32(bytes, 8);
    let max_keys = raw_max as usize;
    if crate::index::validate_max_keys(max_keys).is_err() {
        return Err(corruption("invalid index node capacity"));
    }
    if get_u32(bytes, 12) != 0 {
        return Err(corruption("index header reserved field is non-zero"));
    }
    let raw_root = get_u64(bytes, 16);
    if raw_root > usize::MAX as u64 {
        return Err(size_error());
    }
    let root = raw_root as usize;
    let raw_count = get_u64(bytes, 24);
    if raw_count > usize::MAX as u64 {
        return Err(size_error());
    }
    let node_count = raw_count as usize;
    let stored = get_u32(bytes, 32);
    if get_u32(bytes, 36) != 0 {
        return Err(corruption("index header reserved field is non-zero"));
    }
    if stored != crc32(bytes, INDEX_CHECKSUM_OFFSET, INDEX_CHECKSUM_OFFSET + 4) {
        return Err(corruption("index checksum mismatch"));
    }
    if node_count == 0 || node_count > total - INDEX_HEADER_SIZE {
        return Err(corruption("impossible index node count"));
    }
    let mut pos: usize = INDEX_HEADER_SIZE;
    let mut nodes: Vec<Node> = Vec::new();
    let mut i: usize = 0;
    proof {
        assert forall|m: usize, r0: usize, ns: Seq<Node>|
            tree_storable(m, r0, ns) && #[trigger] tree_bytes(m, r0, ns) == bytes@ implies (m == max_keys && r0 == root
                && ns.len() == node_count && tree_progress(bytes@, ns, max_keys, nodes@, 0, pos as int)) by {
            assert(ns.skip(0) =~= ns);
            assert(nodes_view(nodes@) =~= nodes_view(ns.take(0)));
        }
    }
    while i < node_count
        invariant
            i <= node_count,
            nodes@.len() == i,
            40 <= pos <= bytes@.len(),
            max_keys <= 0xFFFF_FFFF,
            !unsupported_version(bytes@),
            bytes@.subrange(40, pos as int) == nodes_bytes(nodes@, bytes@, 40),
            forall|m: usize, r0: usize, ns: Seq<Node>|
                tree_storable(m, r0, ns) && #[trigger] tree_bytes(m, r0, ns) == bytes@ ==> (m == max_keys && r0 == root
                    && ns.len() == node_count && tree_progress(bytes@, ns, max_keys, nodes@, i as int, pos as int)),
        decreases node_count - i,
    {
        let before = pos;
        proof {
            assert forall|m: usize, r0: usize, ns: Seq<Node>|
                tree_storable(m, r0, ns) && #[trigger] tree_bytes(m, r0, ns) == bytes@ implies ({
                    &&& node_storable(ns[i as int], max_keys, usize::MAX as int)
                    &&& bytes_at(bytes@, before as int, node_enc(ns[i as int]))
                    &&& bytes_at(bytes@, before + node_enc(ns[i as int]).len(), concat_map(ns.skip(i + 1), node_parts()))
                    &&& concat_map(ns.skip(i as int), node_parts()).len() == node_enc(ns[i as int]).len() + concat_map(
                        ns.skip(i + 1),
                        node_parts(),
                    ).len()
                }) by {
                lemma_concat_map_step(ns, i as int, node_parts());
                lemma_bytes_at_split(bytes@, before as int, node_enc(ns[i as int]), concat_map(ns.skip(i + 1), node_parts()));
            }
        }
        let n = match decode_node(bytes, &mut pos, max_keys) {
            Ok(v) => v,
            Err(e) => {
                return Err(e);
            },
        };
        let ghost prev = nodes@;
        nodes.push(n);
        proof {
            assert(nodes@.drop_last() =~= prev);
            assert(bytes@.subrange(40, pos as int) =~= bytes@.subrange(40, before as int) + bytes@.subrange(
                before as int,
                pos as int,
            ));
            assert forall|m: usize, r0: usize, ns: Seq<Node>|
                tree_storable(m, r0, ns) && #[trigger] tree_bytes(m, r0, ns) == bytes@ implies (m == max_keys && r0
                    == root && ns.len() == node_count && tree_progress(bytes@, ns, max_keys, nodes@, i + 1, pos as int)) by {
                lemma_nodes_view_push(prev, n, ns, i as int);
            }
        }
        i = i + 1;
    }
    proof {
        assert forall|m: usize, r0: usize, ns: Seq<Node>|
            tree_storable(m, r0, ns) && #[trigger] tree_bytes(m, r0, ns) == bytes@ implies (pos == total && nodes_view(
                nodes@,
            ) == nodes_view(ns)) by {
            assert(ns.take(node_count as int) =~= ns);
            assert(ns.skip(node_count as int) =~= Seq::<Node>::empty());
            assert(concat_map(ns.skip(node_count as int), node_parts()) =~= Seq::<u8>::empty());
        }
    }
    if pos != total {
        return Err(corruption("trailing bytes after index nodes"));
    }
    proof {
        let b = bytes@;
        let body = nodes_bytes(nodes@, b, 40);
        lemma_read_be16(b, 4);
        lemma_read_be16(b, 6);
        lemma_read_be32(b, 8);
        lemma_read_be32(b, 12);
        lemma_read_be64(b, 16);
        lemma_read_be64(b, 24);
        lemma_read_be32(b, 32);
        lemma_read_be32(b, 36);
        crate::bytes::lemma_be32_zero();
        let h = index_header(max_keys, root, nodes@.len() as usize, stored);
        let h0 = index_header(max_keys, root, nodes@.len() as usize, 0);
        assert(b.subrange(0, 4) == INDEX_MAGIC@);
        assert(h =~= b.subrange(0, 4) + b.subrange(4, 6) + b.subrange(6, 8) + b.subrange(8, 12) + b.subrange(12, 16)
            + b.subrange(16, 24) + b.subrange(24, 32) + b.subrange(32, 36) + b.subrange(36, 40));
        assert(b =~= h + body);
        assert(zeroed(h0 + body, 32, 36) =~= zeroed(b, 32, 36));
        assert(b == tree_bytes_in(max_keys, root, nodes@, b));
    }
    Ok((max_keys, root, nodes))
}

} // verus!
