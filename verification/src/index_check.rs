//! The structural check of a tree read back from its file: capacities, key
//! and id order, separator bounds, child references, uniform leaf depth,
//! reachability and the leaf chain. A tree that passes it satisfies the
//! full tree invariant, with the ghost shape the check builds.
use vstd::prelude::*;

use crate::error::{NovaError, Result};
use crate::index::{
    compare_keys, entries_increasing, ids_sorted, in_bounds, internal_ok, is_leaf, key_le, key_lt, keys_increasing,
    leaves_apart, lemma_key_compare, lemma_key_le_trans, lemma_key_lt_trans, node_ok, parts_wf, shape_sized,
    strictly_inside, validate_max_keys, IndexKey, KeyView, Node, Shape,
};
use crate::nova_id::NovaId;
use crate::text::{compare_bytes, lemma_seq_order_trans, seq_order};

verus! {

/// A `Corruption` error.
fn corruption(message: &str) -> (e: NovaError)
    ensures
        e is Corruption,
{
    NovaError::Corruption(message.to_owned())
}

/// The key a bound reference names: separator `j` of internal node `p`.
pub open spec fn bound_of(nodes: Seq<Node>, b: Option<(usize, usize)>) -> Option<KeyView> {
    match b {
        Some((p, j)) => Some(nodes[p as int]->Internal_keys@[j as int]@),
        None => None,
    }
}

/// A bound reference names an existing separator.
pub open spec fn bound_ref_ok(nodes: Seq<Node>, b: Option<(usize, usize)>) -> bool {
    b matches Some((p, j)) ==> 0 <= p < nodes.len() && nodes[p as int] is Internal && j
        < nodes[p as int]->Internal_keys@.len()
}

/// The separator a valid bound reference names.
fn bound_key(nodes: &Vec<Node>, p: usize, j: usize) -> (k: &IndexKey)
    requires
        bound_ref_ok(nodes@, Some((p, j))),
    ensures
        k@ == nodes@[p as int]->Internal_keys@[j as int]@,
{
    match &nodes[p] {
        Node::Internal { keys, .. } => &keys[j],
        Node::Leaf { .. } => vstd::pervasive::unreached(),
    }
}

/// Whether `k` lies in `[lo, hi)`, bounds given by reference.
fn within(nodes: &Vec<Node>, k: &IndexKey, lo: Option<(usize, usize)>, hi: Option<(usize, usize)>) -> (r: bool)
    requires
        bound_ref_ok(nodes@, lo),
        bound_ref_ok(nodes@, hi),
    ensures
        r == in_bounds(k@, bound_of(nodes@, lo), bound_of(nodes@, hi)),
{
    let above = match lo {
        Some((p, j)) => compare_keys(bound_key(nodes, p, j), k) <= 0,
        None => true,
    };
    let below = match hi {
        Some((p, j)) => compare_keys(k, bound_key(nodes, p, j)) < 0,
        None => true,
    };
    above && below
}

/// Whether `k` lies strictly inside `(lo, hi)`, bounds given by reference.
fn strictly_within(nodes: &Vec<Node>, k: &IndexKey, lo: Option<(usize, usize)>, hi: Option<(usize, usize)>) -> (r: bool)
    requires
        bound_ref_ok(nodes@, lo),
        bound_ref_ok(nodes@, hi),
    ensures
        r == strictly_inside(k@, bound_of(nodes@, lo), bound_of(nodes@, hi)),
{
    let above = match lo {
        Some((p, j)) => compare_keys(bound_key(nodes, p, j), k) < 0,
        None => true,
    };
    let below = match hi {
        Some((p, j)) => compare_keys(k, bound_key(nodes, p, j)) < 0,
        None => true,
    };
    above && below
}

/// Whether the keys are strictly increasing.
fn keys_ascending(keys: &Vec<IndexKey>) -> (r: bool)
    ensures
        r == keys_increasing(keys@),
{
    if keys.len() == 0 {
        return true;
    }
    let mut i: usize = 1;
    assert(keys@.take(1).len() == 1);
    while i < keys.len()
        invariant
            1 <= i <= keys@.len(),
            keys_increasing(keys@.take(i as int)),
        decreases keys@.len() - i,
    {
        let c = compare_keys(&keys[i - 1], &keys[i]);
        if c >= 0 {
            assert(!keys_increasing(keys@)) by {
                assert(!key_lt(keys@[i - 1]@, keys@[i as int]@));
            }
            return false;
        }
        proof {
            let t = keys@.take(i + 1);
            assert forall|a: int, b: int| 0 <= a < b < t.len() implies key_lt(#[trigger] t[a]@, #[trigger] t[b]@) by {
                assert(t[a] == keys@[a]);
                assert(t[b] == keys@[b]);
                if b < i {
                    assert(keys@.take(i as int)[a] == keys@[a]);
                    assert(keys@.take(i as int)[b] == keys@[b]);
                } else if a < i - 1 {
                    assert(keys@.take(i as int)[a] == keys@[a]);
                    assert(keys@.take(i as int)[i - 1] == keys@[i - 1]);
                    lemma_key_lt_trans(keys@[a]@, keys@[i - 1]@, keys@[b]@);
                }
            }
        }
        i = i + 1;
    }
    assert(keys@.take(i as int) =~= keys@);
    true
}

/// Whether the entries' keys are strictly increasing.
fn entries_ascending(entries: &Vec<(IndexKey, Vec<NovaId>)>) -> (r: bool)
    ensures
        r == entries_increasing(entries@),
{
    if entries.len() == 0 {
        return true;
    }
    let mut i: usize = 1;
    assert(entries@.take(1).len() == 1);
    while i < entries.len()
        invariant
            1 <= i <= entries@.len(),
            entries_increasing(entries@.take(i as int)),
        decreases entries@.len() - i,
    {
        let c = compare_keys(&entries[i - 1].0, &entries[i].0);
        if c >= 0 {
            assert(!entries_increasing(entries@)) by {
                assert(!key_lt(entries@[i - 1].0@, entries@[i as int].0@));
            }
            return false;
        }
        proof {
            let e = entries@;
            let t = e.take(i + 1);
            assert forall|a: int, b: int| 0 <= a < b < t.len() implies key_lt(#[trigger] t[a].0@, #[trigger] t[b].0@) by {
                assert(t[a] == e[a]);
                assert(t[b] == e[b]);
                if b < i {
                    assert(e.take(i as int)[a] == e[a]);
                    assert(e.take(i as int)[b] == e[b]);
                } else if a < i - 1 {
                    assert(e.take(i as int)[a] == e[a]);
                    assert(e.take(i as int)[i - 1] == e[i - 1]);
                    lemma_key_lt_trans(e[a].0@, e[i - 1].0@, e[b].0@);
                }
            }
        }
        i = i + 1;
    }
    assert(entries@.take(i as int) =~= entries@);
    true
}

/// Whether the ids are strictly increasing.
fn ids_ascending(ids: &Vec<NovaId>) -> (r: bool)
    ensures
        r == ids_sorted(ids@),
{
    if ids.len() == 0 {
        return true;
    }
    let mut i: usize = 1;
    assert(ids@.take(1).len() == 1);
    while i < ids.len()
        invariant
            1 <= i <= ids@.len(),
            ids_sorted(ids@.take(i as int)),
        decreases ids@.len() - i,
    {
        let c = compare_bytes(ids[i - 1].as_bytes().as_slice(), ids[i].as_bytes().as_slice());
        if c >= 0 {
            assert(!ids_sorted(ids@)) by {
                assert(seq_order(ids@[i - 1]@, ids@[i as int]@) >= 0);
            }
            return false;
        }
        proof {
            let e = ids@;
            let t = e.take(i + 1);
            assert forall|a: int, b: int| 0 <= a < b < t.len() implies seq_order(#[trigger] t[a]@, #[trigger] t[b]@) < 0 by {
                assert(t[a] == e[a]);
                assert(t[b] == e[b]);
                if b < i {
                    assert(e.take(i as int)[a] == e[a]);
                    assert(e.take(i as int)[b] == e[b]);
                } else if a < i - 1 {
                    assert(e.take(i as int)[a] == e[a]);
                    assert(e.take(i as int)[i - 1] == e[i - 1]);
                    lemma_seq_order_trans(e[a]@, e[i - 1]@, e[b]@);
                }
            }
        }
        i = i + 1;
    }
    assert(ids@.take(i as int) =~= ids@);
    true
}

/// What the survey establishes of node `n`: its local checks passed, and
/// each child was surveyed one level deeper (`s.height` holds depths during
/// the survey) with this node as parent and the interval its separators
/// give it. `ld` is the depth of the leaves.
pub open spec fn surveyed(nodes: Seq<Node>, s: Shape, max_keys: nat, ld: Option<usize>, visited: Seq<bool>, n: int) -> bool {
    match nodes[n] {
        Node::Leaf { entries, next } => {
            &&& ld matches Some(d) && s.height[n] == d
            &&& entries@.len() <= max_keys
            &&& entries_increasing(entries@)
            &&& forall|i: int|
                0 <= i < entries@.len() ==> in_bounds(#[trigger] entries@[i].0@, s.lo[n], s.hi[n])
                    && entries@[i].1@.len() > 0 && ids_sorted(entries@[i].1@)
            &&& (next matches Some(x) ==> x < nodes.len())
            &&& (s.lo[n] is Some && s.hi[n] is Some ==> key_lt(s.lo[n]->0, s.hi[n]->0))
        },
        Node::Internal { keys, children } => {
            &&& keys@.len() <= max_keys
            &&& 1 <= keys@.len()
            &&& children@.len() == keys@.len() + 1
            &&& keys_increasing(keys@)
            &&& forall|i: int| 0 <= i < keys@.len() ==> strictly_inside(#[trigger] keys@[i]@, s.lo[n], s.hi[n])
            &&& ld matches Some(d) && s.height[n] < d
            &&& forall|i: int| 0 <= i < children@.len() ==> child_surveyed(nodes, s, visited, n, i)
        },
    }
}

/// Child `i` of internal node `n` was surveyed under `n`.
pub open spec fn child_surveyed(nodes: Seq<Node>, s: Shape, visited: Seq<bool>, n: int, i: int) -> bool {
    let keys = nodes[n]->Internal_keys@;
    let c = nodes[n]->Internal_children@[i] as int;
    &&& 0 <= c < nodes.len()
    &&& visited[c]
    &&& s.height[c] == s.height[n] + 1
    &&& s.parent[c] == n
    &&& s.lo[c] == if i == 0 { s.lo[n] } else { Some(keys[i - 1]@) }
    &&& s.hi[c] == if i == keys.len() { s.hi[n] } else { Some(keys[i]@) }
}

/// The survey's state: sizes agree, visited nodes have their bounds
/// recorded by reference, and every visited node not on the stack has
/// been surveyed.
pub open spec fn survey_inv(
    nodes: Seq<Node>,
    s: Shape,
    max_keys: nat,
    ld: Option<usize>,
    visited: Seq<bool>,
    lo_refs: Seq<Option<(usize, usize)>>,
    hi_refs: Seq<Option<(usize, usize)>>,
    stack: Set<int>,
) -> bool {
    &&& visited.len() == nodes.len()
    &&& lo_refs.len() == nodes.len()
    &&& hi_refs.len() == nodes.len()
    &&& s.height.len() == nodes.len()
    &&& s.lo.len() == nodes.len()
    &&& s.hi.len() == nodes.len()
    &&& s.parent.len() == nodes.len()
    &&& s.rank.len() == nodes.len()
    &&& forall|v: int|
        0 <= v < nodes.len() && #[trigger] visited[v] ==> bound_ref_ok(nodes, lo_refs[v]) && bound_ref_ok(nodes, hi_refs[v])
            && s.lo[v] == bound_of(nodes, lo_refs[v]) && s.hi[v] == bound_of(nodes, hi_refs[v])
    &&& forall|v: int| #[trigger] stack.contains(v) ==> 0 <= v < nodes.len() && visited[v]
    &&& forall|v: int| 0 <= v < nodes.len() && #[trigger] visited[v] && !stack.contains(v) ==> surveyed(nodes, s, max_keys, ld, visited, v)
}

/// The survey only adds to what it has recorded.
pub open spec fn survey_grows(
    s0: Shape,
    s1: Shape,
    ld0: Option<usize>,
    ld1: Option<usize>,
    v0: Seq<bool>,
    v1: Seq<bool>,
    lo0: Seq<Option<(usize, usize)>>,
    lo1: Seq<Option<(usize, usize)>>,
    hi0: Seq<Option<(usize, usize)>>,
    hi1: Seq<Option<(usize, usize)>>,
) -> bool {
    &&& (ld0 is Some ==> ld1 == ld0)
    &&& forall|v: int|
        0 <= v < v0.len() && #[trigger] v0[v] ==> {
            &&& v1[v]
            &&& s1.height[v] == s0.height[v]
            &&& s1.parent[v] == s0.parent[v]
            &&& s1.lo[v] == s0.lo[v]
            &&& s1.hi[v] == s0.hi[v]
            &&& lo1[v] == lo0[v]
            &&& hi1[v] == hi0[v]
        }
}

/// What was surveyed stays surveyed as the survey grows.
proof fn lemma_surveyed_grows(
    nodes: Seq<Node>,
    s0: Shape,
    s1: Shape,
    max_keys: nat,
    ld0: Option<usize>,
    ld1: Option<usize>,
    v0: Seq<bool>,
    v1: Seq<bool>,
    lo0: Seq<Option<(usize, usize)>>,
    lo1: Seq<Option<(usize, usize)>>,
    hi0: Seq<Option<(usize, usize)>>,
    hi1: Seq<Option<(usize, usize)>>,
    n: int,
)
    requires
        v0.len() == nodes.len(),
        0 <= n < nodes.len(),
        v0[n],
        surveyed(nodes, s0, max_keys, ld0, v0, n),
        survey_grows(s0, s1, ld0, ld1, v0, v1, lo0, lo1, hi0, hi1),
    ensures
        surveyed(nodes, s1, max_keys, ld1, v1, n),
{
    match nodes[n] {
        Node::Leaf { .. } => {},
        Node::Internal { keys, children } => {
            assert forall|i: int| 0 <= i < children@.len() implies child_surveyed(nodes, s1, v1, n, i) by {
                assert(child_surveyed(nodes, s0, v0, n, i));
                let c = children@[i] as int;
                assert(v0[c]);
            }
        },
    }
}

/// Surveys the subtree at `n`, whose interval is `[lo, hi)`, at `depth`
/// below the root.
#[verifier::rlimit(30)]
fn survey(
    nodes: &Vec<Node>,
    max_keys: usize,
    n: usize,
    lo: Option<(usize, usize)>,
    hi: Option<(usize, usize)>,
    parent: Ghost<int>,
    depth: usize,
    ld: &mut Option<usize>,
    visited: &mut Vec<bool>,
    lo_refs: &mut Vec<Option<(usize, usize)>>,
    hi_refs: &mut Vec<Option<(usize, usize)>>,
    s: &mut Ghost<Shape>,
    stack: Ghost<Set<int>>,
) -> (r: Result<()>)
    requires
        survey_inv(nodes@, old(s)@, max_keys as nat, *old(ld), old(visited)@, old(lo_refs)@, old(hi_refs)@, stack@),
        bound_ref_ok(nodes@, lo),
        bound_ref_ok(nodes@, hi),
        depth <= nodes@.len(),
    ensures
        r matches Err(e) ==> e is Corruption,
        r is Ok ==> {
            &&& survey_inv(nodes@, final(s)@, max_keys as nat, *final(ld), final(visited)@, final(lo_refs)@, final(hi_refs)@, stack@)
            &&& survey_grows(old(s)@, final(s)@, *old(ld), *final(ld), old(visited)@, final(visited)@, old(lo_refs)@, final(lo_refs)@, old(hi_refs)@, final(hi_refs)@)
            &&& n < nodes@.len()
            &&& !old(visited)@[n as int]
            &&& final(visited)@[n as int]
            &&& final(s)@.height[n as int] == depth
            &&& final(s)@.parent[n as int] == parent@
            &&& final(s)@.lo[n as int] == bound_of(nodes@, lo)
            &&& final(s)@.hi[n as int] == bound_of(nodes@, hi)
            &&& *final(ld) matches Some(d) && depth <= d
        },
    decreases nodes@.len() - depth,
{
    let total = nodes.len();
    if n >= total || visited[n] {
        return Err(corruption("node reference is invalid or cyclic"));
    }
    if depth >= total {
        return Err(corruption("tree is deeper than its node count"));
    }
    let ghost s0 = s@;
    let ghost ld0 = *ld;
    let ghost v0 = visited@;
    let ghost lo0 = lo_refs@;
    let ghost hi0 = hi_refs@;
    visited.set(n, true);
    lo_refs.set(n, lo);
    hi_refs.set(n, hi);
    *s = Ghost(
        Shape {
            height: s@.height.update(n as int, depth as nat),
            lo: s@.lo.update(n as int, bound_of(nodes@, lo)),
            hi: s@.hi.update(n as int, bound_of(nodes@, hi)),
            parent: s@.parent.update(n as int, parent@),
            rank: s@.rank,
        },
    );
    let ghost inner = stack@.insert(n as int);
    proof {
        assert(survey_grows(s0, s@, ld0, *ld, v0, visited@, lo0, lo_refs@, hi0, hi_refs@));
        assert forall|v: int| 0 <= v < nodes@.len() && #[trigger] visited@[v] && !inner.contains(v) implies surveyed(
            nodes@,
            s@,
            max_keys as nat,
            *ld,
            visited@,
            v,
        ) by {
            assert(v0[v]);
            lemma_surveyed_grows(nodes@, s0, s@, max_keys as nat, ld0, *ld, v0, visited@, lo0, lo_refs@, hi0, hi_refs@, v);
        }
        assert(survey_inv(nodes@, s@, max_keys as nat, *ld, visited@, lo_refs@, hi_refs@, inner));
    }
    match &nodes[n] {
        Node::Leaf { entries, next } => {
            if entries.len() > max_keys {
                return Err(corruption("leaf exceeds its key capacity"));
            }
            match next {
                Some(x) => {
                    if *x >= total {
                        return Err(corruption("leaf next pointer is invalid"));
                    }
                },
                None => {},
            }
            if !entries_ascending(entries) {
                return Err(corruption("leaf keys are not strictly increasing"));
            }
            let mut i: usize = 0;
            while i < entries.len()
                invariant
                    i <= entries@.len(),
                    bound_ref_ok(nodes@, lo),
                    bound_ref_ok(nodes@, hi),
                    forall|j: int|
                        0 <= j < i ==> in_bounds(#[trigger] entries@[j].0@, bound_of(nodes@, lo), bound_of(nodes@, hi))
                            && entries@[j].1@.len() > 0 && ids_sorted(entries@[j].1@),
                decreases entries@.len() - i,
            {
                if !within(nodes, &entries[i].0, lo, hi) {
                    return Err(corruption("leaf key violates parent separator bounds"));
                }
                if entries[i].1.len() == 0 || !ids_ascending(&entries[i].1) {
                    return Err(corruption("leaf document ids are empty, duplicated, or unsorted"));
                }
                assert(in_bounds(entries@[i as int].0@, bound_of(nodes@, lo), bound_of(nodes@, hi)));
                assert(entries@[i as int].1@.len() > 0 && ids_sorted(entries@[i as int].1@));
                assert forall|j: int| 0 <= j < i + 1 implies in_bounds(#[trigger] entries@[j].0@, bound_of(nodes@, lo), bound_of(nodes@, hi))
                    && entries@[j].1@.len() > 0 && ids_sorted(entries@[j].1@) by {}
                i = i + 1;
            }
            match (lo, hi) {
                (Some((p, j)), Some((q, k))) => {
                    if compare_keys(bound_key(nodes, p, j), bound_key(nodes, q, k)) >= 0 {
                        return Err(corruption("leaf interval is empty"));
                    }
                },
                _ => {},
            }
            match *ld {
                Some(expected) => {
                    if expected != depth {
                        return Err(corruption("leaves occur at different depths"));
                    }
                },
                None => {
                    *ld = Some(depth);
                },
            }
            proof {
                assert(surveyed(nodes@, s@, max_keys as nat, *ld, visited@, n as int));
                assert(survey_grows(s0, s@, ld0, *ld, v0, visited@, lo0, lo_refs@, hi0, hi_refs@));
                assert forall|v: int| 0 <= v < nodes@.len() && #[trigger] visited@[v] && !stack@.contains(v) implies surveyed(
                    nodes@,
                    s@,
                    max_keys as nat,
                    *ld,
                    visited@,
                    v,
                ) by {
                    if v != n {
                        assert(surveyed(nodes@, s@, max_keys as nat, ld0, visited@, v));
                        if ld0 is None {
                            assert(nodes@[v] is Internal);
                        }
                    }
                }
            }
            Ok(())
        },
        Node::Internal { keys, children } => {
            if keys.len() == 0 || keys.len() > max_keys || children.len() == 0 || children.len() - 1 != keys.len() {
                return Err(corruption("internal node has invalid key/child counts"));
            }
            if !keys_ascending(keys) {
                return Err(corruption("internal keys are not strictly increasing"));
            }
            let last = keys.len() - 1;
            if !strictly_within(nodes, &keys[0], lo, hi) || !strictly_within(nodes, &keys[last], lo, hi) {
                return Err(corruption("internal key violates parent separator bounds"));
            }
            proof {
                let lb = bound_of(nodes@, lo);
                let hb = bound_of(nodes@, hi);
                assert forall|i: int| 0 <= i < keys@.len() implies strictly_inside(#[trigger] keys@[i]@, lb, hb) by {
                    if i > 0 {
                        if lb is Some {
                            lemma_key_lt_trans(lb->0, keys@[0]@, keys@[i]@);
                        }
                    }
                    if i < last {
                        if hb is Some {
                            lemma_key_lt_trans(keys@[i]@, keys@[last as int]@, hb->0);
                        }
                    }
                }
            }
            let ghost s1 = s@;
            let ghost v1 = visited@;
            let ghost lo1 = lo_refs@;
            let ghost hi1 = hi_refs@;
            let ghost ld1 = *ld;
            let mut i: usize = 0;
            while i < children.len()
                invariant
                    i <= children@.len(),
                    children@.len() == keys@.len() + 1,
                    nodes@[n as int] == (Node::Internal { keys: *keys, children: *children }),
                    n < nodes@.len(),
                    depth < nodes@.len(),
                    total == nodes@.len(),
                    visited@[n as int],
                    inner == stack@.insert(n as int),
                    survey_inv(nodes@, s@, max_keys as nat, *ld, visited@, lo_refs@, hi_refs@, inner),
                    survey_grows(s1, s@, ld1, *ld, v1, visited@, lo1, lo_refs@, hi1, hi_refs@),
                    survey_inv(nodes@, s1, max_keys as nat, ld1, v1, lo1, hi1, inner),
                    v0.len() == nodes@.len(),
                    s@.height[n as int] == depth,
                    s@.lo[n as int] == bound_of(nodes@, lo),
                    s@.hi[n as int] == bound_of(nodes@, hi),
                    s@.parent[n as int] == parent@,
                    bound_ref_ok(nodes@, lo),
                    bound_ref_ok(nodes@, hi),
                    i > 0 ==> (*ld matches Some(d) && depth < d),
                    forall|j: int| 0 <= j < i ==> child_surveyed(nodes@, s@, visited@, n as int, j),
                    survey_grows(s0, s1, ld0, ld1, v0, v1, lo0, lo1, hi0, hi1),
                    s1.height[n as int] == depth,
                    s1.parent[n as int] == parent@,
                    s1.lo[n as int] == bound_of(nodes@, lo),
                    s1.hi[n as int] == bound_of(nodes@, hi),
                    v1[n as int],
                    !v0[n as int],
                decreases children@.len() - i,
            {
                let child_lo = if i == 0 {
                    lo
                } else {
                    Some((n, i - 1))
                };
                let child_hi = if i == keys.len() {
                    hi
                } else {
                    Some((n, i))
                };
                let ghost s2 = s@;
                let ghost v2 = visited@;
                let ghost lo2 = lo_refs@;
                let ghost hi2 = hi_refs@;
                let ghost ld2 = *ld;
                let c = children[i];
                match survey(
                    nodes,
                    max_keys,
                    c,
                    child_lo,
                    child_hi,
                    Ghost(n as int),
                    depth + 1,
                    ld,
                    visited,
                    lo_refs,
                    hi_refs,
                    s,
                    Ghost(inner),
                ) {
                    Ok(()) => {},
                    Err(e) => {
                        return Err(e);
                    },
                }
                proof {
                    assert forall|j: int| 0 <= j < i + 1 implies child_surveyed(nodes@, s@, visited@, n as int, j) by {
                        if j < i {
                            assert(child_surveyed(nodes@, s2, v2, n as int, j));
                            let cj = children@[j] as int;
                            assert(v2[cj]);
                        }
                    }
                    assert forall|v: int| 0 <= v < v1.len() && #[trigger] v1[v] implies {
                        &&& visited@[v]
                        &&& s@.height[v] == s1.height[v]
                        &&& s@.parent[v] == s1.parent[v]
                        &&& s@.lo[v] == s1.lo[v]
                        &&& s@.hi[v] == s1.hi[v]
                        &&& lo_refs@[v] == lo1[v]
                        &&& hi_refs@[v] == hi1[v]
                    } by {
                        assert(v2[v]);
                    }
                }
                i = i + 1;
            }
            proof {
                assert(surveyed(nodes@, s@, max_keys as nat, *ld, visited@, n as int));
                assert forall|v: int| 0 <= v < v0.len() && #[trigger] v0[v] implies {
                    &&& visited@[v]
                    &&& s@.height[v] == s0.height[v]
                    &&& s@.parent[v] == s0.parent[v]
                    &&& s@.lo[v] == s0.lo[v]
                    &&& s@.hi[v] == s0.hi[v]
                    &&& lo_refs@[v] == lo0[v]
                    &&& hi_refs@[v] == hi0[v]
                } by {
                    assert(v1[v]);
                }
                assert(survey_grows(s0, s@, ld0, *ld, v0, visited@, lo0, lo_refs@, hi0, hi_refs@));
                assert forall|v: int| 0 <= v < nodes@.len() && #[trigger] visited@[v] && !stack@.contains(v) implies surveyed(
                    nodes@,
                    s@,
                    max_keys as nat,
                    *ld,
                    visited@,
                    v,
                ) by {
                    if v != n {
                        assert(!inner.contains(v));
                    }
                }
            }
            Ok(())
        },
    }
}

/// Leaf `u`'s successor link is consistent with the ranks and intervals
/// the chain walk assigned.
pub open spec fn link_ok(nodes: Seq<Node>, s: Shape, rank: Seq<nat>, seen: Seq<bool>, u: int) -> bool {
    match nodes[u]->Leaf_next {
        Some(x) => {
            &&& 0 <= x < nodes.len()
            &&& seen[x as int]
            &&& rank[x as int] == rank[u] + 1
            &&& s.hi[u] is Some
            &&& s.lo[x as int] == s.hi[u]
        },
        None => s.hi[u] is None,
    }
}

/// The survey finished: every node was reached and surveyed.
pub open spec fn survey_done(nodes: Seq<Node>, s: Shape, max_keys: nat, ld: Option<usize>, visited: Seq<bool>, lo_refs: Seq<Option<(usize, usize)>>, hi_refs: Seq<Option<(usize, usize)>>) -> bool {
    &&& survey_inv(nodes, s, max_keys, ld, visited, lo_refs, hi_refs, Set::empty())
    &&& forall|v: int| 0 <= v < nodes.len() ==> #[trigger] visited[v]
}

/// Walks the leaf chain from the leftmost leaf, checking that it visits
/// leaves only, each once, each next to the leaf whose interval follows
/// its own, until a leaf whose interval is unbounded above. Returns the
/// ranks it assigned and which nodes it saw.
#[verifier::rlimit(40)]
fn walk_chain(
    nodes: &Vec<Node>,
    root: usize,
    lo_refs: &Vec<Option<(usize, usize)>>,
    hi_refs: &Vec<Option<(usize, usize)>>,
    s: Ghost<Shape>,
    max_keys: Ghost<nat>,
    ld: Ghost<Option<usize>>,
    visited: Ghost<Seq<bool>>,
) -> (r: Result<(Vec<bool>, Ghost<Seq<nat>>)>)
    requires
        survey_done(nodes@, s@, max_keys@, ld@, visited@, lo_refs@, hi_refs@),
        root < nodes@.len(),
        s@.lo[root as int] is None,
    ensures
        r matches Err(e) ==> e is Corruption,
        r matches Ok((seen, rank)) ==> {
            &&& seen@.len() == nodes@.len()
            &&& rank@.len() == nodes@.len()
            &&& forall|u: int| 0 <= u < nodes@.len() && #[trigger] seen@[u] ==> is_leaf(nodes@, u) && rank@[u] < nodes@.len()
                && link_ok(nodes@, s@, rank@, seen@, u)
            &&& forall|u: int, v: int|
                0 <= u < nodes@.len() && 0 <= v < nodes@.len() && #[trigger] seen@[u] && #[trigger] seen@[v] && u != v
                    ==> rank@[u] != rank@[v]
            &&& forall|u: int, v: int|
                0 <= u < nodes@.len() && 0 <= v < nodes@.len() && #[trigger] seen@[u] && #[trigger] seen@[v] && rank@[u]
                    < rank@[v] ==> s@.hi[u] is Some && s@.lo[v] is Some && key_le(s@.hi[u]->0, s@.lo[v]->0)
        },
{
    let total = nodes.len();
    let ghost sh = s@;
    let mut node_id: usize = root;
    loop
        invariant
            total == nodes@.len(),
            survey_done(nodes@, sh, max_keys@, ld@, visited@, lo_refs@, hi_refs@),
            sh == s@,
            node_id < nodes@.len(),
            sh.lo[node_id as int] is None,
        decreases (ld@->0 as int) - sh.height[node_id as int],
    {
        proof {
            assert(visited@[node_id as int]);
            assert(surveyed(nodes@, sh, max_keys@, ld@, visited@, node_id as int));
        }
        match &nodes[node_id] {
            Node::Internal { children, .. } => {
                proof {
                    assert(child_surveyed(nodes@, sh, visited@, node_id as int, 0));
                    let c = children@[0] as int;
                    assert(visited@[c]);
                    assert(surveyed(nodes@, sh, max_keys@, ld@, visited@, c));
                }
                node_id = children[0];
            },
            Node::Leaf { .. } => {
                break;
            },
        }
    }
    let mut seen: Vec<bool> = Vec::new();
    let mut k: usize = 0;
    while k < total
        invariant
            k <= total,
            seen@.len() == k,
            forall|u: int| 0 <= u < k ==> !#[trigger] seen@[u],
        decreases total - k,
    {
        seen.push(false);
        k = k + 1;
    }
    let ghost mut rank: Seq<nat> = Seq::new(total as nat, |i: int| 0nat);
    let ghost mut seen_set: Set<int> = Set::empty();
    let ghost mut prev: Option<int> = None;
    let mut count: usize = 0;
    proof {
        vstd::set_lib::lemma_int_range(0, total as int);
    }
    loop
        invariant_except_break
            forall|u: int|
                0 <= u < total && #[trigger] seen@[u] ==> sh.hi[u] is Some && sh.lo[node_id as int] is Some && key_le(
                    sh.hi[u]->0,
                    sh.lo[node_id as int]->0,
                ),
            match prev {
                Some(p) => {
                    &&& 0 <= p < total
                    &&& seen@[p]
                    &&& nodes@[p]->Leaf_next == Some(node_id)
                    &&& sh.hi[p] is Some
                    &&& sh.lo[node_id as int] == sh.hi[p]
                    &&& rank[p] + 1 == count
                },
                None => count == 0 && sh.lo[node_id as int] is None,
            },
        invariant
            total == nodes@.len(),
            survey_done(nodes@, sh, max_keys@, ld@, visited@, lo_refs@, hi_refs@),
            sh == s@,
            node_id < total,
            seen@.len() == total,
            rank.len() == total,
            forall|u: int| 0 <= u < total ==> (#[trigger] seen@[u] <==> seen_set.contains(u)),
            seen_set.subset_of(vstd::set_lib::set_int_range(0, total as int)),
            vstd::set_lib::set_int_range(0, total as int).finite(),
            vstd::set_lib::set_int_range(0, total as int).len() == total,
            seen_set.finite(),
            count == seen_set.len(),
            forall|u: int| 0 <= u < total && #[trigger] seen@[u] ==> is_leaf(nodes@, u) && rank[u] < count,
            forall|u: int, v: int|
                0 <= u < total && 0 <= v < total && #[trigger] seen@[u] && #[trigger] seen@[v] && u != v ==> rank[u] != rank[v],
            forall|u: int, v: int|
                0 <= u < total && 0 <= v < total && #[trigger] seen@[u] && #[trigger] seen@[v] && rank[u] < rank[v]
                    ==> sh.hi[u] is Some && sh.lo[v] is Some && key_le(sh.hi[u]->0, sh.lo[v]->0),
            forall|u: int| 0 <= u < total && #[trigger] seen@[u] && prev != Some(u) ==> link_ok(nodes@, sh, rank, seen@, u),
        ensures
            seen@.len() == total,
            rank.len() == total,
            forall|u: int| 0 <= u < total && #[trigger] seen@[u] ==> is_leaf(nodes@, u) && rank[u] < total,
            forall|u: int, v: int|
                0 <= u < total && 0 <= v < total && #[trigger] seen@[u] && #[trigger] seen@[v] && u != v ==> rank[u] != rank[v],
            forall|u: int, v: int|
                0 <= u < total && 0 <= v < total && #[trigger] seen@[u] && #[trigger] seen@[v] && rank[u] < rank[v]
                    ==> sh.hi[u] is Some && sh.lo[v] is Some && key_le(sh.hi[u]->0, sh.lo[v]->0),
            forall|u: int| 0 <= u < total && #[trigger] seen@[u] ==> link_ok(nodes@, sh, rank, seen@, u),
        decreases total - count,
    {
        if seen[node_id] {
            return Err(corruption("leaf chain contains a cycle"));
        }
        let next = match &nodes[node_id] {
            Node::Leaf { next, .. } => *next,
            Node::Internal { .. } => {
                return Err(corruption("leaf chain points to an internal node"));
            },
        };
        proof {
            assert(visited@[node_id as int]);
            assert(surveyed(nodes@, sh, max_keys@, ld@, visited@, node_id as int));
            assert(!seen_set.contains(node_id as int));
            let bigger = seen_set.insert(node_id as int);
            assert(bigger.subset_of(vstd::set_lib::set_int_range(0, total as int)));
            vstd::set_lib::lemma_len_subset(bigger, vstd::set_lib::set_int_range(0, total as int));
        }
        let ghost old_seen = seen@;
        let ghost old_rank = rank;
        let ghost old_prev = prev;
        seen.set(node_id, true);
        proof {
            rank = rank.update(node_id as int, count as nat);
            seen_set = seen_set.insert(node_id as int);
            prev = Some(node_id as int);
        }
        count = count + 1;
        let ghost cur = node_id as int;
        match next {
            Some(x) => {
                proof {
                    assert(x < total);
                    assert(visited@[x as int]);
                    assert(visited@[node_id as int]);
                }
                let linked = match (hi_refs[node_id], lo_refs[x]) {
                    (Some((p, j)), Some((q, m))) => compare_keys(bound_key(nodes, p, j), bound_key(nodes, q, m)) == 0,
                    _ => false,
                };
                if !linked {
                    return Err(corruption("leaf chain does not follow the separators"));
                }
                proof {
                    assert(visited@[x as int]);
                    let hp = sh.hi[cur];
                    let lx = sh.lo[x as int];
                    assert(hp is Some && lx is Some);
                    lemma_key_compare(hp->0, lx->0);
                    assert(hp == lx);
                    if sh.lo[cur] is Some {
                        assert(key_lt(sh.lo[cur]->0, hp->0));
                    }
                    assert forall|u: int| 0 <= u < total && #[trigger] seen@[u] implies sh.hi[u] is Some && sh.lo[x as int] is Some
                        && key_le(sh.hi[u]->0, sh.lo[x as int]->0) by {
                        if u != cur {
                            assert(old_seen[u]);
                            lemma_key_le_trans(sh.hi[u]->0, sh.lo[cur]->0, hp->0);
                        } else {
                            lemma_key_compare(hp->0, hp->0);
                        }
                    }
                    assert forall|u: int, v: int|
                        0 <= u < total && 0 <= v < total && #[trigger] seen@[u] && #[trigger] seen@[v] && rank[u] < rank[v]
                        implies sh.hi[u] is Some && sh.lo[v] is Some && key_le(sh.hi[u]->0, sh.lo[v]->0) by {
                        if u != cur && v != cur {
                            assert(old_seen[u] && old_seen[v]);
                        } else if v == cur {
                            assert(old_seen[u]);
                        } else {
                            assert(old_seen[v]);
                            assert(old_rank[v] < count - 1);
                        }
                    }
                    assert forall|u: int| 0 <= u < total && #[trigger] seen@[u] && prev != Some(u) implies link_ok(
                        nodes@,
                        sh,
                        rank,
                        seen@,
                        u,
                    ) by {
                        assert(old_seen[u]);
                        if old_prev == Some(u) {
                            assert(nodes@[u]->Leaf_next == Some(node_id));
                        } else {
                            assert(link_ok(nodes@, sh, old_rank, old_seen, u));
                            match nodes@[u]->Leaf_next {
                                Some(y) => {
                                    assert(old_seen[y as int]);
                                },
                                None => {},
                            }
                        }
                    }
                    assert forall|u: int, v: int|
                        0 <= u < total && 0 <= v < total && #[trigger] seen@[u] && #[trigger] seen@[v] && u != v implies rank[u]
                        != rank[v] by {
                        if u != cur && v != cur {
                            assert(old_seen[u] && old_seen[v]);
                        } else if u == cur {
                            assert(old_seen[v]);
                        } else {
                            assert(old_seen[u]);
                        }
                    }
                }
                node_id = x;
            },
            None => {
                if hi_refs[node_id].is_some() {
                    return Err(corruption("last leaf of the chain is bounded above"));
                }
                proof {
                    assert(sh.hi[cur] is None);
                    assert forall|u: int| 0 <= u < total && #[trigger] seen@[u] implies link_ok(nodes@, sh, rank, seen@, u) by {
                        if u != cur {
                            assert(old_seen[u]);
                            if old_prev == Some(u) {
                                assert(nodes@[u]->Leaf_next == Some(node_id));
                            } else {
                                assert(link_ok(nodes@, sh, old_rank, old_seen, u));
                                match nodes@[u]->Leaf_next {
                                    Some(y) => {
                                        assert(old_seen[y as int]);
                                    },
                                    None => {},
                                }
                            }
                        }
                    }
                    assert forall|u: int, v: int|
                        0 <= u < total && 0 <= v < total && #[trigger] seen@[u] && #[trigger] seen@[v] && rank[u] < rank[v]
                        implies sh.hi[u] is Some && sh.lo[v] is Some && key_le(sh.hi[u]->0, sh.lo[v]->0) by {
                        if u != cur && v != cur {
                            assert(old_seen[u] && old_seen[v]);
                        } else if v == cur {
                            assert(old_seen[u]);
                        } else {
                            assert(old_seen[v]);
                        }
                    }
                    assert forall|u: int, v: int|
                        0 <= u < total && 0 <= v < total && #[trigger] seen@[u] && #[trigger] seen@[v] && u != v implies rank[u]
                        != rank[v] by {
                        if u != cur && v != cur {
                            assert(old_seen[u] && old_seen[v]);
                        } else if u == cur {
                            assert(old_seen[v]);
                        } else {
                            assert(old_seen[u]);
                        }
                    }
                }
                break;
            },
        }
    }
    Ok((seen, Ghost(rank)))
}

/// The shape the check hands out: heights counted up from the leaves.
pub open spec fn final_shape(s: Shape, d: nat, rank: Seq<nat>) -> Shape {
    Shape {
        height: Seq::new(s.height.len(), |i: int| (d - s.height[i]) as nat),
        lo: s.lo,
        hi: s.hi,
        parent: s.parent,
        rank,
    }
}

/// A surveyed node whose leaf links the walk confirmed is well formed in
/// the final shape.
proof fn lemma_checked_node(
    nodes: Seq<Node>,
    s: Shape,
    max_keys: nat,
    d: usize,
    visited: Seq<bool>,
    lo_refs: Seq<Option<(usize, usize)>>,
    hi_refs: Seq<Option<(usize, usize)>>,
    seen: Seq<bool>,
    rank: Seq<nat>,
    n: int,
)
    requires
        survey_done(nodes, s, max_keys, Some(d), visited, lo_refs, hi_refs),
        0 <= n < nodes.len(),
        seen.len() == nodes.len(),
        rank.len() == nodes.len(),
        forall|u: int| 0 <= u < nodes.len() && #[trigger] seen[u] ==> is_leaf(nodes, u) && rank[u] < nodes.len()
            && link_ok(nodes, s, rank, seen, u),
        forall|u: int| #[trigger] is_leaf(nodes, u) ==> seen[u],
        forall|u: int| 0 <= u < nodes.len() ==> #[trigger] s.height[u] <= d,
    ensures
        node_ok(nodes, final_shape(s, d as nat, rank), max_keys, n),
{
    let f = final_shape(s, d as nat, rank);
    assert(visited[n]);
    assert(surveyed(nodes, s, max_keys, Some(d), visited, n));
    match nodes[n] {
        Node::Leaf { entries, next } => {
            assert(is_leaf(nodes, n));
            assert(seen[n]);
            assert(link_ok(nodes, s, rank, seen, n));
            match next {
                Some(x) => {
                    assert(seen[x as int]);
                    assert(is_leaf(nodes, x as int));
                },
                None => {},
            }
        },
        Node::Internal { keys, children } => {
            assert forall|i: int| 0 <= i < children@.len() implies {
                let c = #[trigger] children@[i] as int;
                &&& 0 <= c < nodes.len()
                &&& f.height[c] + 1 == f.height[n]
                &&& f.parent[c] == n
                &&& f.lo[c] == if i == 0 { f.lo[n] } else { Some(keys@[i - 1]@) }
                &&& f.hi[c] == if i == keys@.len() { f.hi[n] } else { Some(keys@[i]@) }
            } by {
                assert(child_surveyed(nodes, s, visited, n, i));
                let c = children@[i] as int;
                assert(s.height[c] <= d);
            }
            assert(internal_ok(keys@, children@, nodes.len() as int, f, n));
        },
    }
}

/// Checks a tree read back from its file: root and capacity, then a survey
/// from the root of every node's local invariant, separator bounds,
/// children and leaf depth, that every node was reached, and the leaf
/// chain. On success returns the ghost shape under which the parts form a
/// well-formed tree.
pub(crate) fn check_tree(max_keys: usize, root: usize, nodes: &Vec<Node>) -> (r: Result<Ghost<Shape>>)
    ensures
        r matches Ok(s) ==> parts_wf(nodes@, s@, max_keys, root),
        r matches Err(e) ==> e is Corruption,
{
    let total = nodes.len();
    if total == 0 || root >= total {
        return Err(corruption("invalid root node"));
    }
    if validate_max_keys(max_keys).is_err() {
        return Err(corruption("invalid node capacity"));
    }
    let mut visited: Vec<bool> = Vec::new();
    let mut lo_refs: Vec<Option<(usize, usize)>> = Vec::new();
    let mut hi_refs: Vec<Option<(usize, usize)>> = Vec::new();
    let mut k: usize = 0;
    while k < total
        invariant
            k <= total,
            visited@.len() == k,
            lo_refs@.len() == k,
            hi_refs@.len() == k,
            forall|u: int| 0 <= u < k ==> !#[trigger] visited@[u],
        decreases total - k,
    {
        visited.push(false);
        lo_refs.push(None);
        hi_refs.push(None);
        k = k + 1;
    }
    let mut s: Ghost<Shape> = Ghost(
        Shape {
            height: Seq::new(total as nat, |i: int| 0nat),
            lo: Seq::new(total as nat, |i: int| None),
            hi: Seq::new(total as nat, |i: int| None),
            parent: Seq::new(total as nat, |i: int| 0int),
            rank: Seq::new(total as nat, |i: int| 0nat),
        },
    );
    let mut ld: Option<usize> = None;
    match survey(
        nodes,
        max_keys,
        root,
        None,
        None,
        Ghost(-1int),
        0,
        &mut ld,
        &mut visited,
        &mut lo_refs,
        &mut hi_refs,
        &mut s,
        Ghost(Set::empty()),
    ) {
        Ok(()) => {},
        Err(e) => {
            return Err(e);
        },
    }
    let mut i: usize = 0;
    while i < total
        invariant
            i <= total,
            visited@.len() == total,
            forall|u: int| 0 <= u < i ==> #[trigger] visited@[u],
        decreases total - i,
    {
        if !visited[i] {
            return Err(corruption("tree contains unreachable nodes"));
        }
        i = i + 1;
    }
    let ghost d: usize = ld->0;
    proof {
        assert(survey_done(nodes@, s@, max_keys as nat, ld, visited@, lo_refs@, hi_refs@));
    }
    let (seen, rank) = match walk_chain(
        nodes,
        root,
        &lo_refs,
        &hi_refs,
        Ghost(s@),
        Ghost(max_keys as nat),
        Ghost(ld),
        Ghost(visited@),
    ) {
        Ok(v) => v,
        Err(e) => {
            return Err(e);
        },
    };
    let mut j: usize = 0;
    while j < total
        invariant
            j <= total,
            total == nodes@.len(),
            seen@.len() == total,
            forall|u: int| 0 <= u < j && #[trigger] is_leaf(nodes@, u) ==> seen@[u],
        decreases total - j,
    {
        let is_leaf_node = match &nodes[j] {
            Node::Leaf { .. } => true,
            Node::Internal { .. } => false,
        };
        if is_leaf_node && !seen[j] {
            return Err(corruption("leaf chain does not cover every leaf"));
        }
        j = j + 1;
    }
    let ghost f = final_shape(s@, d as nat, rank@);
    proof {
        let sh = s@;
        assert forall|u: int| 0 <= u < nodes@.len() implies #[trigger] sh.height[u] <= d by {
            assert(visited@[u]);
            assert(surveyed(nodes@, sh, max_keys as nat, ld, visited@, u));
        }
        assert forall|n: int| 0 <= n < nodes@.len() implies #[trigger] node_ok(nodes@, f, max_keys as nat, n) by {
            lemma_checked_node(nodes@, sh, max_keys as nat, d, visited@, lo_refs@, hi_refs@, seen@, rank@, n);
        }
        assert forall|a: int, b: int| #[trigger] is_leaf(nodes@, a) && #[trigger] is_leaf(nodes@, b) && a != b implies {
            &&& f.rank[a] != f.rank[b]
            &&& forall|k: KeyView| !(in_bounds(k, f.lo[a], f.hi[a]) && in_bounds(k, f.lo[b], f.hi[b]))
        } by {
            assert(seen@[a] && seen@[b]);
            assert forall|k: KeyView| !(in_bounds(k, f.lo[a], f.hi[a]) && in_bounds(k, f.lo[b], f.hi[b])) by {
                if in_bounds(k, f.lo[a], f.hi[a]) && in_bounds(k, f.lo[b], f.hi[b]) {
                    if rank@[a] < rank@[b] {
                        lemma_key_lt_trans(k, sh.hi[a]->0, sh.lo[b]->0);
                        lemma_key_compare(k, sh.lo[b]->0);
                    } else {
                        lemma_key_lt_trans(k, sh.hi[b]->0, sh.lo[a]->0);
                        lemma_key_compare(k, sh.lo[a]->0);
                    }
                }
            }
        }
        assert(leaves_apart(nodes@, f));
        assert(shape_sized(nodes@, f));
        assert(parts_wf(nodes@, f, max_keys, root));
    }
    Ok(Ghost(f))
}

} // verus!
