//! The matching index: a shared, reference-counted graph of predicate and
//! connective nodes, a registry binding subscription identifiers to root
//! nodes, and the search over it.
//!
//! Nodes live in an arena addressed by index; a node's children always have
//! smaller indices, so the graph is acyclic by construction. Structurally
//! identical nodes are deduplicated: the arena never holds two slots with the
//! same kind. Each slot's count equals the number of references to it: one
//! for each registry entry rooted there plus one for each parent edge. A
//! count that reaches zero removes the slot and releases its children.

use vstd::prelude::*;
use vstd::string::StringSliceAdditionalSpecFns;
use crate::ast::{
    and3, eval_ast, eval_pred, matches_event, neg3, or3, Ast, AstS, PredKind, Predicate,
    PredicateS,
};
use crate::errors::AtreeError;
use crate::events::{Event, EventBuilder};
use crate::parser::compile;
use crate::schema::{AttributeDefinition, AttributeTable};
use crate::values::EventValueS;

verus! {

/// What one arena node is: a leaf predicate or a connective over children
/// addressed by arena index.
pub enum NodeKind {
    Pred(Predicate),
    Not(usize),
    And(usize, usize),
    Or(usize, usize),
}

/// The mathematical model of a node kind.
pub ghost enum NodeKindS {
    Pred(PredicateS),
    Not(usize),
    And(usize, usize),
    Or(usize, usize),
}

impl View for NodeKind {
    type V = NodeKindS;

    open spec fn view(&self) -> NodeKindS {
        match *self {
            NodeKind::Pred(ref p) => NodeKindS::Pred(p@),
            NodeKind::Not(c) => NodeKindS::Not(c),
            NodeKind::And(l, r) => NodeKindS::And(l, r),
            NodeKind::Or(l, r) => NodeKindS::Or(l, r),
        }
    }
}

/// One occupied arena slot: a node and its reference count.
pub struct Slot {
    pub kind: NodeKind,
    pub refs: u128,
}

/// One registry entry: a subscription identifier bound to its root node.
pub struct SubEntry {
    pub id: u64,
    pub root: usize,
}

/// How many references `k`'s child edges make to node `c`.
pub open spec fn mult(k: NodeKindS, c: int) -> nat {
    match k {
        NodeKindS::Pred(_) => 0,
        NodeKindS::Not(x) => if x == c {
            1nat
        } else {
            0nat
        },
        NodeKindS::And(l, r) => (if l == c {
            1nat
        } else {
            0nat
        }) + (if r == c {
            1nat
        } else {
            0nat
        }),
        NodeKindS::Or(l, r) => (if l == c {
            1nat
        } else {
            0nat
        }) + (if r == c {
            1nat
        } else {
            0nat
        }),
    }
}

/// Whether arena index `i` holds a node.
pub open spec fn occupied(ns: Seq<Option<Slot>>, i: int) -> bool {
    0 <= i < ns.len() && ns[i] is Some
}

/// The kind at an occupied index.
pub open spec fn kind_of(ns: Seq<Option<Slot>>, i: int) -> NodeKindS {
    ns[i]->Some_0.kind@
}

/// The reference count at an occupied index.
pub open spec fn refs_of(ns: Seq<Option<Slot>>, i: int) -> nat {
    ns[i]->Some_0.refs as nat
}

/// The number of parent edges into node `c`, over the whole arena.
pub open spec fn edge_count(ns: Seq<Option<Slot>>, c: int) -> nat
    decreases ns.len(),
{
    if ns.len() == 0 {
        0
    } else {
        edge_count(ns.drop_last(), c) + (match ns.last() {
            Some(sl) => mult(sl.kind@, c),
            None => 0nat,
        })
    }
}

/// The number of registry entries rooted at node `r`.
pub open spec fn reg_count(rs: Seq<SubEntry>, r: int) -> nat
    decreases rs.len(),
{
    if rs.len() == 0 {
        0
    } else {
        reg_count(rs.drop_last(), r) + (if rs.last().root == r {
            1nat
        } else {
            0nat
        })
    }
}

/// The registry as a map from identifier to root index; later entries win,
/// though well-formed registries never bind one identifier twice.
pub open spec fn reg_map(rs: Seq<SubEntry>) -> Map<u64, int>
    decreases rs.len(),
{
    if rs.len() == 0 {
        Map::empty()
    } else {
        reg_map(rs.drop_last()).insert(rs.last().id, rs.last().root as int)
    }
}

/// The number of occupied slots.
pub open spec fn occ_count(ns: Seq<Option<Slot>>) -> nat
    decreases ns.len(),
{
    if ns.len() == 0 {
        0
    } else {
        occ_count(ns.drop_last()) + (if ns.last() is Some {
            1nat
        } else {
            0nat
        })
    }
}

/// Whether the node at `i` represents exactly the expression `a`.
pub open spec fn represents(ns: Seq<Option<Slot>>, i: int, a: AstS) -> bool
    decreases a,
{
    occupied(ns, i) && match a {
        AstS::Pred(p) => kind_of(ns, i) == NodeKindS::Pred(p),
        AstS::Not(c) => kind_of(ns, i) matches NodeKindS::Not(ci) && represents(ns, ci as int, *c),
        AstS::And(l, r) => kind_of(ns, i) matches NodeKindS::And(li, ri) && represents(
            ns,
            li as int,
            *l,
        ) && represents(ns, ri as int, *r),
        AstS::Or(l, r) => kind_of(ns, i) matches NodeKindS::Or(li, ri) && represents(
            ns,
            li as int,
            *l,
        ) && represents(ns, ri as int, *r),
    }
}

/// The three-valued evaluation of the node at `i` against an event.
pub open spec fn node_eval(ns: Seq<Option<Slot>>, i: int, ev: Seq<EventValueS>) -> Option<bool>
    decreases i,
{
    if !occupied(ns, i) {
        None
    } else {
        match kind_of(ns, i) {
            NodeKindS::Pred(p) => eval_pred(p, ev),
            NodeKindS::Not(c) => if 0 <= c < i {
                neg3(node_eval(ns, c as int, ev))
            } else {
                None
            },
            NodeKindS::And(l, r) => if 0 <= l < i && 0 <= r < i {
                and3(node_eval(ns, l as int, ev), node_eval(ns, r as int, ev))
            } else {
                None
            },
            NodeKindS::Or(l, r) => if 0 <= l < i && 0 <= r < i {
                or3(node_eval(ns, l as int, ev), node_eval(ns, r as int, ev))
            } else {
                None
            },
        }
    }
}

/// Children precede their parents and are occupied.
pub open spec fn graph_wf(ns: Seq<Option<Slot>>) -> bool {
    forall|i: int|
        occupied(ns, i) ==> match kind_of(ns, i) {
            NodeKindS::Pred(_) => true,
            NodeKindS::Not(c) => 0 <= c < i && occupied(ns, c as int),
            NodeKindS::And(l, r) => 0 <= l < i && occupied(ns, l as int) && 0 <= r < i && occupied(
                ns,
                r as int,
            ),
            NodeKindS::Or(l, r) => 0 <= l < i && occupied(ns, l as int) && 0 <= r < i && occupied(
                ns,
                r as int,
            ),
        }
}

/// No two occupied slots hold the same node.
pub open spec fn dedup_ok(ns: Seq<Option<Slot>>) -> bool {
    forall|i: int, j: int|
        occupied(ns, i) && occupied(ns, j) && i != j ==> kind_of(ns, i) != kind_of(ns, j)
}

/// Every occupied slot's count equals its incoming references.
pub open spec fn counts_ok(ns: Seq<Option<Slot>>, rs: Seq<SubEntry>) -> bool {
    forall|i: int| occupied(ns, i) ==> refs_of(ns, i) == reg_count(rs, i) + edge_count(ns, i)
}

/// No occupied slot is unreferenced.
pub open spec fn live_ok(ns: Seq<Option<Slot>>) -> bool {
    forall|i: int| occupied(ns, i) ==> refs_of(ns, i) >= 1
}

/// Registry entries point at occupied roots and bind distinct identifiers.
pub open spec fn reg_wf(rs: Seq<SubEntry>, ns: Seq<Option<Slot>>) -> bool {
    &&& forall|k: int| 0 <= k < rs.len() ==> occupied(ns, #[trigger] rs[k].root as int)
    &&& forall|k1: int, k2: int| 0 <= k1 < k2 < rs.len() ==> rs[k1].id != rs[k2].id
}

/// The set of occupied slots whose count is zero; transiently non-empty
/// while an insertion or removal is in flight, empty at rest.
pub open spec fn zeros(ns: Seq<Option<Slot>>) -> Set<int> {
    Set::new(|i: int| occupied(ns, i) && refs_of(ns, i) == 0)
}

// --- lemmas about the recursive counts ---

proof fn lemma_edge_count_update(ns: Seq<Option<Slot>>, j: int, v: Option<Slot>, c: int)
    requires
        0 <= j < ns.len(),
    ensures
        edge_count(ns.update(j, v), c) + (match ns[j] {
            Some(sl) => mult(sl.kind@, c),
            None => 0nat,
        }) == edge_count(ns, c) + (match v {
            Some(sl) => mult(sl.kind@, c),
            None => 0nat,
        }),
    decreases ns.len(),
{
    let ns2 = ns.update(j, v);
    if j == ns.len() - 1 {
        assert(ns2.drop_last() =~= ns.drop_last());
        assert(ns2.last() == v);
    } else {
        assert(ns2.drop_last() =~= ns.drop_last().update(j, v));
        assert(ns2.last() == ns.last());
        lemma_edge_count_update(ns.drop_last(), j, v, c);
    }
}

proof fn lemma_edge_count_push(ns: Seq<Option<Slot>>, v: Option<Slot>, c: int)
    ensures
        edge_count(ns.push(v), c) == edge_count(ns, c) + (match v {
            Some(sl) => mult(sl.kind@, c),
            None => 0nat,
        }),
{
    assert(ns.push(v).drop_last() =~= ns);
    assert(ns.push(v).last() == v);
}

proof fn lemma_edge_count_bound(ns: Seq<Option<Slot>>, c: int)
    ensures
        edge_count(ns, c) <= 2 * ns.len(),
    decreases ns.len(),
{
    if ns.len() > 0 {
        lemma_edge_count_bound(ns.drop_last(), c);
    }
}

/// Edge counts only depend on the kinds in the arena.
proof fn lemma_edge_count_congruent(ns1: Seq<Option<Slot>>, ns2: Seq<Option<Slot>>, c: int)
    requires
        ns1.len() == ns2.len(),
        forall|i: int|
            0 <= i < ns1.len() ==> (ns1[i] is Some == ns2[i] is Some) && (ns1[i] is Some
                ==> kind_of(ns1, i) == kind_of(ns2, i)),
    ensures
        edge_count(ns1, c) == edge_count(ns2, c),
    decreases ns1.len(),
{
    if ns1.len() > 0 {
        let d1 = ns1.drop_last();
        let d2 = ns2.drop_last();
        assert forall|i: int|
            0 <= i < d1.len() implies (d1[i] is Some == d2[i] is Some) && (d1[i] is Some
            ==> kind_of(d1, i) == kind_of(d2, i)) by {
            assert(d1[i] == ns1[i]);
            assert(d2[i] == ns2[i]);
            assert(ns1[i] is Some == ns2[i] is Some);
            if ns1[i] is Some {
                assert(kind_of(ns1, i) == kind_of(ns2, i));
            }
        }
        lemma_edge_count_congruent(d1, d2, c);
        let last = ns1.len() - 1;
        assert(ns1[last] is Some == ns2[last] is Some);
        if ns1[last] is Some {
            assert(kind_of(ns1, last) == kind_of(ns2, last));
        }
    }
}

/// A node nothing points at has edge count zero.
proof fn lemma_edge_count_zero(ns: Seq<Option<Slot>>, c: int)
    requires
        forall|j: int| occupied(ns, j) ==> mult(#[trigger] kind_of(ns, j), c) == 0,
    ensures
        edge_count(ns, c) == 0,
    decreases ns.len(),
{
    if ns.len() > 0 {
        let d = ns.drop_last();
        assert forall|j: int| occupied(d, j) implies mult(#[trigger] kind_of(d, j), c) == 0 by {
            assert(d[j] == ns[j]);
            assert(occupied(ns, j));
            assert(mult(kind_of(ns, j), c) == 0);
        }
        lemma_edge_count_zero(d, c);
        if ns.last() is Some {
            assert(occupied(ns, ns.len() - 1));
            assert(mult(kind_of(ns, ns.len() - 1), c) == 0);
        }
    }
}

proof fn lemma_reg_count_push(rs: Seq<SubEntry>, e: SubEntry, r: int)
    ensures
        reg_count(rs.push(e), r) == reg_count(rs, r) + (if e.root == r {
            1nat
        } else {
            0nat
        }),
{
    assert(rs.push(e).drop_last() =~= rs);
    assert(rs.push(e).last() == e);
}

proof fn lemma_reg_count_remove(rs: Seq<SubEntry>, k: int, r: int)
    requires
        0 <= k < rs.len(),
    ensures
        reg_count(rs.remove(k), r) + (if rs[k].root == r {
            1nat
        } else {
            0nat
        }) == reg_count(rs, r),
    decreases rs.len(),
{
    if k == rs.len() - 1 {
        assert(rs.remove(k) =~= rs.drop_last());
    } else {
        assert(rs.remove(k).drop_last() =~= rs.drop_last().remove(k));
        assert(rs.remove(k).last() == rs.last());
        lemma_reg_count_remove(rs.drop_last(), k, r);
    }
}

proof fn lemma_reg_count_bound(rs: Seq<SubEntry>, r: int)
    ensures
        reg_count(rs, r) <= rs.len(),
    decreases rs.len(),
{
    if rs.len() > 0 {
        lemma_reg_count_bound(rs.drop_last(), r);
    }
}

/// A root no entry points at has registry count zero.
proof fn lemma_reg_count_zero(rs: Seq<SubEntry>, r: int)
    requires
        forall|k: int| 0 <= k < rs.len() ==> (#[trigger] rs[k].root) != r,
    ensures
        reg_count(rs, r) == 0,
    decreases rs.len(),
{
    if rs.len() > 0 {
        lemma_reg_count_zero(rs.drop_last(), r);
    }
}

/// A present root has registry count at least the entries naming it.
proof fn lemma_reg_count_two(rs: Seq<SubEntry>, k1: int, k2: int, r: int)
    requires
        0 <= k1 < k2 < rs.len(),
        rs[k1].root == r,
        rs[k2].root == r,
    ensures
        reg_count(rs, r) >= 2,
    decreases rs.len(),
{
    lemma_reg_count_one(rs.drop_last(), k1, r);
    if k2 == rs.len() - 1 {
    } else {
        lemma_reg_count_two(rs.drop_last(), k1, k2, r);
    }
}

proof fn lemma_reg_count_one(rs: Seq<SubEntry>, k: int, r: int)
    requires
        0 <= k < rs.len(),
        rs[k].root == r,
    ensures
        reg_count(rs, r) >= 1,
    decreases rs.len(),
{
    if k == rs.len() - 1 {
    } else {
        lemma_reg_count_one(rs.drop_last(), k, r);
    }
}

proof fn lemma_reg_map_push(rs: Seq<SubEntry>, e: SubEntry)
    ensures
        reg_map(rs.push(e)) == reg_map(rs).insert(e.id, e.root as int),
{
    assert(rs.push(e).drop_last() =~= rs);
    assert(rs.push(e).last() == e);
}

/// Domain membership in the registry map is having an entry.
proof fn lemma_reg_map_dom(rs: Seq<SubEntry>, id: u64)
    ensures
        reg_map(rs).dom().contains(id) == exists|k: int| 0 <= k < rs.len() && rs[k].id == id,
    decreases rs.len(),
{
    if rs.len() > 0 {
        lemma_reg_map_dom(rs.drop_last(), id);
        if reg_map(rs).dom().contains(id) && rs.last().id != id {
            let k = choose|k: int| 0 <= k < rs.drop_last().len() && rs.drop_last()[k].id == id;
            assert(rs[k].id == id);
        }
        if exists|k: int| 0 <= k < rs.len() && rs[k].id == id {
            let k = choose|k: int| 0 <= k < rs.len() && rs[k].id == id;
            if k < rs.len() - 1 {
                assert(rs.drop_last()[k].id == id);
            }
        }
    }
}

/// With distinct identifiers, each entry's root is its identifier's image.
proof fn lemma_reg_map_at(rs: Seq<SubEntry>, k: int)
    requires
        0 <= k < rs.len(),
        forall|k1: int, k2: int| 0 <= k1 < k2 < rs.len() ==> rs[k1].id != rs[k2].id,
    ensures
        reg_map(rs).dom().contains(rs[k].id),
        reg_map(rs)[rs[k].id] == rs[k].root as int,
    decreases rs.len(),
{
    if k == rs.len() - 1 {
    } else {
        assert(rs.drop_last()[k] == rs[k]);
        lemma_reg_map_at(rs.drop_last(), k);
        assert(rs[rs.len() - 1].id != rs[k].id);
    }
}

/// Removing the one entry binding `id` removes `id` from the map.
proof fn lemma_reg_map_remove(rs: Seq<SubEntry>, k: int)
    requires
        0 <= k < rs.len(),
        forall|k1: int, k2: int| 0 <= k1 < k2 < rs.len() ==> rs[k1].id != rs[k2].id,
    ensures
        reg_map(rs.remove(k)) == reg_map(rs).remove(rs[k].id),
    decreases rs.len(),
{
    let id = rs[k].id;
    if k == rs.len() - 1 {
        assert(rs.remove(k) =~= rs.drop_last());
        lemma_reg_map_dom(rs.drop_last(), id);
        assert(!reg_map(rs.drop_last()).dom().contains(id));
        assert(reg_map(rs.drop_last()) =~= reg_map(rs.drop_last()).insert(
            id,
            rs[k].root as int,
        ).remove(id));
    } else {
        assert(rs.remove(k).drop_last() =~= rs.drop_last().remove(k));
        assert(rs.remove(k).last() == rs.last());
        lemma_reg_map_remove(rs.drop_last(), k);
        assert(rs.drop_last()[k] == rs[k]);
        assert(rs.last().id != id);
        assert(reg_map(rs.drop_last()).remove(id).insert(rs.last().id, rs.last().root as int)
            =~= reg_map(rs.drop_last()).insert(rs.last().id, rs.last().root as int).remove(id));
    }
}

/// The registry map only depends on the entries.
proof fn lemma_occ_count_zero(ns: Seq<Option<Slot>>)
    requires
        forall|i: int| !occupied(ns, i),
    ensures
        occ_count(ns) == 0,
    decreases ns.len(),
{
    if ns.len() > 0 {
        let d = ns.drop_last();
        assert forall|i: int| !occupied(d, i) by {
            if 0 <= i < d.len() {
                assert(d[i] == ns[i]);
                assert(!occupied(ns, i));
            }
        }
        lemma_occ_count_zero(d);
        assert(!occupied(ns, ns.len() - 1));
    }
}


/// Exec equality of two integer-literal lists, as their views.
fn int_vec_eq(a: &Vec<i64>, b: &Vec<i64>) -> (r: bool)
    ensures
        r == (a@ == b@),
{
    if a.len() != b.len() {
        return false;
    }
    let mut i: usize = 0;
    while i < a.len()
        invariant
            i <= a.len(),
            a@.len() == b@.len(),
            forall|k: int| 0 <= k < i ==> a@[k] == b@[k],
        decreases a.len() - i,
    {
        if a[i] != b[i] {
            return false;
        }
        i = i + 1;
    }
    proof {
        assert(a@ =~= b@);
    }
    true
}

/// Exec equality of two string-literal lists, as their views.
fn bytes_vec_eq(a: &Vec<Vec<u8>>, b: &Vec<Vec<u8>>) -> (r: bool)
    ensures
        r == (crate::ast::bytes_list_view(a@) == crate::ast::bytes_list_view(b@)),
{
    let ghost av = crate::ast::bytes_list_view(a@);
    let ghost bv = crate::ast::bytes_list_view(b@);
    if a.len() != b.len() {
        proof {
            assert(av.len() != bv.len());
        }
        return false;
    }
    let mut i: usize = 0;
    while i < a.len()
        invariant
            i <= a.len(),
            a@.len() == b@.len(),
            av == crate::ast::bytes_list_view(a@),
            bv == crate::ast::bytes_list_view(b@),
            forall|k: int| 0 <= k < i ==> av[k] == bv[k],
        decreases a.len() - i,
    {
        if !crate::values::bytes_eq(a[i].as_slice(), b[i].as_slice()) {
            proof {
                assert(av[i as int] == a@[i as int]@);
                assert(bv[i as int] == b@[i as int]@);
            }
            return false;
        }
        proof {
            assert(av[i as int] == a@[i as int]@);
            assert(bv[i as int] == b@[i as int]@);
        }
        i = i + 1;
    }
    proof {
        assert(av =~= bv);
    }
    true
}

/// Exec equality of two predicates, as their views.
fn pred_eq(a: &Predicate, b: &Predicate) -> (r: bool)
    ensures
        r == (a@ == b@),
{
    if a.attr != b.attr {
        return false;
    }
    match (&a.kind, &b.kind) {
        (PredKind::Variable, PredKind::Variable) => true,
        (PredKind::IntEquality(op1, x1), PredKind::IntEquality(op2, x2)) => *op1 == *op2 && *x1
            == *x2,
        (PredKind::DecEquality(op1, x1), PredKind::DecEquality(op2, x2)) => *op1 == *op2 && *x1
            == *x2,
        (PredKind::StrEquality(op1, x1), PredKind::StrEquality(op2, x2)) => *op1 == *op2
            && crate::values::bytes_eq(x1.as_slice(), x2.as_slice()),
        (PredKind::IntComparison(op1, x1), PredKind::IntComparison(op2, x2)) => *op1 == *op2 && *x1
            == *x2,
        (PredKind::DecComparison(op1, x1), PredKind::DecComparison(op2, x2)) => *op1 == *op2 && *x1
            == *x2,
        (PredKind::IntSet(op1, l1), PredKind::IntSet(op2, l2)) => *op1 == *op2 && int_vec_eq(
            l1,
            l2,
        ),
        (PredKind::StrSet(op1, l1), PredKind::StrSet(op2, l2)) => *op1 == *op2 && bytes_vec_eq(
            l1,
            l2,
        ),
        (PredKind::IntListTest(op1, l1), PredKind::IntListTest(op2, l2)) => *op1 == *op2
            && int_vec_eq(l1, l2),
        (PredKind::StrListTest(op1, l1), PredKind::StrListTest(op2, l2)) => *op1 == *op2
            && bytes_vec_eq(l1, l2),
        _ => false,
    }
}

/// Exec equality of two node kinds, as their views.
fn kind_eq(a: &NodeKind, b: &NodeKind) -> (r: bool)
    ensures
        r == (a@ == b@),
{
    match (a, b) {
        (NodeKind::Pred(p1), NodeKind::Pred(p2)) => pred_eq(p1, p2),
        (NodeKind::Not(c1), NodeKind::Not(c2)) => *c1 == *c2,
        (NodeKind::And(l1, r1), NodeKind::And(l2, r2)) => *l1 == *l2 && *r1 == *r2,
        (NodeKind::Or(l1, r1), NodeKind::Or(l2, r2)) => *l1 == *l2 && *r1 == *r2,
        _ => false,
    }
}

/// The children a node kind may reference must already stand in the arena.
pub open spec fn kind_ok(k: NodeKindS, ns: Seq<Option<Slot>>) -> bool {
    match k {
        NodeKindS::Pred(_) => true,
        NodeKindS::Not(c) => occupied(ns, c as int),
        NodeKindS::And(l, r) => occupied(ns, l as int) && occupied(ns, r as int),
        NodeKindS::Or(l, r) => occupied(ns, l as int) && occupied(ns, r as int),
    }
}

/// The chosen expression represented by node `i`.
pub open spec fn ast_at(ns: Seq<Option<Slot>>, i: int) -> AstS {
    choose|a: AstS| represents(ns, i, a)
}

/// A node that represents the same expression in two arenas with the same
/// kinds does so in both.
pub proof fn lemma_represents_stable(
    ns1: Seq<Option<Slot>>,
    ns2: Seq<Option<Slot>>,
    i: int,
    a: AstS,
)
    requires
        represents(ns1, i, a),
        forall|j: int| occupied(ns1, j) ==> occupied(ns2, j) && kind_of(ns2, j) == kind_of(ns1, j),
    ensures
        represents(ns2, i, a),
    decreases a,
{
    match a {
        AstS::Pred(_) => {},
        AstS::Not(c) => {
            let ci = kind_of(ns1, i)->Not_0;
            lemma_represents_stable(ns1, ns2, ci as int, *c);
        },
        AstS::And(l, r) => {
            let li = kind_of(ns1, i)->And_0;
            let ri = kind_of(ns1, i)->And_1;
            lemma_represents_stable(ns1, ns2, li as int, *l);
            lemma_represents_stable(ns1, ns2, ri as int, *r);
        },
        AstS::Or(l, r) => {
            let li = kind_of(ns1, i)->Or_0;
            let ri = kind_of(ns1, i)->Or_1;
            lemma_represents_stable(ns1, ns2, li as int, *l);
            lemma_represents_stable(ns1, ns2, ri as int, *r);
        },
    }
}

/// A node represents at most one expression.
pub proof fn lemma_represents_functional(ns: Seq<Option<Slot>>, i: int, a: AstS, b: AstS)
    requires
        represents(ns, i, a),
        represents(ns, i, b),
    ensures
        a == b,
    decreases a,
{
    match (a, b) {
        (AstS::Pred(_), AstS::Pred(_)) => {},
        (AstS::Not(ca), AstS::Not(cb)) => {
            let ci = kind_of(ns, i)->Not_0;
            lemma_represents_functional(ns, ci as int, *ca, *cb);
        },
        (AstS::And(la, ra), AstS::And(lb, rb)) => {
            let li = kind_of(ns, i)->And_0;
            let ri = kind_of(ns, i)->And_1;
            lemma_represents_functional(ns, li as int, *la, *lb);
            lemma_represents_functional(ns, ri as int, *ra, *rb);
        },
        (AstS::Or(la, ra), AstS::Or(lb, rb)) => {
            let li = kind_of(ns, i)->Or_0;
            let ri = kind_of(ns, i)->Or_1;
            lemma_represents_functional(ns, li as int, *la, *lb);
            lemma_represents_functional(ns, ri as int, *ra, *rb);
        },
        _ => {},
    }
}

/// In a deduplicated arena, an expression is represented by at most one node.
pub proof fn lemma_represents_injective(ns: Seq<Option<Slot>>, i: int, j: int, a: AstS)
    requires
        dedup_ok(ns),
        represents(ns, i, a),
        represents(ns, j, a),
    ensures
        i == j,
    decreases a,
{
    if i != j {
        match a {
            AstS::Pred(_) => {
                assert(kind_of(ns, i) == kind_of(ns, j));
            },
            AstS::Not(c) => {
                let ci = kind_of(ns, i)->Not_0;
                let cj = kind_of(ns, j)->Not_0;
                lemma_represents_injective(ns, ci as int, cj as int, *c);
                assert(kind_of(ns, i) == kind_of(ns, j));
            },
            AstS::And(l, r) => {
                lemma_represents_injective(
                    ns,
                    kind_of(ns, i)->And_0 as int,
                    kind_of(ns, j)->And_0 as int,
                    *l,
                );
                lemma_represents_injective(
                    ns,
                    kind_of(ns, i)->And_1 as int,
                    kind_of(ns, j)->And_1 as int,
                    *r,
                );
                assert(kind_of(ns, i) == kind_of(ns, j));
            },
            AstS::Or(l, r) => {
                lemma_represents_injective(
                    ns,
                    kind_of(ns, i)->Or_0 as int,
                    kind_of(ns, j)->Or_0 as int,
                    *l,
                );
                lemma_represents_injective(
                    ns,
                    kind_of(ns, i)->Or_1 as int,
                    kind_of(ns, j)->Or_1 as int,
                    *r,
                );
                assert(kind_of(ns, i) == kind_of(ns, j));
            },
        }
    }
}

/// Evaluating a node is evaluating the expression it represents.
pub proof fn lemma_node_eval_represents(
    ns: Seq<Option<Slot>>,
    i: int,
    a: AstS,
    ev: Seq<EventValueS>,
)
    requires
        graph_wf(ns),
        represents(ns, i, a),
    ensures
        node_eval(ns, i, ev) == eval_ast(a, ev),
    decreases a,
{
    match a {
        AstS::Pred(_) => {},
        AstS::Not(c) => {
            let ci = kind_of(ns, i)->Not_0;
            lemma_node_eval_represents(ns, ci as int, *c, ev);
        },
        AstS::And(l, r) => {
            lemma_node_eval_represents(ns, kind_of(ns, i)->And_0 as int, *l, ev);
            lemma_node_eval_represents(ns, kind_of(ns, i)->And_1 as int, *r, ev);
        },
        AstS::Or(l, r) => {
            lemma_node_eval_represents(ns, kind_of(ns, i)->Or_0 as int, *l, ev);
            lemma_node_eval_represents(ns, kind_of(ns, i)->Or_1 as int, *r, ev);
        },
    }
}

/// What pushing a fresh node of kind `kv` at index `i` leaves behind.
pub open spec fn created_post(
    ns0: Seq<Option<Slot>>,
    rs: Seq<SubEntry>,
    nsf: Seq<Option<Slot>>,
    kv: NodeKindS,
    i: int,
) -> bool {
    &&& counts_ok(nsf, rs)
    &&& occupied(nsf, i) && kind_of(nsf, i) == kv
    &&& nsf.len() == ns0.len() + 1
    &&& forall|j: int|
        occupied(ns0, j) ==> occupied(nsf, j) && kind_of(nsf, j) == kind_of(ns0, j)
    &&& forall|j: int| occupied(nsf, j) ==> occupied(ns0, j) || j == i
    &&& forall|j: int|
        occupied(nsf, j) && j != i && refs_of(nsf, j) == 0 ==> refs_of(ns0, j) == 0 && mult(kv, j)
            == 0
}

/// The result set a search returns.
pub struct AtreeSearchResult {
    pub ids: Vec<u64>,
}

impl AtreeSearchResult {
    /// The matched subscription identifiers, in no significant order.
    pub fn matches(&self) -> (r: &Vec<u64>)
        ensures
            r == self.ids,
    {
        &self.ids
    }
}

/// The matching index itself.
pub struct ATree {
    attrs: AttributeTable,
    nodes: Vec<Option<Slot>>,
    registry: Vec<SubEntry>,
}

impl ATree {
    /// The arena of nodes.
    pub closed spec fn nodes_seq(self) -> Seq<Option<Slot>> {
        self.nodes@
    }

    /// The subscription registry.
    pub closed spec fn reg_seq(self) -> Seq<SubEntry> {
        self.registry@
    }

    /// The schema the index was created with.
    pub closed spec fn schema(self) -> AttributeTable {
        self.attrs
    }

    /// Everything the index maintains across operations, except liveness.
    pub open spec fn wf_core(self) -> bool {
        &&& graph_wf(self.nodes_seq())
        &&& dedup_ok(self.nodes_seq())
        &&& counts_ok(self.nodes_seq(), self.reg_seq())
        &&& reg_wf(self.reg_seq(), self.nodes_seq())
        &&& self.schema().wf()
    }

    /// The full invariant: at rest every node is referenced at least once.
    pub open spec fn wf(self) -> bool {
        self.wf_core() && live_ok(self.nodes_seq())
    }

    /// The registered subscriptions as a map from identifier to expression.
    pub open spec fn subs(self) -> Map<u64, AstS> {
        Map::new(
            |id: u64| reg_map(self.reg_seq()).dom().contains(id),
            |id: u64| ast_at(self.nodes_seq(), reg_map(self.reg_seq())[id]),
        )
    }

    /// The reference count of node `i`.
    pub open spec fn ref_count(self, i: int) -> nat {
        refs_of(self.nodes_seq(), i)
    }

    /// Creates an index over the given attribute definitions.
    ///
    /// Succeeds exactly when all names are distinct; the new index holds no
    /// subscriptions and no nodes.
    pub fn new(definitions: &[AttributeDefinition]) -> (r: Result<ATree, AtreeError>)
        ensures
            r is Ok <==> (forall|i: int, j: int|
                0 <= i < j < definitions@.len() ==> definitions@[i].name@
                    != definitions@[j].name@),
            r matches Ok(t) ==> {
                &&& t.wf()
                &&& t.subs() =~= Map::<u64, AstS>::empty()
                &&& occ_count(t.nodes_seq()) == 0
                &&& t.schema().defs@.len() == definitions@.len()
                &&& forall|i: int|
                    0 <= i < definitions@.len() ==> AttributeTable::def_like(
                        #[trigger] t.schema().defs@[i],
                        definitions@[i],
                    )
            },
    {
        let attrs = match AttributeTable::new(definitions) {
            Ok(a) => a,
            Err(e) => {
                return Err(e);
            },
        };
        let t = ATree { attrs, nodes: Vec::new(), registry: Vec::new() };
        proof {
            assert(t.subs() =~= Map::<u64, AstS>::empty());
        }
        Ok(t)
    }

    /// The number of nodes the graph currently holds.
    pub fn node_count(&self) -> (r: usize)
        ensures
            r == occ_count(self.nodes_seq()),
    {
        let mut count: usize = 0;
        let mut i: usize = 0;
        let n = self.nodes.len();
        while i < n
            invariant
                i <= n,
                n == self.nodes@.len(),
                count == occ_count(self.nodes@.take(i as int)),
                count <= i,
            decreases n - i,
        {
            proof {
                assert(self.nodes@.take(i + 1).drop_last() =~= self.nodes@.take(i as int));
                assert(self.nodes@.take(i + 1).last() == self.nodes@[i as int]);
            }
            if self.nodes[i].is_some() {
                count = count + 1;
            }
            i = i + 1;
        }
        proof {
            assert(self.nodes@.take(n as int) =~= self.nodes@);
        }
        count
    }

    /// Starts building an event for this index's schema.
    pub fn make_event(&self) -> (r: EventBuilder)
        ensures
            r.wf(self.schema().defs@.len()),
            r@.len() == self.schema().defs@.len(),
            r.assigned_view().len() == self.schema().defs@.len(),
            forall|k: int| 0 <= k < self.schema().defs@.len() ==> r@[k] == EventValueS::Undefined,
            forall|k: int| 0 <= k < self.schema().defs@.len() ==> !r.assigned_view()[k],
    {
        EventBuilder::new(self.attrs.len())
    }

    /// A borrow of the schema, for builder validation.
    pub fn attributes(&self) -> (r: &AttributeTable)
        ensures
            r == self.schema(),
    {
        &self.attrs
    }

    /// Finds the node holding exactly this kind, if any.
    fn find_node(&self, k: &NodeKind) -> (r: Option<usize>)
        ensures
            match r {
                Some(i) => occupied(self.nodes_seq(), i as int) && kind_of(
                    self.nodes_seq(),
                    i as int,
                ) == k@,
                None => forall|j: int|
                    occupied(self.nodes_seq(), j) ==> kind_of(self.nodes_seq(), j) != k@,
            },
    {
        let mut i: usize = 0;
        let n = self.nodes.len();
        while i < n
            invariant
                i <= n,
                n == self.nodes@.len(),
                forall|j: int|
                    0 <= j < i && occupied(self.nodes_seq(), j) ==> kind_of(self.nodes_seq(), j)
                        != k@,
            decreases n - i,
        {
            match &self.nodes[i] {
                Some(sl) => {
                    if kind_eq(&sl.kind, k) {
                        return Some(i);
                    }
                },
                None => {},
            }
            i = i + 1;
        }
        None
    }

    /// Adds one more reference to node `c`.
    fn inc_ref(&mut self, c: usize)
        requires
            occupied(old(self).nodes_seq(), c as int),
            refs_of(old(self).nodes_seq(), c as int) < 0xffff_ffff_ffff_ffff_ffff_ffff_ffff_ffffu128,
        ensures
            final(self).nodes_seq().len() == old(self).nodes_seq().len(),
            final(self).reg_seq() == old(self).reg_seq(),
            final(self).schema() == old(self).schema(),
            forall|j: int|
                0 <= j < old(self).nodes_seq().len() && j != c ==> final(self).nodes_seq()[j]
                    == old(self).nodes_seq()[j],
            occupied(final(self).nodes_seq(), c as int),
            kind_of(final(self).nodes_seq(), c as int) == kind_of(old(self).nodes_seq(), c as int),
            refs_of(final(self).nodes_seq(), c as int) == refs_of(old(self).nodes_seq(), c as int)
                + 1,
    {
        let mut tmp: Option<Slot> = None;
        core::mem::swap(&mut self.nodes[c], &mut tmp);
        match tmp {
            Some(sl) => {
                let nk = sl.kind;
                let nr = sl.refs;
                self.nodes[c] = Some(Slot { kind: nk, refs: nr + 1 });
            },
            None => {
                proof {
                    assert(false);
                }
            },
        }
    }
}


/// An edge into `c` from any occupied node bounds its edge count from below.
proof fn lemma_edge_count_lower_bound(ns: Seq<Option<Slot>>, j: int, c: int)
    requires
        occupied(ns, j),
    ensures
        edge_count(ns, c) >= mult(kind_of(ns, j), c),
    decreases ns.len(),
{
    if j == ns.len() - 1 {
    } else {
        assert(ns.drop_last()[j] == ns[j]);
        lemma_edge_count_lower_bound(ns.drop_last(), j, c);
    }
}

/// Every occupied node of a well-formed graph represents some expression.
proof fn lemma_represents_exists(ns: Seq<Option<Slot>>, i: int)
    requires
        graph_wf(ns),
        occupied(ns, i),
    ensures
        exists|a: AstS| represents(ns, i, a),
    decreases i,
{
    match kind_of(ns, i) {
        NodeKindS::Pred(p) => {
            assert(represents(ns, i, AstS::Pred(p)));
        },
        NodeKindS::Not(c) => {
            lemma_represents_exists(ns, c as int);
            let ca = choose|a: AstS| represents(ns, c as int, a);
            assert(represents(ns, i, AstS::Not(Box::new(ca))));
        },
        NodeKindS::And(l, r) => {
            lemma_represents_exists(ns, l as int);
            lemma_represents_exists(ns, r as int);
            let la = choose|a: AstS| represents(ns, l as int, a);
            let ra = choose|a: AstS| represents(ns, r as int, a);
            assert(represents(ns, i, AstS::And(Box::new(la), Box::new(ra))));
        },
        NodeKindS::Or(l, r) => {
            lemma_represents_exists(ns, l as int);
            lemma_represents_exists(ns, r as int);
            let la = choose|a: AstS| represents(ns, l as int, a);
            let ra = choose|a: AstS| represents(ns, r as int, a);
            assert(represents(ns, i, AstS::Or(Box::new(la), Box::new(ra))));
        },
    }
}

/// A represented expression survives into an arena whose occupied slots keep
/// their kinds, as long as the target arena is itself well formed.
proof fn lemma_represents_live(
    ns1: Seq<Option<Slot>>,
    ns2: Seq<Option<Slot>>,
    i: int,
    a: AstS,
)
    requires
        represents(ns1, i, a),
        occupied(ns2, i),
        graph_wf(ns2),
        forall|j: int| occupied(ns2, j) ==> occupied(ns1, j) && kind_of(ns2, j) == kind_of(ns1, j),
    ensures
        represents(ns2, i, a),
    decreases a,
{
    match a {
        AstS::Pred(_) => {},
        AstS::Not(c) => {
            let ci = kind_of(ns2, i)->Not_0;
            lemma_represents_live(ns1, ns2, ci as int, *c);
        },
        AstS::And(l, r) => {
            lemma_represents_live(ns1, ns2, kind_of(ns2, i)->And_0 as int, *l);
            lemma_represents_live(ns1, ns2, kind_of(ns2, i)->And_1 as int, *r);
        },
        AstS::Or(l, r) => {
            lemma_represents_live(ns1, ns2, kind_of(ns2, i)->Or_0 as int, *l);
            lemma_represents_live(ns1, ns2, kind_of(ns2, i)->Or_1 as int, *r);
        },
    }
}

impl ATree {
    /// Removes `amount` references from node `c`; reports whether it is now
    /// unreferenced.
    fn dec_ref(&mut self, c: usize, amount: u128) -> (zero: bool)
        requires
            occupied(old(self).nodes_seq(), c as int),
            refs_of(old(self).nodes_seq(), c as int) >= amount,
        ensures
            final(self).nodes_seq().len() == old(self).nodes_seq().len(),
            final(self).reg_seq() == old(self).reg_seq(),
            final(self).schema() == old(self).schema(),
            forall|j: int|
                0 <= j < old(self).nodes_seq().len() && j != c ==> final(self).nodes_seq()[j]
                    == old(self).nodes_seq()[j],
            occupied(final(self).nodes_seq(), c as int),
            kind_of(final(self).nodes_seq(), c as int) == kind_of(old(self).nodes_seq(), c as int),
            refs_of(final(self).nodes_seq(), c as int) + amount == refs_of(
                old(self).nodes_seq(),
                c as int,
            ),
            zero == (refs_of(final(self).nodes_seq(), c as int) == 0),
    {
        let mut tmp: Option<Slot> = None;
        core::mem::swap(&mut self.nodes[c], &mut tmp);
        match tmp {
            Some(sl) => {
                let nk = sl.kind;
                let nr = sl.refs - amount;
                self.nodes[c] = Some(Slot { kind: nk, refs: nr });
                nr == 0
            },
            None => {
                proof {
                    assert(false);
                }
                false
            },
        }
    }

    /// Finds the node holding this kind or creates it, wiring one reference
    /// into each child on creation. The returned node's own count is not
    /// changed here: the caller claims it, as a parent edge or a registry
    /// binding.
    #[verifier::rlimit(100)]
    fn add_node(&mut self, k: NodeKind) -> (i: usize)
        requires
            old(self).wf_core(),
            kind_ok(k@, old(self).nodes_seq()),
        ensures
            final(self).wf_core(),
            final(self).reg_seq() == old(self).reg_seq(),
            final(self).schema() == old(self).schema(),
            occupied(final(self).nodes_seq(), i as int),
            kind_of(final(self).nodes_seq(), i as int) == k@,
            forall|j: int|
                occupied(old(self).nodes_seq(), j) ==> occupied(final(self).nodes_seq(), j)
                    && kind_of(final(self).nodes_seq(), j) == kind_of(old(self).nodes_seq(), j),
            forall|j: int|
                occupied(final(self).nodes_seq(), j) ==> occupied(old(self).nodes_seq(), j) || j
                    == i as int,
            forall|j: int|
                occupied(final(self).nodes_seq(), j) && j != i as int && refs_of(
                    final(self).nodes_seq(),
                    j,
                ) == 0 ==> occupied(old(self).nodes_seq(), j) && refs_of(old(self).nodes_seq(), j)
                    == 0 && mult(k@, j) == 0,
    {
        let ghost ns0 = self.nodes@;
        match self.find_node(&k) {
            Some(i) => {
                proof {
                    assert forall|j: int|
                        occupied(ns0, j) && j != i as int && refs_of(ns0, j) == 0 implies mult(
                        k@,
                        j,
                    ) == 0 by {
                        lemma_edge_count_lower_bound(ns0, i as int, j);
                        assert(refs_of(ns0, j) == reg_count(self.registry@, j) + edge_count(
                            ns0,
                            j,
                        ));
                        assert(edge_count(ns0, j) >= mult(kind_of(ns0, i as int), j));
                        assert(kind_of(ns0, i as int) == k@);
                    }
                    assert(self.nodes@ == ns0);
                    assert forall|j: int|
                        occupied(self.nodes@, j) && j != i as int && refs_of(self.nodes@, j)
                            == 0 implies occupied(ns0, j) && refs_of(ns0, j) == 0 && mult(k@, j)
                        == 0 by {
                        assert(mult(k@, j) >= 0);
                    }
                }
                i
            },
            None => {
                let r = self.create_node(k);
                proof {
                    assert forall|j: int|
                        occupied(self.nodes@, j) && j != r as int && refs_of(self.nodes@, j)
                            == 0 implies occupied(ns0, j) && refs_of(ns0, j) == 0 && mult(k@, j)
                        == 0 by {
                        assert(mult(k@, j) >= 0);
                        assert(occupied(self.nodes@, j) && j != r as int && refs_of(self.nodes@, j)
                            == 0);
                    }
                }
                r
            },
        }
    }

    /// Pushes a fresh slot for a kind not yet in the arena and wires its
    /// child references.
    #[verifier::rlimit(60)]
    fn create_node(&mut self, k: NodeKind) -> (i: usize)
        requires
            old(self).wf_core(),
            kind_ok(k@, old(self).nodes_seq()),
            forall|j: int|
                occupied(old(self).nodes_seq(), j) ==> kind_of(old(self).nodes_seq(), j) != k@,
        ensures
            final(self).wf_core(),
            final(self).reg_seq() == old(self).reg_seq(),
            final(self).schema() == old(self).schema(),
            occupied(final(self).nodes_seq(), i as int),
            kind_of(final(self).nodes_seq(), i as int) == k@,
            forall|j: int|
                occupied(old(self).nodes_seq(), j) ==> occupied(final(self).nodes_seq(), j)
                    && kind_of(final(self).nodes_seq(), j) == kind_of(old(self).nodes_seq(), j),
            forall|j: int|
                occupied(final(self).nodes_seq(), j) ==> occupied(old(self).nodes_seq(), j) || j
                    == i as int,
            forall|j: int|
                occupied(final(self).nodes_seq(), j) && j != i as int && refs_of(
                    final(self).nodes_seq(),
                    j,
                ) == 0 ==> occupied(old(self).nodes_seq(), j) && refs_of(old(self).nodes_seq(), j)
                    == 0 && mult(k@, j) == 0,
    {
        let ghost ns0 = self.nodes@;
        let ghost rs = self.registry@;
        let i = self.nodes.len();
        let ghost kv = k@;
        proof {
            // the fresh slot is unreferenced: registry roots and all
            // children lie below the new index
            assert forall|kk: int| 0 <= kk < rs.len() implies (#[trigger] rs[kk].root) as int
                != i as int by {
                assert(occupied(ns0, rs[kk].root as int));
            }
            lemma_reg_count_zero(rs, i as int);
            assert forall|j: int| occupied(ns0, j) implies mult(
                #[trigger] kind_of(ns0, j),
                i as int,
            ) == 0 by {}
            lemma_edge_count_zero(ns0, i as int);
        }
        self.nodes.push(Some(Slot { kind: k, refs: 0 }));
        let ghost ns1 = self.nodes@;
        proof {
            assert(ns1.last()->Some_0.kind@ == kv);
            assert forall|c: int| true implies edge_count(ns1, c) == edge_count(ns0, c) + mult(
                kv,
                c,
            ) by {
                lemma_edge_count_push(ns0, ns1.last(), c);
            }
            assert(mult(kv, i as int) == 0);
            assert(edge_count(ns1, i as int) == 0);
            assert(occupied(ns1, i as int) && kind_of(ns1, i as int) == kv);
            assert forall|j: int| occupied(ns1, j) && j != i as int implies occupied(ns0, j) && ns1[
                j] == ns0[j] by {}
        }
        match &self.nodes[i] {
            Some(sl) => {
                match &sl.kind {
                    NodeKind::Pred(_) => {
                        proof {
                            assert forall|j: int| occupied(ns1, j) implies refs_of(ns1, j)
                                == reg_count(rs, j) + edge_count(ns1, j) by {
                                assert(mult(kv, j) == 0);
                                if j != i as int {
                                    assert(refs_of(ns1, j) == refs_of(ns0, j));
                                }
                            }
                            assert(created_post(ns0, rs, self.nodes@, kv, i as int));
                        }
                    },
                    NodeKind::Not(c0) => {
                        let c = *c0;
                        proof {
                            assert(kv == NodeKindS::Not(c));
                        }
                        self.add_one_edge(c, Ghost(ns0), Ghost(ns1), Ghost(rs), Ghost(kv), Ghost(i as int));
                        proof {
                            let nsf = self.nodes@;
                            assert forall|j: int|
                                occupied(nsf, j) && j != i as int && refs_of(nsf, j)
                                    == 0 implies refs_of(ns0, j) == 0 && mult(kv, j) == 0 by {
                                assert(refs_of(ns1, j) == 0 && j != c as int);
                                assert(ns1[j] == ns0[j]);
                            }
                            assert(counts_ok(nsf, rs));
                            assert(occupied(nsf, i as int) && kind_of(nsf, i as int) == kv);
                            assert(nsf.len() == ns0.len() + 1);
                            assert forall|j: int|
                                occupied(ns0, j) implies occupied(nsf, j) && kind_of(nsf, j)
                                == kind_of(ns0, j) by {
                                assert(ns1[j] == ns0[j]);
                                assert(occupied(ns1, j));
                            }
                            assert(forall|j: int|
                                occupied(nsf, j) ==> occupied(ns0, j) || j == i as int);
                            assert(created_post(ns0, rs, nsf, kv, i as int));
                        }
                    },
                    NodeKind::And(l0, r0) => {
                        let l = *l0;
                        let r = *r0;
                        proof {
                            assert(kv == NodeKindS::And(l, r));
                        }
                        self.add_two_edges(l, r, Ghost(ns0), Ghost(ns1), Ghost(rs), Ghost(kv), Ghost(i as int));
                        proof {
                            let nsf = self.nodes@;
                            assert forall|j: int|
                                occupied(nsf, j) && j != i as int && refs_of(nsf, j)
                                    == 0 implies refs_of(ns0, j) == 0 && mult(kv, j) == 0 by {
                                assert(refs_of(ns1, j) == 0 && j != l as int && j != r as int);
                                assert(ns1[j] == ns0[j]);
                            }
                            assert(counts_ok(nsf, rs));
                            assert(occupied(nsf, i as int) && kind_of(nsf, i as int) == kv);
                            assert(nsf.len() == ns0.len() + 1);
                            assert forall|j: int|
                                occupied(ns0, j) implies occupied(nsf, j) && kind_of(nsf, j)
                                == kind_of(ns0, j) by {
                                assert(ns1[j] == ns0[j]);
                                assert(occupied(ns1, j));
                            }
                            assert(forall|j: int|
                                occupied(nsf, j) ==> occupied(ns0, j) || j == i as int);
                            assert(created_post(ns0, rs, nsf, kv, i as int));
                        }
                    },
                    NodeKind::Or(l0, r0) => {
                        let l = *l0;
                        let r = *r0;
                        proof {
                            assert(kv == NodeKindS::Or(l, r));
                        }
                        self.add_two_edges(l, r, Ghost(ns0), Ghost(ns1), Ghost(rs), Ghost(kv), Ghost(i as int));
                        proof {
                            let nsf = self.nodes@;
                            assert forall|j: int|
                                occupied(nsf, j) && j != i as int && refs_of(nsf, j)
                                    == 0 implies refs_of(ns0, j) == 0 && mult(kv, j) == 0 by {
                                assert(refs_of(ns1, j) == 0 && j != l as int && j != r as int);
                                assert(ns1[j] == ns0[j]);
                            }
                            assert(counts_ok(nsf, rs));
                            assert(occupied(nsf, i as int) && kind_of(nsf, i as int) == kv);
                            assert(nsf.len() == ns0.len() + 1);
                            assert forall|j: int|
                                occupied(ns0, j) implies occupied(nsf, j) && kind_of(nsf, j)
                                == kind_of(ns0, j) by {
                                assert(ns1[j] == ns0[j]);
                                assert(occupied(ns1, j));
                            }
                            assert(forall|j: int|
                                occupied(nsf, j) ==> occupied(ns0, j) || j == i as int);
                            assert(created_post(ns0, rs, nsf, kv, i as int));
                        }
                    },
                }
            },
            None => {
                proof {
                    assert(false);
                }
            },
        }
        proof {
            let nsf = self.nodes@;
            assert(created_post(ns0, rs, nsf, kv, i as int));
            assert forall|a: int|
                occupied(nsf, a) implies match kind_of(nsf, a) {
                NodeKindS::Pred(_) => true,
                NodeKindS::Not(c) => 0 <= c < a && occupied(nsf, c as int),
                NodeKindS::And(l, r) => 0 <= l < a && occupied(nsf, l as int) && 0 <= r < a
                    && occupied(nsf, r as int),
                NodeKindS::Or(l, r) => 0 <= l < a && occupied(nsf, l as int) && 0 <= r < a
                    && occupied(nsf, r as int),
            } by {
                if a == i as int {
                    assert(kind_of(nsf, a) == kv);
                } else {
                    assert(occupied(ns0, a) && kind_of(nsf, a) == kind_of(ns0, a));
                }
            }
            assert forall|a: int, b: int|
                occupied(nsf, a) && occupied(nsf, b) && a != b implies kind_of(nsf, a) != kind_of(
                nsf,
                b,
            ) by {
                if a != i as int && b != i as int {
                    assert(kind_of(nsf, a) == kind_of(ns0, a));
                    assert(kind_of(nsf, b) == kind_of(ns0, b));
                } else if a == i as int {
                    assert(occupied(ns0, b) && kind_of(ns0, b) != kv);
                } else {
                    assert(occupied(ns0, a) && kind_of(ns0, a) != kv);
                }
            }
            assert(reg_wf(self.registry@, nsf));
        }
        i
    }

    /// Wires the single child reference of a freshly pushed negation node.
    fn add_one_edge(
        &mut self,
        c: usize,
        Ghost(ns0): Ghost<Seq<Option<Slot>>>,
        Ghost(ns1): Ghost<Seq<Option<Slot>>>,
        Ghost(rs): Ghost<Seq<SubEntry>>,
        Ghost(k): Ghost<NodeKindS>,
        Ghost(i): Ghost<int>,
    )
        requires
            old(self).nodes_seq() == ns1,
            old(self).reg_seq() == rs,
            counts_ok(ns0, rs),
            ns1.len() == ns0.len() + 1,
            i == ns0.len(),
            occupied(ns1, i) && kind_of(ns1, i) == k && refs_of(ns1, i) == 0,
            forall|j: int| occupied(ns1, j) && j != i ==> occupied(ns0, j) && ns1[j] == ns0[j],
            forall|cc: int| edge_count(ns1, cc) == edge_count(ns0, cc) + mult(k, cc),
            occupied(ns1, c as int),
            (c as int) != i,
            forall|cc: int|
                mult(k, cc) == (if c as int == cc {
                    1nat
                } else {
                    0nat
                }),
            reg_count(rs, i) == 0,
            edge_count(ns1, i) == 0,
        ensures
            final(self).reg_seq() == rs,
            final(self).schema() == old(self).schema(),
            final(self).nodes_seq().len() == ns1.len(),
            counts_ok(final(self).nodes_seq(), rs),
            forall|j: int|
                occupied(ns1, j) ==> occupied(final(self).nodes_seq(), j) && kind_of(
                    final(self).nodes_seq(),
                    j,
                ) == kind_of(ns1, j),
            forall|j: int| occupied(final(self).nodes_seq(), j) ==> occupied(ns1, j),
            forall|j: int|
                occupied(final(self).nodes_seq(), j) && refs_of(final(self).nodes_seq(), j) == 0
                    ==> refs_of(ns1, j) == 0 && j != c as int,
    {
        let n = self.nodes.len();
        let m = self.registry.len();
        proof {
            lemma_reg_count_bound(rs, c as int);
            lemma_edge_count_bound(ns1, c as int);
            assert(refs_of(ns1, c as int) == refs_of(ns0, c as int));
            assert(refs_of(ns0, c as int) == reg_count(rs, c as int) + edge_count(ns0, c as int));
            assert(refs_of(ns1, c as int) < 0xffff_ffff_ffff_ffff_ffff_ffff_ffff_ffffu128);
        }
        self.inc_ref(c);
        let ghost nsb = self.nodes@;
        proof {
            assert forall|cc: int| true implies edge_count(nsb, cc) == edge_count(ns1, cc) by {
                lemma_edge_count_congruent(nsb, ns1, cc);
            }
            assert forall|j: int| occupied(nsb, j) implies refs_of(nsb, j) == reg_count(rs, j)
                + edge_count(nsb, j) by {
                if j == c as int {
                    assert(refs_of(nsb, j) == refs_of(ns1, j) + 1);
                    assert(mult(k, j) == 1);
                    assert(refs_of(ns1, j) == refs_of(ns0, j));
                    assert(refs_of(ns0, j) == reg_count(rs, j) + edge_count(ns0, j));
                } else if j == i {
                    assert(refs_of(nsb, j) == 0);
                    assert(edge_count(nsb, j) == edge_count(ns1, j));
                } else {
                    assert(refs_of(nsb, j) == refs_of(ns1, j));
                    assert(refs_of(ns1, j) == refs_of(ns0, j));
                    assert(mult(k, j) == 0);
                    assert(refs_of(ns0, j) == reg_count(rs, j) + edge_count(ns0, j));
                }
            }
        }
    }

    /// Wires the two child references of a freshly pushed connective node.
    fn add_two_edges(
        &mut self,
        l: usize,
        r: usize,
        Ghost(ns0): Ghost<Seq<Option<Slot>>>,
        Ghost(ns1): Ghost<Seq<Option<Slot>>>,
        Ghost(rs): Ghost<Seq<SubEntry>>,
        Ghost(k): Ghost<NodeKindS>,
        Ghost(i): Ghost<int>,
    )
        requires
            old(self).nodes_seq() == ns1,
            old(self).reg_seq() == rs,
            counts_ok(ns0, rs),
            ns1.len() == ns0.len() + 1,
            i == ns0.len(),
            occupied(ns1, i) && kind_of(ns1, i) == k && refs_of(ns1, i) == 0,
            forall|j: int| occupied(ns1, j) && j != i ==> occupied(ns0, j) && ns1[j] == ns0[j],
            forall|c: int| edge_count(ns1, c) == edge_count(ns0, c) + mult(k, c),
            occupied(ns1, l as int),
            occupied(ns1, r as int),
            (l as int) != i && (r as int) != i,
            forall|c: int|
                mult(k, c) == ((if l as int == c { 1nat } else { 0nat }) + (if r as int == c {
                    1nat
                } else {
                    0nat
                })),
            reg_count(rs, i) == 0,
            edge_count(ns1, i) == 0,
        ensures
            final(self).reg_seq() == rs,
            final(self).schema() == old(self).schema(),
            final(self).nodes_seq().len() == ns1.len(),
            counts_ok(final(self).nodes_seq(), rs),
            forall|j: int|
                occupied(ns1, j) ==> occupied(final(self).nodes_seq(), j) && kind_of(
                    final(self).nodes_seq(),
                    j,
                ) == kind_of(ns1, j),
            forall|j: int| occupied(final(self).nodes_seq(), j) ==> occupied(ns1, j),
            forall|j: int|
                occupied(final(self).nodes_seq(), j) && refs_of(final(self).nodes_seq(), j) == 0
                    ==> refs_of(ns1, j) == 0 && j != l as int && j != r as int,
    {
        let n = self.nodes.len();
        let m = self.registry.len();
        proof {
            lemma_reg_count_bound(rs, l as int);
            lemma_edge_count_bound(ns1, l as int);
            assert(refs_of(ns1, l as int) == refs_of(ns0, l as int));
            assert(refs_of(ns0, l as int) == reg_count(rs, l as int) + edge_count(ns0, l as int));
            assert(refs_of(ns1, l as int) < 0xffff_ffff_ffff_ffff_ffff_ffff_ffff_ffffu128);
        }
        self.inc_ref(l);
        let ghost nsa = self.nodes@;
        proof {
            assert forall|cc: int| true implies edge_count(nsa, cc) == edge_count(ns1, cc) by {
                lemma_edge_count_congruent(nsa, ns1, cc);
            }
            lemma_reg_count_bound(rs, r as int);
            lemma_edge_count_bound(ns1, r as int);
            if l != r {
                assert(refs_of(nsa, r as int) == refs_of(ns1, r as int));
                assert(refs_of(ns1, r as int) == refs_of(ns0, r as int));
            }
            assert(refs_of(nsa, r as int) < 0xffff_ffff_ffff_ffff_ffff_ffff_ffff_ffffu128);
        }
        self.inc_ref(r);
        let ghost nsb = self.nodes@;
        proof {
            assert forall|cc: int| true implies edge_count(nsb, cc) == edge_count(ns1, cc) by {
                lemma_edge_count_congruent(nsb, ns1, cc);
            }
            assert forall|j: int| occupied(nsb, j) implies refs_of(nsb, j) == reg_count(rs, j)
                + edge_count(nsb, j) by {
                if j == l as int || j == r as int {
                    if l == r {
                        assert(refs_of(nsb, j) == refs_of(ns1, j) + 2);
                        assert(mult(k, j) == 2);
                    } else {
                        assert(refs_of(nsb, j) == refs_of(ns1, j) + 1);
                        assert(mult(k, j) == 1);
                    }
                    assert(refs_of(ns1, j) == refs_of(ns0, j));
                    assert(refs_of(ns0, j) == reg_count(rs, j) + edge_count(ns0, j));
                } else if j == i {
                    assert(refs_of(nsb, j) == 0);
                    assert(edge_count(nsb, j) == edge_count(ns1, j));
                } else {
                    assert(refs_of(nsb, j) == refs_of(ns1, j));
                    assert(refs_of(ns1, j) == refs_of(ns0, j));
                    assert(mult(k, j) == 0);
                    assert(refs_of(ns0, j) == reg_count(rs, j) + edge_count(ns0, j));
                }
            }
        }
    }
}


impl ATree {
    /// Lowers a compiled expression into the shared graph, bottom-up, reusing
    /// every node that already stands there. The returned root carries no
    /// reference for the caller yet.
    fn lower(&mut self, a: &Ast) -> (i: usize)
        requires
            old(self).wf_core(),
        ensures
            final(self).wf_core(),
            final(self).reg_seq() == old(self).reg_seq(),
            final(self).schema() == old(self).schema(),
            represents(final(self).nodes_seq(), i as int, a@),
            forall|j: int|
                occupied(old(self).nodes_seq(), j) ==> occupied(final(self).nodes_seq(), j)
                    && kind_of(final(self).nodes_seq(), j) == kind_of(old(self).nodes_seq(), j),
            forall|j: int|
                occupied(final(self).nodes_seq(), j) && refs_of(final(self).nodes_seq(), j) == 0
                    ==> j == i as int || (occupied(old(self).nodes_seq(), j) && refs_of(
                    old(self).nodes_seq(),
                    j,
                ) == 0),
        decreases *a,
    {
        match a {
            Ast::Pred(p) => {
                let ghost ns0 = self.nodes@;
                let q = clone_pred(p);
                let i = self.add_node(NodeKind::Pred(q));
                proof {
                    assert forall|j: int|
                        occupied(self.nodes@, j) && refs_of(self.nodes@, j) == 0 implies j
                        == i as int || (occupied(ns0, j) && refs_of(ns0, j) == 0) by {
                        if j != i as int {
                            assert(mult(NodeKindS::Pred(q@), j) == 0);
                        }
                    }
                }
                i
            },
            Ast::Not(c) => {
                let ghost ns0 = self.nodes@;
                let ci = self.lower(c);
                let ghost ns1 = self.nodes@;
                let i = self.add_node(NodeKind::Not(ci));
                proof {
                    lemma_represents_stable(ns1, self.nodes@, ci as int, (**c)@);
                    assert forall|j: int|
                        occupied(self.nodes@, j) && refs_of(self.nodes@, j) == 0 implies j
                        == i as int || (occupied(ns0, j) && refs_of(ns0, j) == 0) by {
                        if j != i as int {
                            assert(mult(NodeKindS::Not(ci), j) == 0);
                            assert(occupied(ns1, j) && refs_of(ns1, j) == 0);
                        }
                    }
                }
                i
            },
            Ast::And(l, r) => {
                let ghost ns0 = self.nodes@;
                let li = self.lower(l);
                let ghost ns1 = self.nodes@;
                let ri = self.lower(r);
                let ghost ns2 = self.nodes@;
                let i = self.add_node(NodeKind::And(li, ri));
                proof {
                    lemma_represents_stable(ns1, ns2, li as int, (**l)@);
                    lemma_represents_stable(ns2, self.nodes@, li as int, (**l)@);
                    lemma_represents_stable(ns2, self.nodes@, ri as int, (**r)@);
                    assert forall|j: int|
                        occupied(self.nodes@, j) && refs_of(self.nodes@, j) == 0 implies j
                        == i as int || (occupied(ns0, j) && refs_of(ns0, j) == 0) by {
                        if j != i as int {
                            assert(mult(NodeKindS::And(li, ri), j) == 0);
                            assert(occupied(ns2, j) && refs_of(ns2, j) == 0);
                            assert(occupied(ns1, j) && refs_of(ns1, j) == 0);
                        }
                    }
                }
                i
            },
            Ast::Or(l, r) => {
                let ghost ns0 = self.nodes@;
                let li = self.lower(l);
                let ghost ns1 = self.nodes@;
                let ri = self.lower(r);
                let ghost ns2 = self.nodes@;
                let i = self.add_node(NodeKind::Or(li, ri));
                proof {
                    lemma_represents_stable(ns1, ns2, li as int, (**l)@);
                    lemma_represents_stable(ns2, self.nodes@, li as int, (**l)@);
                    lemma_represents_stable(ns2, self.nodes@, ri as int, (**r)@);
                    assert forall|j: int|
                        occupied(self.nodes@, j) && refs_of(self.nodes@, j) == 0 implies j
                        == i as int || (occupied(ns0, j) && refs_of(ns0, j) == 0) by {
                        if j != i as int {
                            assert(mult(NodeKindS::Or(li, ri), j) == 0);
                            assert(occupied(ns2, j) && refs_of(ns2, j) == 0);
                            assert(occupied(ns1, j) && refs_of(ns1, j) == 0);
                        }
                    }
                }
                i
            },
        }
    }
}

/// A structural copy of a predicate, equal in its view.
fn clone_pred(p: &Predicate) -> (r: Predicate)
    ensures
        r@ == p@,
{
    let kind: PredKind = match &p.kind {
        PredKind::Variable => PredKind::Variable,
        PredKind::IntEquality(op, x) => PredKind::IntEquality(*op, *x),
        PredKind::DecEquality(op, x) => PredKind::DecEquality(*op, *x),
        PredKind::StrEquality(op, x) => PredKind::StrEquality(
            *op,
            vstd::slice::slice_to_vec(x.as_slice()),
        ),
        PredKind::IntComparison(op, x) => PredKind::IntComparison(*op, *x),
        PredKind::DecComparison(op, x) => PredKind::DecComparison(*op, *x),
        PredKind::IntSet(op, l) => PredKind::IntSet(*op, vstd::slice::slice_to_vec(l.as_slice())),
        PredKind::StrSet(op, l) => PredKind::StrSet(*op, clone_bytes_list(l)),
        PredKind::IntListTest(op, l) => PredKind::IntListTest(
            *op,
            vstd::slice::slice_to_vec(l.as_slice()),
        ),
        PredKind::StrListTest(op, l) => PredKind::StrListTest(*op, clone_bytes_list(l)),
    };
    Predicate { attr: p.attr, kind }
}

/// A copy of a list of byte strings, equal in its view.
fn clone_bytes_list(l: &Vec<Vec<u8>>) -> (r: Vec<Vec<u8>>)
    ensures
        crate::ast::bytes_list_view(r@) == crate::ast::bytes_list_view(l@),
{
    let ghost lv = crate::ast::bytes_list_view(l@);
    let mut out: Vec<Vec<u8>> = Vec::new();
    let mut i: usize = 0;
    while i < l.len()
        invariant
            i <= l.len(),
            out@.len() == i,
            lv == crate::ast::bytes_list_view(l@),
            forall|k: int|
                0 <= k < i ==> crate::ast::bytes_list_view(out@)[k] == lv[k],
        decreases l.len() - i,
    {
        out.push(vstd::slice::slice_to_vec(l[i].as_slice()));
        proof {
            assert forall|k: int|
                0 <= k < i + 1 implies crate::ast::bytes_list_view(out@)[k] == lv[k] by {
                assert(crate::ast::bytes_list_view(out@)[k] == out@[k]@);
                assert(lv[k] == l@[k]@);
            }
        }
        i = i + 1;
    }
    proof {
        assert(crate::ast::bytes_list_view(out@) =~= lv);
    }
    out
}


/// What cascading reclamation guarantees, relating the arena before (`ns0`)
/// and after (`nsf`), for the registry `rs` and the released node `n`.
pub open spec fn reclaim_post(
    ns0: Seq<Option<Slot>>,
    nsf: Seq<Option<Slot>>,
    rs: Seq<SubEntry>,
    n: int,
) -> bool {
    &&& nsf.len() == ns0.len()
    &&& graph_wf(nsf)
    &&& dedup_ok(nsf)
    &&& counts_ok(nsf, rs)
    &&& !occupied(nsf, n)
    &&& forall|j: int| occupied(nsf, j) ==> occupied(ns0, j) && kind_of(nsf, j) == kind_of(ns0, j)
    &&& forall|j: int| occupied(ns0, j) && !occupied(nsf, j) ==> reg_count(rs, j) == 0
    &&& forall|j: int|
        occupied(ns0, j) && j != n && refs_of(ns0, j) == 0 ==> occupied(nsf, j) && refs_of(nsf, j)
            == 0
    &&& forall|j: int|
        occupied(nsf, j) && refs_of(nsf, j) == 0 ==> j != n && refs_of(ns0, j) == 0
}

impl ATree {
    /// Removes the unreferenced node `n` and releases its children,
    /// cascading through whatever reaches zero.
    #[verifier::rlimit(100)]
    fn reclaim(&mut self, n: usize)
        requires
            graph_wf(old(self).nodes_seq()),
            dedup_ok(old(self).nodes_seq()),
            counts_ok(old(self).nodes_seq(), old(self).reg_seq()),
            occupied(old(self).nodes_seq(), n as int),
            refs_of(old(self).nodes_seq(), n as int) == 0,
        ensures
            final(self).reg_seq() == old(self).reg_seq(),
            final(self).schema() == old(self).schema(),
            reclaim_post(
                old(self).nodes_seq(),
                final(self).nodes_seq(),
                old(self).reg_seq(),
                n as int,
            ),
        decreases n as int, 1int,
    {
        let ghost ns0 = self.nodes@;
        let ghost rs = self.registry@;
        proof {
            assert forall|j: int| occupied(ns0, j) implies mult(
                #[trigger] kind_of(ns0, j),
                n as int,
            ) == 0 by {
                lemma_edge_count_lower_bound(ns0, j, n as int);
                assert(refs_of(ns0, n as int) == reg_count(rs, n as int) + edge_count(
                    ns0,
                    n as int,
                ));
            }
            assert(reg_count(rs, n as int) == 0) by {
                assert(refs_of(ns0, n as int) == reg_count(rs, n as int) + edge_count(
                    ns0,
                    n as int,
                ));
            }
        }
        let mut tmp: Option<Slot> = None;
        core::mem::swap(&mut self.nodes[n], &mut tmp);
        let ghost ns1 = self.nodes@;
        let ghost kv = kind_of(ns0, n as int);
        proof {
            assert(ns1 == ns0.update(n as int, None::<Slot>));
            assert forall|c: int| true implies edge_count(ns1, c) + mult(kv, c) == edge_count(
                ns0,
                c,
            ) by {
                lemma_edge_count_update(ns0, n as int, None, c);
            }
            assert forall|j: int| occupied(ns1, j) implies occupied(ns0, j) && ns1[j] == ns0[
            j] by {}
            // survivors cannot reference n, so the graph stays well formed
            assert forall|j: int|
                occupied(ns1, j) implies match kind_of(ns1, j) {
                NodeKindS::Pred(_) => true,
                NodeKindS::Not(c) => 0 <= c < j && occupied(ns1, c as int),
                NodeKindS::And(l, r) => 0 <= l < j && occupied(ns1, l as int) && 0 <= r < j
                    && occupied(ns1, r as int),
                NodeKindS::Or(l, r) => 0 <= l < j && occupied(ns1, l as int) && 0 <= r < j
                    && occupied(ns1, r as int),
            } by {
                assert(kind_of(ns1, j) == kind_of(ns0, j));
                assert(mult(kind_of(ns0, j), n as int) == 0);
            }
        }
        let kind = match tmp {
            Some(sl) => sl.kind,
            None => {
                proof {
                    assert(false);
                }
                NodeKind::Not(0)
            },
        };
        match kind {
            NodeKind::Pred(_) => {
                proof {
                    assert forall|j: int| occupied(ns1, j) implies refs_of(ns1, j) == reg_count(
                        rs,
                        j,
                    ) + edge_count(ns1, j) by {
                        assert(mult(kv, j) == 0);
                        assert(refs_of(ns1, j) == refs_of(ns0, j));
                    }
                }
            },
            NodeKind::Not(c) => {
                proof {
                    assert(kv == NodeKindS::Not(c));
                    assert(occupied(ns1, c as int));
                    assert(refs_of(ns1, c as int) == refs_of(ns0, c as int));
                    assert(refs_of(ns0, c as int) == reg_count(rs, c as int) + edge_count(
                        ns0,
                        c as int,
                    ));
                    assert(refs_of(ns1, c as int) >= 1);
                }
                let z = self.dec_ref(c, 1);
                let ghost ns2 = self.nodes@;
                proof {
                    assert forall|cc: int| true implies edge_count(ns2, cc) == edge_count(
                        ns1,
                        cc,
                    ) by {
                        lemma_edge_count_congruent(ns2, ns1, cc);
                    }
                    assert forall|j: int| occupied(ns2, j) implies refs_of(ns2, j) == reg_count(
                        rs,
                        j,
                    ) + edge_count(ns2, j) by {
                        if j == c as int {
                            assert(mult(kv, j) == 1);
                        } else {
                            assert(mult(kv, j) == 0);
                            assert(refs_of(ns2, j) == refs_of(ns0, j));
                        }
                    }
                    assert(graph_wf(ns2) && dedup_ok(ns2));
                }
                if z {
                    self.reclaim(c);
                }
            },
            NodeKind::And(l, r) => {
                self.release_pair(l, r, Ghost(ns0), Ghost(ns1), Ghost(rs), Ghost(kv), Ghost(n as int));
            },
            NodeKind::Or(l, r) => {
                self.release_pair(l, r, Ghost(ns0), Ghost(ns1), Ghost(rs), Ghost(kv), Ghost(n as int));
            },
        }
    }

    /// Releases the two child references of a connective node just removed.
    #[verifier::rlimit(100)]
    fn release_pair(
        &mut self,
        l: usize,
        r: usize,
        Ghost(ns0): Ghost<Seq<Option<Slot>>>,
        Ghost(ns1): Ghost<Seq<Option<Slot>>>,
        Ghost(rs): Ghost<Seq<SubEntry>>,
        Ghost(kv): Ghost<NodeKindS>,
        Ghost(n): Ghost<int>,
    )
        requires
            old(self).nodes_seq() == ns1,
            old(self).reg_seq() == rs,
            graph_wf(ns1),
            dedup_ok(ns1),
            ns1.len() == ns0.len(),
            0 <= n < ns1.len(),
            occupied(ns0, n) && !occupied(ns1, n),
            refs_of(ns0, n) == 0,
            forall|j: int| occupied(ns1, j) ==> occupied(ns0, j) && ns1[j] == ns0[j],
            forall|j: int| occupied(ns0, j) && j != n ==> occupied(ns1, j),
            counts_ok(ns0, rs),
            forall|c: int| edge_count(ns1, c) + mult(kv, c) == edge_count(ns0, c),
            occupied(ns1, l as int) && occupied(ns1, r as int),
            (l as int) < n && (r as int) < n,
            forall|c: int|
                mult(kv, c) == ((if l as int == c { 1nat } else { 0nat }) + (if r as int == c {
                    1nat
                } else {
                    0nat
                })),
        ensures
            final(self).reg_seq() == rs,
            final(self).schema() == old(self).schema(),
            reclaim_post(ns0, final(self).nodes_seq(), rs, n),
        decreases n, 0int,
    {
        if l == r {
            proof {
                assert(refs_of(ns1, l as int) == refs_of(ns0, l as int));
                assert(refs_of(ns0, l as int) == reg_count(rs, l as int) + edge_count(
                    ns0,
                    l as int,
                ));
                assert(mult(kv, l as int) == 2);
                assert(refs_of(ns1, l as int) >= 2);
            }
            let z = self.dec_ref(l, 2);
            let ghost ns2 = self.nodes@;
            proof {
                assert forall|cc: int| true implies edge_count(ns2, cc) == edge_count(ns1, cc) by {
                    lemma_edge_count_congruent(ns2, ns1, cc);
                }
                assert forall|j: int| occupied(ns2, j) implies refs_of(ns2, j) == reg_count(rs, j)
                    + edge_count(ns2, j) by {
                    if j == l as int {
                    } else {
                        assert(mult(kv, j) == 0);
                        assert(refs_of(ns2, j) == refs_of(ns0, j));
                    }
                }
                assert(graph_wf(ns2) && dedup_ok(ns2));
            }
            if z {
                self.reclaim(l);
            }
        } else {
            proof {
                assert(refs_of(ns1, l as int) == refs_of(ns0, l as int));
                assert(refs_of(ns0, l as int) == reg_count(rs, l as int) + edge_count(
                    ns0,
                    l as int,
                ));
                assert(mult(kv, l as int) == 1);
                assert(refs_of(ns1, l as int) >= 1);
            }
            let zl = self.dec_ref(l, 1);
            proof {
                assert(refs_of(self.nodes@, r as int) == refs_of(ns0, r as int));
                assert(refs_of(ns0, r as int) == reg_count(rs, r as int) + edge_count(
                    ns0,
                    r as int,
                ));
                assert(mult(kv, r as int) == 1);
                assert(refs_of(self.nodes@, r as int) >= 1);
            }
            let zr = self.dec_ref(r, 1);
            let ghost ns2 = self.nodes@;
            proof {
                assert forall|cc: int| true implies edge_count(ns2, cc) == edge_count(ns1, cc) by {
                    lemma_edge_count_congruent(ns2, ns1, cc);
                }
                assert forall|j: int| occupied(ns2, j) implies refs_of(ns2, j) == reg_count(rs, j)
                    + edge_count(ns2, j) by {
                    if j == l as int || j == r as int {
                    } else {
                        assert(mult(kv, j) == 0);
                        assert(refs_of(ns2, j) == refs_of(ns0, j));
                    }
                }
                assert(graph_wf(ns2) && dedup_ok(ns2));
            }
            if zl {
                self.reclaim(l);
            }
            if zr {
                let ghost ns3 = self.nodes@;
                proof {
                    if zl {
                        assert(occupied(ns3, r as int) && refs_of(ns3, r as int) == 0);
                    }
                }
                self.reclaim(r);
            }
        }
    }
}


/// Changing only reference counts disturbs neither the graph shape nor the
/// deduplication.
proof fn lemma_wf_kinds_preserved(ns0: Seq<Option<Slot>>, ns1: Seq<Option<Slot>>)
    requires
        ns0.len() == ns1.len(),
        forall|j: int| occupied(ns1, j) == occupied(ns0, j),
        forall|j: int| occupied(ns1, j) ==> kind_of(ns1, j) == kind_of(ns0, j),
        graph_wf(ns0),
        dedup_ok(ns0),
    ensures
        graph_wf(ns1),
        dedup_ok(ns1),
{
    assert forall|j: int|
        occupied(ns1, j) implies match kind_of(ns1, j) {
        NodeKindS::Pred(_) => true,
        NodeKindS::Not(c) => 0 <= c < j && occupied(ns1, c as int),
        NodeKindS::And(l, r) => 0 <= l < j && occupied(ns1, l as int) && 0 <= r < j && occupied(
            ns1,
            r as int,
        ),
        NodeKindS::Or(l, r) => 0 <= l < j && occupied(ns1, l as int) && 0 <= r < j && occupied(
            ns1,
            r as int,
        ),
    } by {
        assert(kind_of(ns1, j) == kind_of(ns0, j));
        assert(occupied(ns0, j));
    }
    assert forall|a: int, b: int|
        occupied(ns1, a) && occupied(ns1, b) && a != b implies kind_of(ns1, a) != kind_of(
        ns1,
        b,
    ) by {
        assert(kind_of(ns1, a) == kind_of(ns0, a));
        assert(kind_of(ns1, b) == kind_of(ns0, b));
    }
}

impl ATree {
    /// Deletes the subscription bound to `id` and reclaims whatever nothing
    /// references any more. Deleting an unknown identifier is a no-op.
    #[verifier::rlimit(100)]
    pub fn delete(&mut self, id: u64)
        requires
            old(self).wf(),
        ensures
            final(self).wf(),
            final(self).schema() == old(self).schema(),
            final(self).subs() == old(self).subs().remove(id),
            forall|k: int|
                0 <= k < final(self).reg_seq().len() ==> (#[trigger] final(self).reg_seq()[k]).id
                    != id,
    {
        let ghost rs0 = self.registry@;
        let ghost ns0 = self.nodes@;
        let nreg = self.registry.len();
        let mut k: usize = 0;
        while k < nreg
            invariant
                k <= nreg,
                nreg == self.registry@.len(),
                forall|kk: int| 0 <= kk < k ==> (#[trigger] self.registry@[kk]).id != id,
            ensures
                k <= nreg,
                nreg == self.registry@.len(),
                k < nreg ==> self.registry@[k as int].id == id,
                forall|kk: int| 0 <= kk < k ==> (#[trigger] self.registry@[kk]).id != id,
            decreases nreg - k,
        {
            if self.registry[k].id == id {
                break ;
            }
            k = k + 1;
        }
        if k >= nreg {
            proof {
                lemma_reg_map_dom(rs0, id);
                assert(!old(self).subs().dom().contains(id));
                assert(final(self).subs() =~= old(self).subs().remove(id));
            }
            return ;
        }
        let root = self.registry[k].root;
        proof {
            lemma_reg_map_remove(rs0, k as int);
            lemma_reg_count_one(rs0, k as int, root as int);
        }
        self.registry.remove(k);
        let ghost rs1 = self.registry@;
        proof {
            assert(rs1 == rs0.remove(k as int));
            assert forall|kk1: int, kk2: int| 0 <= kk1 < kk2 < rs1.len() implies rs1[kk1].id
                != rs1[kk2].id by {
                if kk2 < k as int {
                    assert(rs1[kk1] == rs0[kk1] && rs1[kk2] == rs0[kk2]);
                } else if kk1 < k as int {
                    assert(rs1[kk1] == rs0[kk1] && rs1[kk2] == rs0[kk2 + 1]);
                } else {
                    assert(rs1[kk1] == rs0[kk1 + 1] && rs1[kk2] == rs0[kk2 + 1]);
                }
            }
            assert forall|kk: int| 0 <= kk < rs1.len() implies (#[trigger] rs1[kk]).id != id by {
                if kk < k as int {
                    assert(rs1[kk] == rs0[kk]);
                    assert(rs0[kk].id != rs0[k as int].id);
                } else {
                    assert(rs1[kk] == rs0[kk + 1]);
                    assert(rs0[k as int].id != rs0[kk + 1].id);
                }
            }
            assert(refs_of(ns0, root as int) >= 1);
        }
        let z = self.dec_ref(root, 1);
        let ghost ns1 = self.nodes@;
        proof {
            assert forall|cc: int| true implies edge_count(ns1, cc) == edge_count(ns0, cc) by {
                lemma_edge_count_congruent(ns1, ns0, cc);
            }
            assert forall|j: int| occupied(ns1, j) implies refs_of(ns1, j) == reg_count(rs1, j)
                + edge_count(ns1, j) by {
                lemma_reg_count_remove(rs0, k as int, j);
                if j != root as int {
                    assert(refs_of(ns1, j) == refs_of(ns0, j));
                }
            }
            lemma_wf_kinds_preserved(ns0, ns1);
        }
        if z {
            self.reclaim(root);
        }
        let ghost nsf = self.nodes@;
        proof {
            if z {
                assert(reclaim_post(ns1, nsf, rs1, root as int));
            } else {
                assert(nsf == ns1);
            }
            // liveness: anything unreferenced was the root, and is gone
            assert forall|j: int| occupied(nsf, j) implies refs_of(nsf, j) >= 1 by {
                if refs_of(nsf, j) == 0 {
                    if z {
                        assert(refs_of(ns1, j) == 0 && j != root as int);
                        assert(refs_of(ns0, j) == refs_of(ns1, j));
                        assert(occupied(ns0, j));
                    } else {
                        assert(refs_of(ns1, j) == 0);
                        if j == root as int {
                        } else {
                            assert(refs_of(ns0, j) == 0 && occupied(ns0, j));
                        }
                    }
                }
            }
            // registry roots survive: they keep at least one registry reference
            assert forall|kk: int| 0 <= kk < rs1.len() implies occupied(
                nsf,
                #[trigger] rs1[kk].root as int,
            ) by {
                lemma_reg_count_one(rs1, kk, rs1[kk].root as int);
                let rr = rs1[kk].root as int;
                assert(occupied(ns0, rr));
                assert(occupied(ns1, rr));
                if z && !occupied(nsf, rr) {
                    assert(reg_count(rs1, rr) == 0);
                }
            }
            // the registered expressions survive unchanged
            assert forall|j: int| occupied(nsf, j) implies occupied(ns0, j) && kind_of(nsf, j)
                == kind_of(ns0, j) by {
                assert(occupied(ns1, j) ==> occupied(ns0, j) && kind_of(ns1, j) == kind_of(
                    ns0,
                    j,
                ));
            }
            assert(reg_map(rs1) == reg_map(rs0).remove(id));
            assert forall|idp: u64|
                #[trigger] final(self).subs().dom().contains(idp) implies final(self).subs()[idp]
                == old(self).subs()[idp] && idp != id by {
                lemma_reg_map_dom(rs1, idp);
                let kk = choose|kk: int| 0 <= kk < rs1.len() && rs1[kk].id == idp;
                lemma_reg_map_at(rs1, kk);
                let rr = reg_map(rs1)[idp];
                assert(rr == rs1[kk].root as int);
                assert(occupied(ns0, rr) && occupied(nsf, rr));
                lemma_represents_exists(ns0, rr);
                let a = choose|a: AstS| represents(ns0, rr, a);
                lemma_represents_live(ns0, nsf, rr, a);
                lemma_represents_functional(nsf, rr, ast_at(nsf, rr), a);
                lemma_represents_functional(ns0, rr, ast_at(ns0, rr), a);
                assert(reg_map(rs0)[idp] == rr);
            }
            assert(final(self).subs() =~= old(self).subs().remove(id));
        }
    }

    /// Compiles and stores a subscription under `id`, sharing every node the
    /// graph already holds; an existing binding for `id` is replaced. It
    /// succeeds exactly when the text compiles against the schema, and then
    /// binds `id` to exactly the expression the text denotes
    /// ([`crate::parser::spec_compile`]); on failure nothing is mutated.
    #[verifier::rlimit(100)]
    pub fn insert(&mut self, id: u64, expression: &str) -> (r: Result<(), AtreeError>)
        requires
            old(self).wf(),
        ensures
            final(self).wf(),
            final(self).schema() == old(self).schema(),
            r is Ok <==> crate::parser::spec_compile(
                old(self).schema(),
                expression.spec_bytes(),
            ) is Some,
            r is Ok ==> final(self).subs() == old(self).subs().insert(
                id,
                crate::parser::spec_compile(old(self).schema(), expression.spec_bytes())->Some_0,
            ),
            r is Ok ==> crate::parser::ast_wf(
                crate::parser::spec_compile(old(self).schema(), expression.spec_bytes())->Some_0,
                old(self).schema(),
            ),
            r is Err ==> final(self).nodes_seq() == old(self).nodes_seq() && final(self).reg_seq()
                == old(self).reg_seq() && final(self).subs() == old(self).subs(),
            r matches Err(e) ==> (e is Parse || e is Type || e is UnknownAttribute),
    {
        let ast = match compile(&self.attrs, expression) {
            Ok(a) => a,
            Err(e) => {
                return Err(e);
            },
        };
        self.delete(id);
        let ghost mid_ns = self.nodes@;
        let ghost mid_rs = self.registry@;
        let ghost mid_subs = self.subs();
        let root = self.lower(&ast);
        let ghost ns1 = self.nodes@;
        proof {
            lemma_reg_map_push(mid_rs, SubEntry { id, root });
        }
        self.registry.push(SubEntry { id, root });
        let ghost rs1 = self.registry@;
        let nn = self.nodes.len();
        let mreg = self.registry.len();
        proof {
            assert(rs1 == mid_rs.push(SubEntry { id, root }));
            assert forall|j: int| true implies reg_count(rs1, j) == reg_count(mid_rs, j) + (
            if root as int == j {
                1nat
            } else {
                0nat
            }) by {
                lemma_reg_count_push(mid_rs, SubEntry { id, root }, j);
            }
            lemma_reg_count_bound(mid_rs, root as int);
            lemma_edge_count_bound(ns1, root as int);
            assert(refs_of(ns1, root as int) < 0xffff_ffff_ffff_ffff_ffff_ffff_ffff_ffffu128);
        }
        self.inc_ref(root);
        let ghost nsf = self.nodes@;
        proof {
            assert forall|cc: int| true implies edge_count(nsf, cc) == edge_count(ns1, cc) by {
                lemma_edge_count_congruent(nsf, ns1, cc);
            }
            assert forall|j: int| occupied(nsf, j) implies refs_of(nsf, j) == reg_count(rs1, j)
                + edge_count(nsf, j) by {
                if j != root as int {
                    assert(refs_of(nsf, j) == refs_of(ns1, j));
                }
            }
            // liveness: the one unreferenced node was the new root
            assert forall|j: int| occupied(nsf, j) implies refs_of(nsf, j) >= 1 by {
                if refs_of(nsf, j) == 0 {
                    assert(j != root as int);
                    assert(occupied(ns1, j) && refs_of(ns1, j) == 0);
                    assert(occupied(mid_ns, j) && refs_of(mid_ns, j) == 0);
                }
            }
            lemma_wf_kinds_preserved(ns1, nsf);
            assert forall|kk1: int, kk2: int| 0 <= kk1 < kk2 < rs1.len() implies rs1[kk1].id
                != rs1[kk2].id by {
                if kk2 == rs1.len() - 1 {
                    assert(rs1[kk1] == mid_rs[kk1]);
                    assert(mid_rs[kk1].id != id);
                } else {
                    assert(rs1[kk1] == mid_rs[kk1] && rs1[kk2] == mid_rs[kk2]);
                }
            }
            assert forall|kk: int| 0 <= kk < rs1.len() implies occupied(
                nsf,
                #[trigger] rs1[kk].root as int,
            ) by {
                if kk < rs1.len() - 1 {
                    assert(rs1[kk] == mid_rs[kk]);
                    assert(occupied(mid_ns, rs1[kk].root as int));
                    assert(occupied(ns1, rs1[kk].root as int));
                }
            }
            // the new binding carries the compiled expression; the rest stand
            let av = ast@;
            lemma_represents_stable(ns1, nsf, root as int, av);
            lemma_represents_functional(nsf, root as int, ast_at(nsf, root as int), av);
            assert(reg_map(rs1) == reg_map(mid_rs).insert(id, root as int));
            assert forall|idp: u64|
                #[trigger] self.subs().dom().contains(idp) && idp != id implies self.subs()[idp]
                == mid_subs[idp] by {
                lemma_reg_map_dom(mid_rs, idp);
                let kk = choose|kk: int| 0 <= kk < mid_rs.len() && mid_rs[kk].id == idp;
                lemma_reg_map_at(mid_rs, kk);
                let rr = reg_map(mid_rs)[idp];
                assert(occupied(mid_ns, rr));
                lemma_represents_exists(mid_ns, rr);
                let a = choose|a: AstS| represents(mid_ns, rr, a);
                lemma_represents_stable(mid_ns, ns1, rr, a);
                lemma_represents_stable(ns1, nsf, rr, a);
                lemma_represents_functional(nsf, rr, ast_at(nsf, rr), a);
                lemma_represents_functional(mid_ns, rr, ast_at(mid_ns, rr), a);
            }
            assert(self.subs() =~= mid_subs.insert(id, av));
            assert(mid_subs.insert(id, av) =~= old(self).subs().remove(id).insert(id, av));
            assert(old(self).subs().remove(id).insert(id, av) =~= old(self).subs().insert(id, av));
            assert(crate::parser::ast_wf(av, old(self).schema()));
        }
        Ok(())
    }

    /// Evaluates the whole shared graph against an event in one pass, leaves
    /// first: every node is visited once, predicates over attributes the
    /// event does not define resolve to unknown immediately, and connective
    /// values are combined upward from their children's already known values.
    fn eval_graph(&self, ev: &Event) -> (memo: Vec<Option<bool>>)
        requires
            graph_wf(self.nodes_seq()),
        ensures
            memo@.len() == self.nodes_seq().len(),
            forall|j: int|
                0 <= j < memo@.len() ==> memo@[j] == node_eval(self.nodes_seq(), j, ev@),
    {
        let ghost ns = self.nodes_seq();
        let n = self.nodes.len();
        let mut memo: Vec<Option<bool>> = Vec::new();
        let mut i: usize = 0;
        while i < n
            invariant
                i <= n,
                n == self.nodes@.len(),
                ns == self.nodes_seq(),
                graph_wf(ns),
                memo@.len() == i,
                forall|j: int| 0 <= j < i ==> memo@[j] == node_eval(ns, j, ev@),
            decreases n - i,
        {
            let v: Option<bool> = match &self.nodes[i] {
                None => None,
                Some(sl) => {
                    proof {
                        assert(occupied(ns, i as int));
                        assert(kind_of(ns, i as int) == sl.kind@);
                    }
                    match &sl.kind {
                    NodeKind::Pred(p) => crate::ast::eval_pred_exec(p, &ev.values),
                    NodeKind::Not(c) => match memo[*c] {
                        Some(b) => Some(!b),
                        None => None,
                    },
                    NodeKind::And(l, r) => {
                        let x = memo[*l];
                        let y = memo[*r];
                        if x == Some(false) || y == Some(false) {
                            Some(false)
                        } else if x == Some(true) && y == Some(true) {
                            Some(true)
                        } else {
                            None
                        }
                    },
                    NodeKind::Or(l, r) => {
                        let x = memo[*l];
                        let y = memo[*r];
                        if x == Some(true) || y == Some(true) {
                            Some(true)
                        } else if x == Some(false) && y == Some(false) {
                            Some(false)
                        } else {
                            None
                        }
                    },
                }
                },
            };
            memo.push(v);
            i = i + 1;
        }
        memo
    }

    /// Returns exactly the identifiers of the subscriptions whose expression
    /// fully evaluates to known-true against the event, without duplicates
    /// and in no significant order.
    #[verifier::rlimit(100)]
    pub fn search(&self, event: &Event) -> (r: Result<AtreeSearchResult, AtreeError>)
        requires
            self.wf(),
        ensures
            r is Ok,
            r matches Ok(res) ==> {
                &&& forall|id: u64|
                    #[trigger] res.ids@.contains(id) <==> self.subs().dom().contains(id)
                        && matches_event(self.subs()[id], event@)
                &&& forall|k1: int, k2: int|
                    0 <= k1 < k2 < res.ids@.len() ==> res.ids@[k1] != res.ids@[k2]
            },
    {
        let memo = self.eval_graph(event);
        let mut out: Vec<u64> = Vec::new();
        let nreg = self.registry.len();
        let mut k: usize = 0;
        while k < nreg
            invariant
                self.wf(),
                k <= nreg,
                nreg == self.registry@.len(),
                memo@.len() == self.nodes_seq().len(),
                forall|j: int|
                    0 <= j < memo@.len() ==> memo@[j] == node_eval(self.nodes_seq(), j, event@),
                forall|id: u64|
                    #[trigger] out@.contains(id) <==> exists|kk: int|
                        0 <= kk < k && (#[trigger] self.registry@[kk]).id == id && node_eval(
                            self.nodes_seq(),
                            self.registry@[kk].root as int,
                            event@,
                        ) == Some(true),
                forall|k1: int, k2: int| 0 <= k1 < k2 < out@.len() ==> out@[k1] != out@[k2],
            decreases nreg - k,
        {
            let root = self.registry[k].root;
            let idk = self.registry[k].id;
            let v = memo[root];
            let ghost out0 = out@;
            if v == Some(true) {
                proof {
                    // a repeat would mean two registry entries with one id
                    if out@.contains(idk) {
                        let kk = choose|kk: int|
                            0 <= kk < k && (#[trigger] self.registry@[kk]).id == idk && node_eval(
                                self.nodes_seq(),
                                self.registry@[kk].root as int,
                                event@,
                            ) == Some(true);
                        assert(false);
                    }
                }
                out.push(idk);
                proof {
                    assert forall|id: u64| #[trigger] out@.contains(id) implies exists|kk: int|
                        0 <= kk < k + 1 && (#[trigger] self.registry@[kk]).id == id && node_eval(
                            self.nodes_seq(),
                            self.registry@[kk].root as int,
                            event@,
                        ) == Some(true) by {
                        if id == idk {
                            assert(self.registry@[k as int].id == id);
                        } else {
                            assert(out0.contains(id));
                        }
                    }
                    assert forall|id: u64|
                        (exists|kk: int|
                            0 <= kk < k + 1 && (#[trigger] self.registry@[kk]).id == id
                                && node_eval(
                                self.nodes_seq(),
                                self.registry@[kk].root as int,
                                event@,
                            ) == Some(true)) implies #[trigger] out@.contains(id) by {
                        if id != idk {
                            let kk = choose|kk: int|
                                0 <= kk < k + 1 && (#[trigger] self.registry@[kk]).id == id
                                    && node_eval(
                                    self.nodes_seq(),
                                    self.registry@[kk].root as int,
                                    event@,
                                ) == Some(true);
                            assert(kk < k);
                            assert(out0.contains(id));
                            assert(out@ == out0.push(idk));
                            assert(out@[choose|x: int| 0 <= x < out0.len() && out0[x] == id]
                                == id);
                        } else {
                            assert(out@.last() == idk);
                        }
                    }
                }
            } else {
                proof {
                    assert forall|id: u64| #[trigger] out@.contains(id) implies exists|kk: int|
                        0 <= kk < k + 1 && (#[trigger] self.registry@[kk]).id == id && node_eval(
                            self.nodes_seq(),
                            self.registry@[kk].root as int,
                            event@,
                        ) == Some(true) by {}
                    assert forall|id: u64|
                        (exists|kk: int|
                            0 <= kk < k + 1 && (#[trigger] self.registry@[kk]).id == id
                                && node_eval(
                                self.nodes_seq(),
                                self.registry@[kk].root as int,
                                event@,
                            ) == Some(true)) implies #[trigger] out@.contains(id) by {
                        let kk = choose|kk: int|
                            0 <= kk < k + 1 && (#[trigger] self.registry@[kk]).id == id
                                && node_eval(
                                self.nodes_seq(),
                                self.registry@[kk].root as int,
                                event@,
                            ) == Some(true);
                        assert(kk < k);
                    }
                }
            }
            k = k + 1;
        }
        proof {
            let rs = self.registry@;
            let ns = self.nodes_seq();
            assert forall|id: u64|
                #[trigger] out@.contains(id) implies self.subs().dom().contains(id)
                && matches_event(self.subs()[id], event@) by {
                let kk = choose|kk: int|
                    0 <= kk < rs.len() && (#[trigger] rs[kk]).id == id && node_eval(
                        ns,
                        rs[kk].root as int,
                        event@,
                    ) == Some(true);
                lemma_reg_map_dom(rs, id);
                lemma_reg_map_at(rs, kk);
                let rr = rs[kk].root as int;
                lemma_represents_exists(ns, rr);
                let a = choose|a: AstS| represents(ns, rr, a);
                lemma_represents_functional(ns, rr, ast_at(ns, rr), a);
                lemma_node_eval_represents(ns, rr, a, event@);
            }
            assert forall|id: u64|
                self.subs().dom().contains(id) && matches_event(
                    self.subs()[id],
                    event@,
                ) implies #[trigger] out@.contains(id) by {
                lemma_reg_map_dom(rs, id);
                let kk = choose|kk: int| 0 <= kk < rs.len() && rs[kk].id == id;
                lemma_reg_map_at(rs, kk);
                let rr = rs[kk].root as int;
                lemma_represents_exists(ns, rr);
                let a = choose|a: AstS| represents(ns, rr, a);
                lemma_represents_functional(ns, rr, ast_at(ns, rr), a);
                lemma_node_eval_represents(ns, rr, a, event@);
                assert(node_eval(ns, rr, event@) == Some(true));
            }
        }
        Ok(AtreeSearchResult { ids: out })
    }
}



impl ATree {
    /// Whether the subscription `id` matches the event: it is registered and
    /// its expression fully evaluates to known-true.
    pub open spec fn sub_matches(self, id: u64, ev: Seq<EventValueS>) -> bool {
        self.subs().dom().contains(id) && matches_event(self.subs()[id], ev)
    }
}

/// Deduplication: two subscriptions whose expressions compiled to the same
/// tree share one root node, and that node carries at least two references.
pub proof fn lemma_dedup_shares_nodes(t: ATree, id1: u64, id2: u64)
    requires
        t.wf(),
        id1 != id2,
        t.subs().dom().contains(id1),
        t.subs().dom().contains(id2),
        t.subs()[id1] == t.subs()[id2],
    ensures
        exists|r: int|
            occupied(t.nodes_seq(), r) && represents(t.nodes_seq(), r, t.subs()[id1])
                && t.ref_count(r) >= 2,
{
    let rs = t.reg_seq();
    let ns = t.nodes_seq();
    lemma_reg_map_dom(rs, id1);
    lemma_reg_map_dom(rs, id2);
    let k1 = choose|k: int| 0 <= k < rs.len() && rs[k].id == id1;
    let k2 = choose|k: int| 0 <= k < rs.len() && rs[k].id == id2;
    lemma_reg_map_at(rs, k1);
    lemma_reg_map_at(rs, k2);
    let r1 = rs[k1].root as int;
    let r2 = rs[k2].root as int;
    lemma_represents_exists(ns, r1);
    lemma_represents_exists(ns, r2);
    let a1 = choose|a: AstS| represents(ns, r1, a);
    let a2 = choose|a: AstS| represents(ns, r2, a);
    lemma_represents_functional(ns, r1, ast_at(ns, r1), a1);
    lemma_represents_functional(ns, r2, ast_at(ns, r2), a2);
    assert(t.subs()[id1] == a1 && t.subs()[id2] == a2);
    lemma_represents_injective(ns, r1, r2, a1);
    assert(r1 == r2);
    if k1 < k2 {
        lemma_reg_count_two(rs, k1, k2, r1);
    } else {
        lemma_reg_count_two(rs, k2, k1, r1);
    }
    assert(refs_of(ns, r1) == reg_count(rs, r1) + edge_count(ns, r1));
    assert(represents(ns, r1, t.subs()[id1]) && t.ref_count(r1) >= 2);
}

/// Dedup from insertion: one text compiles to one expression, so two
/// subscriptions inserted from the same text are bound to the same
/// expression and share one root node carrying both references.
pub proof fn lemma_same_text_shares_root(t: ATree, id1: u64, id2: u64, text: Seq<u8>)
    requires
        t.wf(),
        id1 != id2,
        t.subs().dom().contains(id1),
        t.subs().dom().contains(id2),
        t.subs()[id1] == crate::parser::spec_compile(t.schema(), text)->Some_0,
        t.subs()[id2] == crate::parser::spec_compile(t.schema(), text)->Some_0,
    ensures
        exists|r: int|
            occupied(t.nodes_seq(), r) && represents(t.nodes_seq(), r, t.subs()[id1])
                && t.ref_count(r) >= 2,
{
    lemma_dedup_shares_nodes(t, id1, id2);
}

/// No index below `k` is occupied when nothing above is and no subscription
/// remains to anchor a reference.
proof fn lemma_unoccupied_down(ns: Seq<Option<Slot>>, rs: Seq<SubEntry>, k: int)
    requires
        0 <= k <= ns.len(),
        graph_wf(ns),
        counts_ok(ns, rs),
        live_ok(ns),
        rs.len() == 0,
        forall|j: int| k <= j ==> !occupied(ns, j),
    ensures
        forall|j: int| !occupied(ns, j),
    decreases k,
{
    if k > 0 {
        if occupied(ns, k - 1) {
            assert forall|j: int| occupied(ns, j) implies mult(#[trigger] kind_of(ns, j), k - 1)
                == 0 by {
                assert(j < k);
            }
            lemma_edge_count_zero(ns, k - 1);
            assert(refs_of(ns, k - 1) == reg_count(rs, k - 1) + edge_count(ns, k - 1));
            assert(reg_count(rs, k - 1) == 0);
            assert(false);
        }
        lemma_unoccupied_down(ns, rs, k - 1);
    }
}

/// Reclamation: an index with no subscriptions holds no nodes at all, so
/// deleting the last subscription reclaims everything it reached.
pub proof fn lemma_reclamation(t: ATree)
    requires
        t.wf(),
        t.subs().dom() == Set::<u64>::empty(),
    ensures
        occ_count(t.nodes_seq()) == 0,
        forall|i: int| !occupied(t.nodes_seq(), i),
{
    let rs = t.reg_seq();
    let ns = t.nodes_seq();
    if rs.len() > 0 {
        lemma_reg_map_at(rs, 0);
        lemma_reg_map_dom(rs, rs[0].id);
        assert(t.subs().dom().contains(rs[0].id));
        assert(false);
    }
    lemma_unoccupied_down(ns, rs, ns.len() as int);
    lemma_occ_count_zero(ns);
}

/// Idempotent delete: removing an identifier that is not registered leaves
/// every subscription's matching behaviour unchanged.
pub proof fn lemma_idempotent_delete(
    t1: ATree,
    t2: ATree,
    ev: Seq<EventValueS>,
    deleted: u64,
    qid: u64,
)
    requires
        t1.wf(),
        t2.wf(),
        !t1.subs().dom().contains(deleted),
        t2.subs() == t1.subs().remove(deleted),
    ensures
        t2.sub_matches(qid, ev) == t1.sub_matches(qid, ev),
{
    assert(t1.subs().remove(deleted) =~= t1.subs());
}

/// Shared structure is safe: deleting one subscription never changes what
/// another subscription matches, even where the two shared every node.
pub proof fn lemma_delete_keeps_others(
    t1: ATree,
    t2: ATree,
    ev: Seq<EventValueS>,
    deleted: u64,
    qid: u64,
)
    requires
        t1.wf(),
        t2.wf(),
        t2.subs() == t1.subs().remove(deleted),
        qid != deleted,
    ensures
        t2.sub_matches(qid, ev) == t1.sub_matches(qid, ev),
{
}


impl ATree {
    /// The parent-to-child edges of the graph, for read-only export: every
    /// pair is a real edge of an occupied node, every edge of the graph is
    /// listed, and a parent's edges stand together in child order.
    pub fn graph_edges(&self) -> (r: Vec<(usize, usize)>)
        ensures
            forall|p: int|
                0 <= p < r@.len() ==> occupied(self.nodes_seq(), #[trigger] r@[p].0 as int)
                    && mult(kind_of(self.nodes_seq(), r@[p].0 as int), r@[p].1 as int) >= 1,
            forall|i: int, c: int|
                occupied(self.nodes_seq(), i) && mult(kind_of(self.nodes_seq(), i), c) >= 1 && 0
                    <= c ==> #[trigger] r@.contains((i as usize, c as usize)),
    {
        let ghost ns = self.nodes_seq();
        let mut out: Vec<(usize, usize)> = Vec::new();
        let n = self.nodes.len();
        let mut i: usize = 0;
        while i < n
            invariant
                i <= n,
                n == self.nodes@.len(),
                ns == self.nodes_seq(),
                forall|p: int|
                    0 <= p < out@.len() ==> occupied(ns, #[trigger] out@[p].0 as int) && mult(
                        kind_of(ns, out@[p].0 as int),
                        out@[p].1 as int,
                    ) >= 1,
                forall|ii: int, c: int|
                    0 <= ii < i && occupied(ns, ii) && mult(kind_of(ns, ii), c) >= 1 && 0 <= c
                        ==> #[trigger] out@.contains((ii as usize, c as usize)),
            decreases n - i,
        {
            let ghost out0 = out@;
            match &self.nodes[i] {
                Some(sl) => {
                    match &sl.kind {
                        NodeKind::Pred(_) => {},
                        NodeKind::Not(c) => {
                            out.push((i, *c));
                        },
                        NodeKind::And(l, r) => {
                            out.push((i, *l));
                            out.push((i, *r));
                        },
                        NodeKind::Or(l, r) => {
                            out.push((i, *l));
                            out.push((i, *r));
                        },
                    }
                },
                None => {},
            }
            proof {
                assert forall|p: int| 0 <= p < out0.len() implies out@[p] == out0[p] by {}
                assert forall|ii: int, c: int|
                    0 <= ii < i + 1 && occupied(ns, ii) && mult(kind_of(ns, ii), c) >= 1 && 0 <= c
                        implies #[trigger] out@.contains((ii as usize, c as usize)) by {
                    if ii < i {
                        assert(out0.contains((ii as usize, c as usize)));
                        let p = choose|p: int|
                            0 <= p < out0.len() && out0[p] == (ii as usize, c as usize);
                        assert(out@[p] == (ii as usize, c as usize));
                    } else {
                        match kind_of(ns, ii) {
                            NodeKindS::Pred(_) => {},
                            NodeKindS::Not(cc) => {
                                assert(out@[out@.len() - 1] == (ii as usize, c as usize));
                            },
                            NodeKindS::And(l, r) => {
                                if c == l as int {
                                    assert(out@[out@.len() - 2] == (ii as usize, c as usize));
                                } else {
                                    assert(out@[out@.len() - 1] == (ii as usize, c as usize));
                                }
                            },
                            NodeKindS::Or(l, r) => {
                                if c == l as int {
                                    assert(out@[out@.len() - 2] == (ii as usize, c as usize));
                                } else {
                                    assert(out@[out@.len() - 1] == (ii as usize, c as usize));
                                }
                            },
                        }
                    }
                }
            }
            i = i + 1;
        }
        out
    }

    /// The node standing at arena index `i`, if any, for read-only export:
    /// exactly the kind the graph holds there.
    pub fn node_kind_at(&self, i: usize) -> (r: Option<&NodeKind>)
        ensures
            match r {
                Some(k) => occupied(self.nodes_seq(), i as int) && k@ == kind_of(
                    self.nodes_seq(),
                    i as int,
                ),
                None => !occupied(self.nodes_seq(), i as int),
            },
    {
        if i >= self.nodes.len() {
            return None;
        }
        match &self.nodes[i] {
            Some(sl) => Some(&sl.kind),
            None => None,
        }
    }

    /// The number of arena slots, occupied or not; node indices lie below it.
    pub fn arena_len(&self) -> (r: usize)
        ensures
            r == self.nodes_seq().len(),
    {
        self.nodes.len()
    }

    /// The registered subscription identifiers and their root nodes.
    pub fn subscription_roots(&self) -> (r: Vec<(u64, usize)>)
        ensures
            r@.len() == self.reg_seq().len(),
            forall|p: int|
                0 <= p < r@.len() ==> (#[trigger] r@[p]).0 == self.reg_seq()[p].id && r@[p].1
                    == self.reg_seq()[p].root,
    {
        let mut out: Vec<(u64, usize)> = Vec::new();
        let n = self.registry.len();
        let mut k: usize = 0;
        while k < n
            invariant
                k <= n,
                n == self.registry@.len(),
                out@.len() == k,
                forall|p: int|
                    0 <= p < k ==> (#[trigger] out@[p]).0 == self.registry@[p].id && out@[p].1
                        == self.registry@[p].root,
            decreases n - k,
        {
            out.push((self.registry[k].id, self.registry[k].root));
            k = k + 1;
        }
        out
    }
}

} // verus!
