//! Compiled expressions: typed predicates, boolean connectives, and their
//! evaluation semantics against an event.
//!
//! Evaluation is three-valued: a predicate over an attribute that the event
//! leaves absent or marks undefined is *unknown* rather than false, so that
//! unknown data can satisfy neither a predicate nor its negation. A
//! subscription matches exactly when its expression evaluates to known-true.

use vstd::prelude::*;
use crate::decimal::{dec_cmp, dec_eq, dec_lt, Decimal};
use crate::values::{
    bytes_eq, bytes_list_contains, bytes_seq_contains, int_list_contains, int_seq_contains,
    EventValue, EventValueS,
};

verus! {

/// An ordering test.
#[derive(Clone, Copy, PartialEq, Eq, Structural, Debug)]
pub enum CmpOp {
    Lt,
    Le,
    Gt,
    Ge,
}

/// An equality test.
#[derive(Clone, Copy, PartialEq, Eq, Structural, Debug)]
pub enum EqOp {
    Eq,
    Ne,
}

/// A membership test of a scalar attribute against a literal list.
#[derive(Clone, Copy, PartialEq, Eq, Structural, Debug)]
pub enum SetOp {
    In,
    NotIn,
}

/// A containment test of a list attribute against a literal list.
#[derive(Clone, Copy, PartialEq, Eq, Structural, Debug)]
pub enum ListOp {
    OneOf,
    NoneOf,
    AllOf,
}

/// The test a predicate performs; each variant is already typed against the
/// attribute's declared type.
#[derive(Debug)]
pub enum PredKind {
    /// A bare boolean attribute.
    Variable,
    IntEquality(EqOp, i64),
    DecEquality(EqOp, Decimal),
    StrEquality(EqOp, Vec<u8>),
    IntComparison(CmpOp, i64),
    DecComparison(CmpOp, Decimal),
    IntSet(SetOp, Vec<i64>),
    StrSet(SetOp, Vec<Vec<u8>>),
    IntListTest(ListOp, Vec<i64>),
    StrListTest(ListOp, Vec<Vec<u8>>),
}

/// The mathematical model of a predicate test, over sequences.
pub ghost enum PredKindS {
    Variable,
    IntEquality(EqOp, i64),
    DecEquality(EqOp, Decimal),
    StrEquality(EqOp, Seq<u8>),
    IntComparison(CmpOp, i64),
    DecComparison(CmpOp, Decimal),
    IntSet(SetOp, Seq<i64>),
    StrSet(SetOp, Seq<Seq<u8>>),
    IntListTest(ListOp, Seq<i64>),
    StrListTest(ListOp, Seq<Seq<u8>>),
}

/// The view of a sequence of byte strings.
pub open spec fn bytes_list_view(v: Seq<Vec<u8>>) -> Seq<Seq<u8>> {
    v.map_values(|x: Vec<u8>| x@)
}

impl View for PredKind {
    type V = PredKindS;

    open spec fn view(&self) -> PredKindS {
        match *self {
            PredKind::Variable => PredKindS::Variable,
            PredKind::IntEquality(op, x) => PredKindS::IntEquality(op, x),
            PredKind::DecEquality(op, x) => PredKindS::DecEquality(op, x),
            PredKind::StrEquality(op, x) => PredKindS::StrEquality(op, x@),
            PredKind::IntComparison(op, x) => PredKindS::IntComparison(op, x),
            PredKind::DecComparison(op, x) => PredKindS::DecComparison(op, x),
            PredKind::IntSet(op, l) => PredKindS::IntSet(op, l@),
            PredKind::StrSet(op, l) => PredKindS::StrSet(op, bytes_list_view(l@)),
            PredKind::IntListTest(op, l) => PredKindS::IntListTest(op, l@),
            PredKind::StrListTest(op, l) => PredKindS::StrListTest(op, bytes_list_view(l@)),
        }
    }
}

/// A leaf test: one attribute (by schema index) against one literal.
#[derive(Debug)]
pub struct Predicate {
    pub attr: usize,
    pub kind: PredKind,
}

/// The mathematical model of a predicate.
pub ghost struct PredicateS {
    pub attr: usize,
    pub kind: PredKindS,
}

impl View for Predicate {
    type V = PredicateS;

    open spec fn view(&self) -> PredicateS {
        PredicateS { attr: self.attr, kind: self.kind@ }
    }
}

/// A compiled boolean expression.
#[derive(Debug)]
pub enum Ast {
    Pred(Predicate),
    Not(Box<Ast>),
    And(Box<Ast>, Box<Ast>),
    Or(Box<Ast>, Box<Ast>),
}

/// The mathematical model of a compiled expression.
pub ghost enum AstS {
    Pred(PredicateS),
    Not(Box<AstS>),
    And(Box<AstS>, Box<AstS>),
    Or(Box<AstS>, Box<AstS>),
}

impl View for Ast {
    type V = AstS;

    open spec fn view(&self) -> AstS
        decreases self,
    {
        match *self {
            Ast::Pred(ref p) => AstS::Pred(p@),
            Ast::Not(ref c) => AstS::Not(Box::new((**c)@)),
            Ast::And(ref l, ref r) => AstS::And(Box::new((**l)@), Box::new((**r)@)),
            Ast::Or(ref l, ref r) => AstS::Or(Box::new((**l)@), Box::new((**r)@)),
        }
    }
}

/// Three-valued negation: unknown stays unknown.
pub open spec fn neg3(x: Option<bool>) -> Option<bool> {
    match x {
        Some(b) => Some(!b),
        None => None,
    }
}

/// Three-valued conjunction: false dominates, unknown is contagious otherwise.
pub open spec fn and3(x: Option<bool>, y: Option<bool>) -> Option<bool> {
    if x == Some(false) || y == Some(false) {
        Some(false)
    } else if x == Some(true) && y == Some(true) {
        Some(true)
    } else {
        None
    }
}

/// Three-valued disjunction: true dominates, unknown is contagious otherwise.
pub open spec fn or3(x: Option<bool>, y: Option<bool>) -> Option<bool> {
    if x == Some(true) || y == Some(true) {
        Some(true)
    } else if x == Some(false) && y == Some(false) {
        Some(false)
    } else {
        None
    }
}

pub open spec fn apply_eq_int(op: EqOp, v: i64, x: i64) -> bool {
    match op {
        EqOp::Eq => v == x,
        EqOp::Ne => v != x,
    }
}

pub open spec fn apply_eq_bytes(op: EqOp, v: Seq<u8>, x: Seq<u8>) -> bool {
    match op {
        EqOp::Eq => v == x,
        EqOp::Ne => v != x,
    }
}

pub open spec fn apply_eq_dec(op: EqOp, v: Decimal, x: Decimal) -> bool {
    match op {
        EqOp::Eq => dec_eq(v, x),
        EqOp::Ne => !dec_eq(v, x),
    }
}

pub open spec fn apply_cmp_int(op: CmpOp, v: i64, x: i64) -> bool {
    match op {
        CmpOp::Lt => v < x,
        CmpOp::Le => v <= x,
        CmpOp::Gt => v > x,
        CmpOp::Ge => v >= x,
    }
}

pub open spec fn apply_cmp_dec(op: CmpOp, v: Decimal, x: Decimal) -> bool {
    match op {
        CmpOp::Lt => dec_lt(v, x),
        CmpOp::Le => !dec_lt(x, v),
        CmpOp::Gt => dec_lt(x, v),
        CmpOp::Ge => !dec_lt(v, x),
    }
}

pub open spec fn seq_contains_bytes(l: Seq<Seq<u8>>, v: Seq<u8>) -> bool {
    exists|k: int| 0 <= k < l.len() && l[k] == v
}

/// Membership of an integer event value in a literal list.
pub open spec fn apply_set_int(op: SetOp, v: i64, l: Seq<i64>) -> bool {
    match op {
        SetOp::In => int_seq_contains(l, v),
        SetOp::NotIn => !int_seq_contains(l, v),
    }
}

pub open spec fn apply_set_bytes(op: SetOp, v: Seq<u8>, l: Seq<Seq<u8>>) -> bool {
    match op {
        SetOp::In => seq_contains_bytes(l, v),
        SetOp::NotIn => !seq_contains_bytes(l, v),
    }
}

/// Containment of an integer-list event value against a literal list:
/// `OneOf` is a non-empty intersection, `AllOf` is inclusion of the event's
/// list in the literal list, `NoneOf` is an empty intersection.
pub open spec fn apply_list_int(op: ListOp, v: Seq<i64>, l: Seq<i64>) -> bool {
    match op {
        ListOp::OneOf => exists|k: int| 0 <= k < v.len() && int_seq_contains(l, v[k]),
        ListOp::NoneOf => !(exists|k: int| 0 <= k < v.len() && int_seq_contains(l, v[k])),
        ListOp::AllOf => forall|k: int| 0 <= k < v.len() ==> int_seq_contains(l, v[k]),
    }
}

pub open spec fn apply_list_bytes(op: ListOp, v: Seq<Seq<u8>>, l: Seq<Seq<u8>>) -> bool {
    match op {
        ListOp::OneOf => exists|k: int| 0 <= k < v.len() && seq_contains_bytes(l, v[k]),
        ListOp::NoneOf => !(exists|k: int| 0 <= k < v.len() && seq_contains_bytes(l, v[k])),
        ListOp::AllOf => forall|k: int| 0 <= k < v.len() ==> seq_contains_bytes(l, v[k]),
    }
}

/// The value of one predicate against an event: `None` when the attribute is
/// absent, undefined, or carries a value of another type than the predicate
/// was compiled for.
pub open spec fn eval_pred(p: PredicateS, ev: Seq<EventValueS>) -> Option<bool> {
    if p.attr >= ev.len() {
        None
    } else {
        match (p.kind, ev[p.attr as int]) {
            (PredKindS::Variable, EventValueS::Boolean(b)) => Some(b),
            (PredKindS::IntEquality(op, x), EventValueS::Integer(v)) => Some(
                apply_eq_int(op, v, x),
            ),
            (PredKindS::DecEquality(op, x), EventValueS::Float(v)) => Some(apply_eq_dec(op, v, x)),
            (PredKindS::StrEquality(op, x), EventValueS::String(v)) => Some(
                apply_eq_bytes(op, v, x),
            ),
            (PredKindS::IntComparison(op, x), EventValueS::Integer(v)) => Some(
                apply_cmp_int(op, v, x),
            ),
            (PredKindS::DecComparison(op, x), EventValueS::Float(v)) => Some(
                apply_cmp_dec(op, v, x),
            ),
            (PredKindS::IntSet(op, l), EventValueS::Integer(v)) => Some(apply_set_int(op, v, l)),
            (PredKindS::StrSet(op, l), EventValueS::String(v)) => Some(apply_set_bytes(op, v, l)),
            (PredKindS::IntListTest(op, l), EventValueS::IntegerList(v)) => Some(
                apply_list_int(op, v, l),
            ),
            (PredKindS::StrListTest(op, l), EventValueS::StringList(v)) => Some(
                apply_list_bytes(op, v, l),
            ),
            _ => None,
        }
    }
}

/// The three-valued result of a whole expression against an event.
pub open spec fn eval_ast(a: AstS, ev: Seq<EventValueS>) -> Option<bool>
    decreases a,
{
    match a {
        AstS::Pred(p) => eval_pred(p, ev),
        AstS::Not(c) => neg3(eval_ast(*c, ev)),
        AstS::And(l, r) => and3(eval_ast(*l, ev), eval_ast(*r, ev)),
        AstS::Or(l, r) => or3(eval_ast(*l, ev), eval_ast(*r, ev)),
    }
}

/// Whether an expression matches an event: its full three-valued evaluation
/// is known-true.
pub open spec fn matches_event(a: AstS, ev: Seq<EventValueS>) -> bool {
    eval_ast(a, ev) == Some(true)
}

/// Evaluates one predicate against an event's values.
pub fn eval_pred_exec(p: &Predicate, ev: &Vec<EventValue>) -> (r: Option<bool>)
    ensures
        r == eval_pred(p@, crate::values::event_values_view(ev@)),
{
    let ghost evs = crate::values::event_values_view(ev@);
    if p.attr >= ev.len() {
        return None;
    }
    let v = &ev[p.attr];
    proof {
        assert(evs[p.attr as int] == v@);
    }
    match (&p.kind, v) {
        (PredKind::Variable, EventValue::Boolean(b)) => Some(*b),
        (PredKind::IntEquality(op, x), EventValue::Integer(v)) => Some(
            match op {
                EqOp::Eq => *v == *x,
                EqOp::Ne => *v != *x,
            },
        ),
        (PredKind::DecEquality(op, x), EventValue::Float(v)) => {
            let c = dec_cmp(v, x);
            Some(
                match op {
                    EqOp::Eq => c == 0,
                    EqOp::Ne => c != 0,
                },
            )
        },
        (PredKind::StrEquality(op, x), EventValue::String(v)) => {
            let e = bytes_eq(v.as_slice(), x.as_slice());
            Some(
                match op {
                    EqOp::Eq => e,
                    EqOp::Ne => !e,
                },
            )
        },
        (PredKind::IntComparison(op, x), EventValue::Integer(v)) => Some(
            match op {
                CmpOp::Lt => *v < *x,
                CmpOp::Le => *v <= *x,
                CmpOp::Gt => *v > *x,
                CmpOp::Ge => *v >= *x,
            },
        ),
        (PredKind::DecComparison(op, x), EventValue::Float(v)) => {
            let c = dec_cmp(v, x);
            Some(
                match op {
                    CmpOp::Lt => c == -1,
                    CmpOp::Le => c != 1,
                    CmpOp::Gt => c == 1,
                    CmpOp::Ge => c != -1,
                },
            )
        },
        (PredKind::IntSet(op, l), EventValue::Integer(v)) => {
            let m = int_list_contains(l, *v);
            Some(
                match op {
                    SetOp::In => m,
                    SetOp::NotIn => !m,
                },
            )
        },
        (PredKind::StrSet(op, l), EventValue::String(v)) => {
            let m = bytes_list_contains(l, v.as_slice());
            proof {
                lemma_bytes_list_view_contains(l@, v@);
            }
            Some(
                match op {
                    SetOp::In => m,
                    SetOp::NotIn => !m,
                },
            )
        },
        (PredKind::IntListTest(op, l), EventValue::IntegerList(v)) => Some(
            eval_list_int(*op, v, l),
        ),
        (PredKind::StrListTest(op, l), EventValue::StringList(v)) => Some(
            eval_list_bytes(*op, v, l),
        ),
        _ => None,
    }
}

/// Containment in a list of byte strings agrees with containment in its view.
proof fn lemma_bytes_list_view_contains(l: Seq<Vec<u8>>, v: Seq<u8>)
    ensures
        seq_contains_bytes(bytes_list_view(l), v) == bytes_seq_contains(l, v),
{
    if bytes_seq_contains(l, v) {
        let k = choose|k: int| 0 <= k < l.len() && l[k]@ == v;
        assert(bytes_list_view(l)[k] == v);
    }
    if seq_contains_bytes(bytes_list_view(l), v) {
        let k = choose|k: int| 0 <= k < bytes_list_view(l).len() && bytes_list_view(l)[k] == v;
        assert(l[k]@ == v);
    }
}

/// Evaluates a containment test of an integer-list value against a literal list.
fn eval_list_int(op: ListOp, v: &Vec<i64>, l: &Vec<i64>) -> (r: bool)
    ensures
        r == apply_list_int(op, v@, l@),
{
    let mut any: bool = false;
    let mut all: bool = true;
    let mut i: usize = 0;
    while i < v.len()
        invariant
            i <= v.len(),
            any == exists|k: int| 0 <= k < i && int_seq_contains(l@, v@[k]),
            all == forall|k: int| 0 <= k < i ==> int_seq_contains(l@, v@[k]),
        decreases v.len() - i,
    {
        let m = int_list_contains(l, v[i]);
        if m {
            any = true;
        } else {
            all = false;
        }
        i = i + 1;
    }
    match op {
        ListOp::OneOf => any,
        ListOp::NoneOf => !any,
        ListOp::AllOf => all,
    }
}

/// Evaluates a containment test of a string-list value against a literal list.
fn eval_list_bytes(op: ListOp, v: &Vec<Vec<u8>>, l: &Vec<Vec<u8>>) -> (r: bool)
    ensures
        r == apply_list_bytes(op, bytes_list_view(v@), bytes_list_view(l@)),
{
    let ghost vv = bytes_list_view(v@);
    let ghost lv = bytes_list_view(l@);
    let mut any: bool = false;
    let mut all: bool = true;
    let mut i: usize = 0;
    while i < v.len()
        invariant
            i <= v.len(),
            vv == bytes_list_view(v@),
            lv == bytes_list_view(l@),
            any == exists|k: int| 0 <= k < i && seq_contains_bytes(lv, vv[k]),
            all == forall|k: int| 0 <= k < i ==> seq_contains_bytes(lv, vv[k]),
        decreases v.len() - i,
    {
        let m = bytes_list_contains(l, v[i].as_slice());
        proof {
            lemma_bytes_list_view_contains(l@, v@[i as int]@);
            assert(vv[i as int] == v@[i as int]@);
        }
        if m {
            any = true;
        } else {
            all = false;
        }
        i = i + 1;
    }
    match op {
        ListOp::OneOf => any,
        ListOp::NoneOf => !any,
        ListOp::AllOf => all,
    }
}

} // verus!
