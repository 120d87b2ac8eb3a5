//! The expression compiler: text to a typed [`Ast`], validated against the
//! schema.
//!
//! Grammar, loosest first: `or` over `and` over unary `not` over primaries;
//! a primary is a parenthesized expression or one predicate
//! `attribute OP literal`. Keywords (`and`, `or`, `not`, `in`, `one of`,
//! `none of`, `all of`, `true`, `false`) are case-insensitive; `&&`, `||`
//! and `!` are accepted too. Equality is written `=` or `==`, inequality
//! `<>` or `!=`; ordering is `<  <=  >  >=`; a bare boolean attribute is a
//! predicate by itself. Strings are quoted with `"` or `'`; lists are
//! bracketed with `[]` or `()` and comma-separated. Numbers with a decimal
//! point are exact decimals (mantissa and scale).
//!
//! List literals are kept exactly as written: they are not sorted and
//! duplicates are not removed, so two lists with the same members in another
//! order are distinct literals for structural sharing, though they test the
//! same way. The grammar is closed: null- or emptiness-tests and reversed
//! comparisons (`literal OP attribute`) are not part of it, since an
//! undefined attribute must satisfy no predicate at all.
//!
//! Compilation fails with `Parse` on malformed syntax, `UnknownAttribute` on
//! a name outside the schema, and `Type` when an operator or literal does not
//! fit the attribute's declared type; it never partially succeeds. The whole
//! compiler is mirrored by the mathematical function [`spec_compile`]:
//! [`compile`] succeeds exactly when it yields an expression, and returns
//! exactly that expression, so one text always denotes one tree.

use vstd::prelude::*;
use vstd::string::StringSliceAdditionalSpecFns;
use crate::ast::{Ast, AstS, CmpOp, EqOp, ListOp, PredKind, PredKindS, Predicate, PredicateS, SetOp};
use crate::decimal::Decimal;
use crate::errors::AtreeError;
use crate::schema::AttributeTable;
use crate::values::AtreeAttributeType;

verus! {

/// One lexical token of the expression language.
pub enum Token {
    LParen,
    RParen,
    LBracket,
    RBracket,
    Comma,
    Lt,
    Le,
    Gt,
    Ge,
    EqT,
    NeT,
    AndT,
    OrT,
    NotT,
    InT,
    NotInT,
    OneOfT,
    NoneOfT,
    AllOfT,
    IntLit(i64),
    FloatLit(Decimal),
    StrLit(Vec<u8>),
    BoolLit(bool),
    Ident(Vec<u8>),
}


/// The mathematical model of a token, over sequences.
pub ghost enum TokenS {
    LParen,
    RParen,
    LBracket,
    RBracket,
    Comma,
    Lt,
    Le,
    Gt,
    Ge,
    EqT,
    NeT,
    AndT,
    OrT,
    NotT,
    InT,
    NotInT,
    OneOfT,
    NoneOfT,
    AllOfT,
    IntLit(i64),
    FloatLit(Decimal),
    StrLit(Seq<u8>),
    BoolLit(bool),
    Ident(Seq<u8>),
}

impl View for Token {
    type V = TokenS;

    open spec fn view(&self) -> TokenS {
        match *self {
            Token::LParen => TokenS::LParen,
            Token::RParen => TokenS::RParen,
            Token::LBracket => TokenS::LBracket,
            Token::RBracket => TokenS::RBracket,
            Token::Comma => TokenS::Comma,
            Token::Lt => TokenS::Lt,
            Token::Le => TokenS::Le,
            Token::Gt => TokenS::Gt,
            Token::Ge => TokenS::Ge,
            Token::EqT => TokenS::EqT,
            Token::NeT => TokenS::NeT,
            Token::AndT => TokenS::AndT,
            Token::OrT => TokenS::OrT,
            Token::NotT => TokenS::NotT,
            Token::InT => TokenS::InT,
            Token::NotInT => TokenS::NotInT,
            Token::OneOfT => TokenS::OneOfT,
            Token::NoneOfT => TokenS::NoneOfT,
            Token::AllOfT => TokenS::AllOfT,
            Token::IntLit(v) => TokenS::IntLit(v),
            Token::FloatLit(d) => TokenS::FloatLit(d),
            Token::StrLit(ref b) => TokenS::StrLit(b@),
            Token::BoolLit(b) => TokenS::BoolLit(b),
            Token::Ident(ref b) => TokenS::Ident(b@),
        }
    }
}

/// The view of a token sequence.
pub open spec fn toks_view(ts: Seq<Token>) -> Seq<TokenS> {
    ts.map_values(|t: Token| t@)
}

// --- the lexer, as a mathematical function ---

pub open spec fn sp_lower(b: u8) -> u8 {
    if 65 <= b <= 90 {
        (b + 32) as u8
    } else {
        b
    }
}

pub open spec fn sp_is_space(b: u8) -> bool {
    b == 32 || b == 9 || b == 10 || b == 13 || b == 12
}

pub open spec fn sp_is_digit(b: u8) -> bool {
    48 <= b <= 57
}

pub open spec fn sp_is_ident_start(b: u8) -> bool {
    (97 <= b <= 122) || (65 <= b <= 90) || b == 95
}

pub open spec fn sp_is_ident_byte(b: u8) -> bool {
    sp_is_ident_start(b) || sp_is_digit(b) || b == 45
}

/// The word, lower-cased.
pub open spec fn sp_lower_seq(w: Seq<u8>) -> Seq<u8> {
    w.map_values(|b: u8| sp_lower(b))
}

/// The first index at or after `i` that is not whitespace.
pub open spec fn sp_skip_space(s: Seq<u8>, i: int) -> int
    decreases s.len() - i,
{
    if 0 <= i < s.len() && sp_is_space(s[i]) {
        sp_skip_space(s, i + 1)
    } else {
        i
    }
}

/// The first index at or after `i` that is not an identifier byte.
pub open spec fn sp_skip_ident(s: Seq<u8>, i: int) -> int
    decreases s.len() - i,
{
    if 0 <= i < s.len() && sp_is_ident_byte(s[i]) {
        sp_skip_ident(s, i + 1)
    } else {
        i
    }
}

/// A digit run folded into a magnitude, failing past the signed 64-bit range.
pub open spec fn sp_scan_digits(s: Seq<u8>, i: int, acc: u64) -> Option<(u64, int)>
    decreases s.len() - i,
{
    if acc > 0x8000_0000_0000_0000u64 {
        None
    } else if 0 <= i < s.len() && sp_is_digit(s[i]) {
        let d = (s[i] - 48) as u64;
        if acc > ((0x8000_0000_0000_0000u64 - d) as u64) / 10 {
            None
        } else {
            sp_scan_digits(s, i + 1, (acc * 10 + d) as u64)
        }
    } else {
        Some((acc, i))
    }
}

/// A magnitude given its sign, failing outside the signed 64-bit range.
pub open spec fn sp_signed(mag: u64, neg: bool) -> Option<i64> {
    if neg {
        if mag > 0x8000_0000_0000_0000u64 {
            None
        } else if mag == 0x8000_0000_0000_0000u64 {
            Some(i64::MIN)
        } else {
            Some((-(mag as int)) as i64)
        }
    } else {
        if mag >= 0x8000_0000_0000_0000u64 {
            None
        } else {
            Some(mag as i64)
        }
    }
}

/// The bytes of a quoted string from `j` up to the closing quote, with the
/// index just past it; fails if the quote never closes.
pub open spec fn sp_scan_str(s: Seq<u8>, j: int, quote: u8) -> Option<(Seq<u8>, int)>
    decreases s.len() - j,
{
    if !(0 <= j < s.len()) {
        None
    } else if s[j] == quote {
        Some((Seq::empty(), j + 1))
    } else {
        match sp_scan_str(s, j + 1, quote) {
            None => None,
            Some((rest, e)) => Some((seq![s[j]] + rest, e)),
        }
    }
}

pub open spec fn kw_and() -> Seq<u8> {
    seq![97u8, 110u8, 100u8]
}

pub open spec fn kw_or() -> Seq<u8> {
    seq![111u8, 114u8]
}

pub open spec fn kw_not() -> Seq<u8> {
    seq![110u8, 111u8, 116u8]
}

pub open spec fn kw_in() -> Seq<u8> {
    seq![105u8, 110u8]
}

pub open spec fn kw_true() -> Seq<u8> {
    seq![116u8, 114u8, 117u8, 101u8]
}

pub open spec fn kw_false() -> Seq<u8> {
    seq![102u8, 97u8, 108u8, 115u8, 101u8]
}

pub open spec fn kw_one() -> Seq<u8> {
    seq![111u8, 110u8, 101u8]
}

pub open spec fn kw_none() -> Seq<u8> {
    seq![110u8, 111u8, 110u8, 101u8]
}

pub open spec fn kw_all() -> Seq<u8> {
    seq![97u8, 108u8, 108u8]
}

pub open spec fn kw_of() -> Seq<u8> {
    seq![111u8, 102u8]
}

/// The token starting at byte `i` (`None` inside the pair for skipped
/// whitespace) and the index just past it, or `None` on a lexical error.
pub open spec fn sp_next_token(s: Seq<u8>, i: int) -> Option<(Option<TokenS>, int)> {
    let b = s[i];
    if sp_is_space(b) {
        Some((None, i + 1))
    } else if b == 40 {
        Some((Some(TokenS::LParen), i + 1))
    } else if b == 41 {
        Some((Some(TokenS::RParen), i + 1))
    } else if b == 91 {
        Some((Some(TokenS::LBracket), i + 1))
    } else if b == 93 {
        Some((Some(TokenS::RBracket), i + 1))
    } else if b == 44 {
        Some((Some(TokenS::Comma), i + 1))
    } else if b == 60 {
        if i + 1 < s.len() && s[i + 1] == 61 {
            Some((Some(TokenS::Le), i + 2))
        } else if i + 1 < s.len() && s[i + 1] == 62 {
            Some((Some(TokenS::NeT), i + 2))
        } else {
            Some((Some(TokenS::Lt), i + 1))
        }
    } else if b == 62 {
        if i + 1 < s.len() && s[i + 1] == 61 {
            Some((Some(TokenS::Ge), i + 2))
        } else {
            Some((Some(TokenS::Gt), i + 1))
        }
    } else if b == 61 {
        if i + 1 < s.len() && s[i + 1] == 61 {
            Some((Some(TokenS::EqT), i + 2))
        } else {
            Some((Some(TokenS::EqT), i + 1))
        }
    } else if b == 33 {
        if i + 1 < s.len() && s[i + 1] == 61 {
            Some((Some(TokenS::NeT), i + 2))
        } else {
            Some((Some(TokenS::NotT), i + 1))
        }
    } else if b == 38 {
        if i + 1 < s.len() && s[i + 1] == 38 {
            Some((Some(TokenS::AndT), i + 2))
        } else {
            None
        }
    } else if b == 124 {
        if i + 1 < s.len() && s[i + 1] == 124 {
            Some((Some(TokenS::OrT), i + 2))
        } else {
            None
        }
    } else if b == 34 || b == 39 {
        match sp_scan_str(s, i + 1, b) {
            None => None,
            Some((lit, e)) => Some((Some(TokenS::StrLit(lit)), e)),
        }
    } else if b == 45 || sp_is_digit(b) {
        let neg = b == 45;
        let d0 = if neg {
            i + 1
        } else {
            i
        };
        if !(d0 < s.len() && sp_is_digit(s[d0])) {
            None
        } else {
            match sp_scan_digits(s, d0, 0) {
                None => None,
                Some((mag, j)) => if j < s.len() && s[j] == 46 {
                    if neg {
                        None
                    } else {
                        match sp_scan_digits(s, j + 1, mag) {
                            None => None,
                            Some((mant, j2)) => if j2 - (j + 1) > 0xffff_ffffusize as int {
                                None
                            } else {
                                match sp_signed(mant, false) {
                                    None => None,
                                    Some(m) => Some(
                                        (
                                            Some(
                                                TokenS::FloatLit(
                                                    Decimal {
                                                        mantissa: m,
                                                        scale: (j2 - (j + 1)) as u32,
                                                    },
                                                ),
                                            ),
                                            j2,
                                        ),
                                    ),
                                }
                            },
                        }
                    }
                } else {
                    match sp_signed(mag, neg) {
                        None => None,
                        Some(v) => Some((Some(TokenS::IntLit(v)), j)),
                    }
                },
            }
        }
    } else if sp_is_ident_start(b) {
        let j = sp_skip_ident(s, i + 1);
        let w = sp_lower_seq(s.subrange(i, j));
        let p = sp_skip_space(s, j);
        let q = sp_skip_ident(s, p);
        let nw = sp_lower_seq(s.subrange(p, q));
        if w == kw_and() {
            Some((Some(TokenS::AndT), j))
        } else if w == kw_or() {
            Some((Some(TokenS::OrT), j))
        } else if w == kw_not() {
            if nw == kw_in() {
                Some((Some(TokenS::NotInT), q))
            } else {
                Some((Some(TokenS::NotT), j))
            }
        } else if w == kw_in() {
            Some((Some(TokenS::InT), j))
        } else if w == kw_true() {
            Some((Some(TokenS::BoolLit(true)), j))
        } else if w == kw_false() {
            Some((Some(TokenS::BoolLit(false)), j))
        } else if w == kw_one() && nw == kw_of() {
            Some((Some(TokenS::OneOfT), q))
        } else if w == kw_none() && nw == kw_of() {
            Some((Some(TokenS::NoneOfT), q))
        } else if w == kw_all() && nw == kw_of() {
            Some((Some(TokenS::AllOfT), q))
        } else {
            Some((Some(TokenS::Ident(s.subrange(i, j))), j))
        }
    } else {
        None
    }
}

/// The token sequence of the text from byte `i` on, or `None` on a lexical
/// error.
pub open spec fn sp_tokenize(s: Seq<u8>, i: int) -> Option<Seq<TokenS>>
    decreases s.len() - i,
{
    if !(0 <= i < s.len()) {
        Some(Seq::empty())
    } else {
        match sp_next_token(s, i) {
            None => None,
            Some((t, j)) => if j <= i || j > s.len() {
                None
            } else {
                match sp_tokenize(s, j) {
                    None => None,
                    Some(rest) => Some(
                        match t {
                            Some(tok) => seq![tok] + rest,
                            None => rest,
                        },
                    ),
                }
            },
        }
    }
}

/// A predicate is well typed when its attribute exists and its test fits the
/// attribute's declared type.
pub open spec fn pred_wf(p: PredicateS, schema: AttributeTable) -> bool {
    &&& (p.attr as int) < schema.defs@.len()
    &&& match p.kind {
        PredKindS::Variable => schema.defs@[p.attr as int].kind == AtreeAttributeType::Boolean,
        PredKindS::IntEquality(_, _) => schema.defs@[p.attr as int].kind
            == AtreeAttributeType::Integer,
        PredKindS::DecEquality(_, _) => schema.defs@[p.attr as int].kind
            == AtreeAttributeType::Float,
        PredKindS::StrEquality(_, _) => schema.defs@[p.attr as int].kind
            == AtreeAttributeType::String,
        PredKindS::IntComparison(_, _) => schema.defs@[p.attr as int].kind
            == AtreeAttributeType::Integer,
        PredKindS::DecComparison(_, _) => schema.defs@[p.attr as int].kind
            == AtreeAttributeType::Float,
        PredKindS::IntSet(_, _) => schema.defs@[p.attr as int].kind
            == AtreeAttributeType::Integer,
        PredKindS::StrSet(_, _) => schema.defs@[p.attr as int].kind == AtreeAttributeType::String,
        PredKindS::IntListTest(_, _) => schema.defs@[p.attr as int].kind
            == AtreeAttributeType::IntegerList,
        PredKindS::StrListTest(_, _) => schema.defs@[p.attr as int].kind
            == AtreeAttributeType::StringList,
    }
}

/// An expression is well typed when every leaf predicate is.
pub open spec fn ast_wf(a: AstS, schema: AttributeTable) -> bool
    decreases a,
{
    match a {
        AstS::Pred(p) => pred_wf(p, schema),
        AstS::Not(c) => ast_wf(*c, schema),
        AstS::And(l, r) => ast_wf(*l, schema) && ast_wf(*r, schema),
        AstS::Or(l, r) => ast_wf(*l, schema) && ast_wf(*r, schema),
    }
}

/// ASCII lower-casing of one byte.
fn lower(b: u8) -> (r: u8)
    ensures
        r == sp_lower(b),
{
    if b >= 65 && b <= 90 {
        b + 32
    } else {
        b
    }
}

/// Whether the word, lower-cased, equals the keyword.
fn word_is(w: &Vec<u8>, kw: &[u8]) -> (r: bool)
    ensures
        r == (sp_lower_seq(w@) == kw@),
{
    if w.len() != kw.len() {
        proof {
            assert(sp_lower_seq(w@).len() == w@.len());
        }
        return false;
    }
    let mut k: usize = 0;
    while k < w.len()
        invariant
            k <= w.len(),
            w@.len() == kw@.len(),
            forall|p: int| 0 <= p < k ==> sp_lower_seq(w@)[p] == kw@[p],
        decreases w.len() - k,
    {
        if lower(w[k]) != kw[k] {
            proof {
                assert(sp_lower_seq(w@)[k as int] == sp_lower(w@[k as int]));
            }
            return false;
        }
        proof {
            assert(sp_lower_seq(w@)[k as int] == sp_lower(w@[k as int]));
        }
        k = k + 1;
    }
    proof {
        assert(sp_lower_seq(w@) =~= kw@);
    }
    true
}

fn is_ident_start(b: u8) -> (r: bool)
    ensures
        r == sp_is_ident_start(b),
{
    (b >= 97 && b <= 122) || (b >= 65 && b <= 90) || b == 95
}

fn is_ident_byte(b: u8) -> (r: bool)
    ensures
        r == sp_is_ident_byte(b),
{
    is_ident_start(b) || (b >= 48 && b <= 57) || b == 45
}

fn is_digit(b: u8) -> (r: bool)
    ensures
        r == sp_is_digit(b),
{
    b >= 48 && b <= 57
}

fn is_space(b: u8) -> (r: bool)
    ensures
        r == sp_is_space(b),
{
    b == 32 || b == 9 || b == 10 || b == 13 || b == 12
}

/// Reads a run of digits starting at `i`, accumulating a non-negative
/// mantissa; fails on overflow of a signed 64-bit magnitude.
fn scan_digits(s: &[u8], i: usize, acc0: u64) -> (r: Result<(u64, usize), AtreeError>)
    requires
        i <= s@.len(),
    ensures
        r matches Ok((m, j)) ==> i <= j <= s@.len() && m <= 0x8000_0000_0000_0000u64 && (j == i
            ==> i >= s@.len() || !(48 <= s@[i as int] <= 57)),
        r matches Err(e) ==> e is Parse,
        match r {
            Ok((m, j)) => sp_scan_digits(s@, i as int, acc0) == Some((m, j as int)),
            Err(_) => sp_scan_digits(s@, i as int, acc0) is None,
        },
{
    let mut acc: u64 = acc0;
    if acc > 0x8000_0000_0000_0000u64 {
        return Err(AtreeError::Parse(i));
    }
    let mut j: usize = i;
    while j < s.len() && is_digit(s[j])
        invariant
            i <= j <= s@.len(),
            acc <= 0x8000_0000_0000_0000u64,
            sp_scan_digits(s@, i as int, acc0) == sp_scan_digits(s@, j as int, acc),
        decreases s@.len() - j,
    {
        let d: u64 = (s[j] - 48) as u64;
        if acc > (0x8000_0000_0000_0000u64 - d) / 10 {
            return Err(AtreeError::Parse(j));
        }
        proof {
            assert(acc * 10 + d <= 0x8000_0000_0000_0000u64) by (nonlinear_arith)
                requires
                    acc <= ((0x8000_0000_0000_0000u64 - d) as u64) / 10,
                    d <= 9,
            ;
        }
        acc = acc * 10 + d;
        j = j + 1;
    }
    Ok((acc, j))
}

/// Turns a non-negative magnitude into a signed value, honouring the sign.
fn signed_of(mag: u64, neg: bool, at: usize) -> (r: Result<i64, AtreeError>)
    ensures
        r matches Err(e) ==> e is Parse,
        match r {
            Ok(v) => sp_signed(mag, neg) == Some(v),
            Err(_) => sp_signed(mag, neg) is None,
        },
{
    if neg {
        if mag > 0x8000_0000_0000_0000u64 {
            Err(AtreeError::Parse(at))
        } else if mag == 0x8000_0000_0000_0000u64 {
            Ok(i64::MIN)
        } else {
            Ok(-(mag as i64))
        }
    } else {
        if mag >= 0x8000_0000_0000_0000u64 {
            Err(AtreeError::Parse(at))
        } else {
            Ok(mag as i64)
        }
    }
}

/// No closing quote in sight: the scan fails.
proof fn lemma_scan_str_none(s: Seq<u8>, j: int, quote: u8)
    requires
        0 <= j <= s.len(),
        forall|k: int| j <= k < s.len() ==> s[k] != quote,
    ensures
        sp_scan_str(s, j, quote) is None,
    decreases s.len() - j,
{
    if j < s.len() {
        lemma_scan_str_none(s, j + 1, quote);
    }
}

/// A quote at `e` closing a run without quotes yields exactly that run.
proof fn lemma_scan_str_found(s: Seq<u8>, j: int, e: int, quote: u8)
    requires
        0 <= j <= e < s.len(),
        forall|k: int| j <= k < e ==> s[k] != quote,
        s[e] == quote,
    ensures
        sp_scan_str(s, j, quote) == Some((s.subrange(j, e), e + 1)),
    decreases e - j,
{
    if j == e {
        assert(s.subrange(j, e) =~= Seq::<u8>::empty());
    } else {
        lemma_scan_str_found(s, j + 1, e, quote);
        assert(seq![s[j]] + s.subrange(j + 1, e) =~= s.subrange(j, e));
    }
}

/// Splits the expression text into tokens; `Parse` errors carry the byte
/// offset of the first offending character. The result is exactly the
/// mathematical tokenization [`sp_tokenize`] of the bytes.
pub(crate) fn tokenize(s: &[u8]) -> (r: Result<Vec<Token>, AtreeError>)
    ensures
        r matches Err(e) ==> e is Parse,
        match r {
            Ok(toks) => sp_tokenize(s@, 0) == Some(toks_view(toks@)),
            Err(_) => sp_tokenize(s@, 0) is None,
        },
{
    let mut out: Vec<Token> = Vec::new();
    let mut i: usize = 0;
    let n = s.len();
    while i < n
        invariant
            i <= n,
            n == s@.len(),
            match sp_tokenize(s@, i as int) {
                Some(rest) => sp_tokenize(s@, 0) == Some(toks_view(out@) + rest),
                None => sp_tokenize(s@, 0) is None,
            },
        decreases n - i,
    {
        let ghost i0 = i as int;
        let ghost out0 = out@;
        let b = s[i];
        let step: (Option<Token>, usize) = if is_space(b) {
            (None, i + 1)
        } else if b == 40 {
            (Some(Token::LParen), i + 1)
        } else if b == 41 {
            (Some(Token::RParen), i + 1)
        } else if b == 91 {
            (Some(Token::LBracket), i + 1)
        } else if b == 93 {
            (Some(Token::RBracket), i + 1)
        } else if b == 44 {
            (Some(Token::Comma), i + 1)
        } else if b == 60 {
            if i + 1 < n && s[i + 1] == 61 {
                (Some(Token::Le), i + 2)
            } else if i + 1 < n && s[i + 1] == 62 {
                (Some(Token::NeT), i + 2)
            } else {
                (Some(Token::Lt), i + 1)
            }
        } else if b == 62 {
            if i + 1 < n && s[i + 1] == 61 {
                (Some(Token::Ge), i + 2)
            } else {
                (Some(Token::Gt), i + 1)
            }
        } else if b == 61 {
            if i + 1 < n && s[i + 1] == 61 {
                (Some(Token::EqT), i + 2)
            } else {
                (Some(Token::EqT), i + 1)
            }
        } else if b == 33 {
            if i + 1 < n && s[i + 1] == 61 {
                (Some(Token::NeT), i + 2)
            } else {
                (Some(Token::NotT), i + 1)
            }
        } else if b == 38 {
            if i + 1 < n && s[i + 1] == 38 {
                (Some(Token::AndT), i + 2)
            } else {
                proof {
                    assert(sp_next_token(s@, i0) is None);
                }
                return Err(AtreeError::Parse(i));
            }
        } else if b == 124 {
            if i + 1 < n && s[i + 1] == 124 {
                (Some(Token::OrT), i + 2)
            } else {
                proof {
                    assert(sp_next_token(s@, i0) is None);
                }
                return Err(AtreeError::Parse(i));
            }
        } else if b == 34 || b == 39 {
            // a quoted string, no escape sequences
            let quote = b;
            let mut j: usize = i + 1;
            let mut lit: Vec<u8> = Vec::new();
            proof {
                assert(lit@ =~= s@.subrange(i0 + 1, i0 + 1));
            }
            while j < n && s[j] != quote
                invariant
                    i0 == i as int,
                    i + 1 <= j <= n,
                    n == s@.len(),
                    quote == s@[i0],
                    lit@ == s@.subrange(i0 + 1, j as int),
                    forall|k: int| i0 + 1 <= k < j ==> s@[k] != quote,
                decreases n - j,
            {
                let ghost lit0 = lit@;
                lit.push(s[j]);
                proof {
                    assert(lit@ == lit0.push(s@[j as int]));
                    assert(lit@ =~= s@.subrange(i0 + 1, j + 1));
                }
                j = j + 1;
            }
            if j >= n {
                proof {
                    lemma_scan_str_none(s@, i0 + 1, quote);
                    assert(sp_next_token(s@, i0) is None);
                }
                return Err(AtreeError::Parse(i));
            }
            proof {
                lemma_scan_str_found(s@, i0 + 1, j as int, quote);
            }
            (Some(Token::StrLit(lit)), j + 1)
        } else if b == 45 || is_digit(b) {
            let neg = b == 45;
            let start = i;
            let d0: usize = if neg {
                i + 1
            } else {
                i
            };
            if d0 >= n || !is_digit(s[d0]) {
                proof {
                    assert(sp_next_token(s@, i0) is None);
                }
                return Err(AtreeError::Parse(i));
            }
            let (mag, j) = match scan_digits(s, d0, 0) {
                Ok(v) => v,
                Err(e) => {
                    proof {
                        assert(sp_next_token(s@, i0) is None);
                    }
                    return Err(e);
                },
            };
            if j < n && s[j] == 46 {
                // a decimal literal; the sign is not part of the grammar
                if neg {
                    proof {
                        assert(sp_next_token(s@, i0) is None);
                    }
                    return Err(AtreeError::Parse(start));
                }
                let (mant, j2) = match scan_digits(s, j + 1, mag) {
                    Ok(v) => v,
                    Err(e) => {
                        proof {
                            assert(sp_next_token(s@, i0) is None);
                        }
                        return Err(e);
                    },
                };
                if j2 - (j + 1) > 0xffff_ffffusize {
                    proof {
                        assert(sp_next_token(s@, i0) is None);
                    }
                    return Err(AtreeError::Parse(j));
                }
                let scale: u32 = (j2 - (j + 1)) as u32;
                let m = match signed_of(mant, false, j) {
                    Ok(v) => v,
                    Err(e) => {
                        proof {
                            assert(sp_next_token(s@, i0) is None);
                        }
                        return Err(e);
                    },
                };
                (Some(Token::FloatLit(Decimal { mantissa: m, scale })), j2)
            } else {
                let v = match signed_of(mag, neg, start) {
                    Ok(v) => v,
                    Err(e) => {
                        proof {
                            assert(sp_next_token(s@, i0) is None);
                        }
                        return Err(e);
                    },
                };
                (Some(Token::IntLit(v)), j)
            }
        } else if is_ident_start(b) {
            let mut j: usize = i + 1;
            while j < n && is_ident_byte(s[j])
                invariant
                    i0 == i as int,
                    i + 1 <= j <= n,
                    n == s@.len(),
                    sp_skip_ident(s@, i0 + 1) == sp_skip_ident(s@, j as int),
                decreases n - j,
            {
                j = j + 1;
            }
            proof {
                assert(sp_skip_ident(s@, i0 + 1) == j);
            }
            let mut word: Vec<u8> = Vec::new();
            let mut k: usize = i;
            proof {
                assert(word@ =~= s@.subrange(i0, i0));
            }
            while k < j
                invariant
                    i0 == i as int,
                    i <= k <= j <= n,
                    n == s@.len(),
                    word@ == s@.subrange(i0, k as int),
                decreases j - k,
            {
                let ghost word0 = word@;
                word.push(s[k]);
                proof {
                    assert(word@ == word0.push(s@[k as int]));
                    assert(word@ =~= s@.subrange(i0, k + 1));
                }
                k = k + 1;
            }
            // peek the following word, for the two-word operators
            let mut p: usize = j;
            while p < n && is_space(s[p])
                invariant
                    j <= p <= n,
                    n == s@.len(),
                    sp_skip_space(s@, j as int) == sp_skip_space(s@, p as int),
                decreases n - p,
            {
                p = p + 1;
            }
            proof {
                assert(sp_skip_space(s@, j as int) == p);
            }
            let mut q: usize = p;
            while q < n && is_ident_byte(s[q])
                invariant
                    p <= q <= n,
                    n == s@.len(),
                    sp_skip_ident(s@, p as int) == sp_skip_ident(s@, q as int),
                decreases n - q,
            {
                q = q + 1;
            }
            proof {
                assert(sp_skip_ident(s@, p as int) == q);
            }
            let mut next_word: Vec<u8> = Vec::new();
            let mut k2: usize = p;
            proof {
                assert(next_word@ =~= s@.subrange(p as int, p as int));
            }
            while k2 < q
                invariant
                    p <= k2 <= q <= n,
                    n == s@.len(),
                    next_word@ == s@.subrange(p as int, k2 as int),
                decreases q - k2,
            {
                let ghost nw0 = next_word@;
                next_word.push(s[k2]);
                proof {
                    assert(next_word@ == nw0.push(s@[k2 as int]));
                    assert(next_word@ =~= s@.subrange(p as int, k2 + 1));
                }
                k2 = k2 + 1;
            }
            proof {
                assert(kw_of() =~= [111u8, 102u8]@);
                assert(kw_in() =~= [105u8, 110u8]@);
                assert(kw_and() =~= [97u8, 110u8, 100u8]@);
                assert(kw_or() =~= [111u8, 114u8]@);
                assert(kw_not() =~= [110u8, 111u8, 116u8]@);
                assert(kw_true() =~= [116u8, 114u8, 117u8, 101u8]@);
                assert(kw_false() =~= [102u8, 97u8, 108u8, 115u8, 101u8]@);
                assert(kw_one() =~= [111u8, 110u8, 101u8]@);
                assert(kw_none() =~= [110u8, 111u8, 110u8, 101u8]@);
                assert(kw_all() =~= [97u8, 108u8, 108u8]@);
            }
            let next_is_of = word_is(&next_word, &[111u8, 102u8]);
            let next_is_in = word_is(&next_word, &[105u8, 110u8]);
            if word_is(&word, &[97u8, 110u8, 100u8]) {
                (Some(Token::AndT), j)
            } else if word_is(&word, &[111u8, 114u8]) {
                (Some(Token::OrT), j)
            } else if word_is(&word, &[110u8, 111u8, 116u8]) {
                if next_is_in {
                    (Some(Token::NotInT), q)
                } else {
                    (Some(Token::NotT), j)
                }
            } else if word_is(&word, &[105u8, 110u8]) {
                (Some(Token::InT), j)
            } else if word_is(&word, &[116u8, 114u8, 117u8, 101u8]) {
                (Some(Token::BoolLit(true)), j)
            } else if word_is(&word, &[102u8, 97u8, 108u8, 115u8, 101u8]) {
                (Some(Token::BoolLit(false)), j)
            } else if word_is(&word, &[111u8, 110u8, 101u8]) && next_is_of {
                (Some(Token::OneOfT), q)
            } else if word_is(&word, &[110u8, 111u8, 110u8, 101u8]) && next_is_of {
                (Some(Token::NoneOfT), q)
            } else if word_is(&word, &[97u8, 108u8, 108u8]) && next_is_of {
                (Some(Token::AllOfT), q)
            } else {
                (Some(Token::Ident(word)), j)
            }
        } else {
            proof {
                assert(sp_next_token(s@, i0) is None);
            }
            return Err(AtreeError::Parse(i));
        };
        let (tk, ni) = step;
        proof {
            let tks: Option<TokenS> = match tk {
                Some(ref t) => Some(t@),
                None => None,
            };
            assert(sp_next_token(s@, i0) == Some((tks, ni as int)));
            assert(i0 < ni <= s@.len());
        }
        match tk {
            Some(t) => {
                out.push(t);
                proof {
                    assert(toks_view(out@) =~= toks_view(out0).push(out@[out@.len() - 1]@));
                    match sp_tokenize(s@, ni as int) {
                        Some(rest) => {
                            assert(toks_view(out0) + (seq![out@[out@.len() - 1]@] + rest)
                                =~= toks_view(out@) + rest);
                        },
                        None => {},
                    }
                }
            },
            None => {},
        }
        i = ni;
    }
    proof {
        assert(toks_view(out@) + Seq::<TokenS>::empty() =~= toks_view(out@));
    }
    Ok(out)
}

/// The literals a bracketed list can hold.
pub enum ListLit {
    Ints(Vec<i64>),
    Strs(Vec<Vec<u8>>),
}


/// The mathematical model of a literal list.
pub ghost enum ListLitS {
    Ints(Seq<i64>),
    Strs(Seq<Seq<u8>>),
}

impl View for ListLit {
    type V = ListLitS;

    open spec fn view(&self) -> ListLitS {
        match *self {
            ListLit::Ints(ref l) => ListLitS::Ints(l@),
            ListLit::Strs(ref l) => ListLitS::Strs(crate::ast::bytes_list_view(l@)),
        }
    }
}

/// The list a finished scan yields, given what it saw.
pub open spec fn sp_list_fin(ints: Seq<i64>, strs: Seq<Seq<u8>>, any_str: bool) -> ListLitS {
    if any_str {
        ListLitS::Strs(strs)
    } else {
        ListLitS::Ints(ints)
    }
}

/// One step of list scanning after the opening bracket, carrying the items
/// seen so far.
pub open spec fn sp_list_loop(
    ts: Seq<TokenS>,
    j: int,
    ints: Seq<i64>,
    strs: Seq<Seq<u8>>,
    any_int: bool,
    any_str: bool,
    expect: bool,
    paren: bool,
) -> Option<(ListLitS, int)>
    decreases ts.len() - j,
{
    if !(0 <= j < ts.len()) {
        None
    } else {
        match ts[j] {
            TokenS::RBracket => if paren {
                None
            } else {
                Some((sp_list_fin(ints, strs, any_str), j + 1))
            },
            TokenS::RParen => if !paren {
                None
            } else {
                Some((sp_list_fin(ints, strs, any_str), j + 1))
            },
            TokenS::Comma => if expect {
                None
            } else {
                sp_list_loop(ts, j + 1, ints, strs, any_int, any_str, true, paren)
            },
            TokenS::IntLit(v) => if !expect || any_str {
                None
            } else {
                sp_list_loop(ts, j + 1, ints.push(v), strs, true, any_str, false, paren)
            },
            TokenS::StrLit(sv) => if !expect || any_int {
                None
            } else {
                sp_list_loop(ts, j + 1, ints, strs.push(sv), any_int, true, false, paren)
            },
            _ => None,
        }
    }
}

/// A bracketed, comma-separated literal list, as a mathematical function.
pub open spec fn sp_parse_list(ts: Seq<TokenS>, i: int) -> Option<(ListLitS, int)> {
    if !(0 <= i < ts.len()) {
        None
    } else {
        match ts[i] {
            TokenS::LBracket => sp_list_loop(
                ts,
                i + 1,
                Seq::empty(),
                Seq::empty(),
                false,
                false,
                true,
                false,
            ),
            TokenS::LParen => sp_list_loop(
                ts,
                i + 1,
                Seq::empty(),
                Seq::empty(),
                false,
                false,
                true,
                true,
            ),
            _ => None,
        }
    }
}

/// One predicate, as a mathematical function of the tokens and the schema.
pub open spec fn sp_parse_predicate(ts: Seq<TokenS>, schema: AttributeTable, i: int) -> Option<
    (AstS, int),
> {
    if !(0 <= i < ts.len()) {
        None
    } else {
        match ts[i] {
            TokenS::Ident(name) => match schema.sp_index_of(name) {
                None => None,
                Some(attr) => {
                    let declared = schema.defs@[attr].kind;
                    let j = i + 1;
                    let bare = if j >= ts.len() {
                        true
                    } else {
                        match ts[j] {
                            TokenS::EqT | TokenS::NeT | TokenS::Lt | TokenS::Le | TokenS::Gt
                                | TokenS::Ge | TokenS::InT | TokenS::NotInT | TokenS::OneOfT
                                | TokenS::NoneOfT | TokenS::AllOfT => false,
                            _ => true,
                        }
                    };
                    if bare {
                        if declared != AtreeAttributeType::Boolean {
                            None
                        } else {
                            Some(
                                (
                                    AstS::Pred(
                                        PredicateS { attr: attr as usize, kind: PredKindS::Variable },
                                    ),
                                    j,
                                ),
                            )
                        }
                    } else {
                        match ts[j] {
                            TokenS::EqT | TokenS::NeT => {
                                let op = if ts[j] is EqT {
                                    EqOp::Eq
                                } else {
                                    EqOp::Ne
                                };
                                if j + 1 >= ts.len() {
                                    None
                                } else {
                                    match ts[j + 1] {
                                        TokenS::IntLit(v) => if declared
                                            != AtreeAttributeType::Integer {
                                            None
                                        } else {
                                            Some(
                                                (
                                                    AstS::Pred(
                                                        PredicateS {
                                                            attr: attr as usize,
                                                            kind: PredKindS::IntEquality(op, v),
                                                        },
                                                    ),
                                                    j + 2,
                                                ),
                                            )
                                        },
                                        TokenS::FloatLit(d) => if declared
                                            != AtreeAttributeType::Float {
                                            None
                                        } else {
                                            Some(
                                                (
                                                    AstS::Pred(
                                                        PredicateS {
                                                            attr: attr as usize,
                                                            kind: PredKindS::DecEquality(op, d),
                                                        },
                                                    ),
                                                    j + 2,
                                                ),
                                            )
                                        },
                                        TokenS::StrLit(sv) => if declared
                                            != AtreeAttributeType::String {
                                            None
                                        } else {
                                            Some(
                                                (
                                                    AstS::Pred(
                                                        PredicateS {
                                                            attr: attr as usize,
                                                            kind: PredKindS::StrEquality(op, sv),
                                                        },
                                                    ),
                                                    j + 2,
                                                ),
                                            )
                                        },
                                        _ => None,
                                    }
                                }
                            },
                            TokenS::Lt | TokenS::Le | TokenS::Gt | TokenS::Ge => {
                                let op = match ts[j] {
                                    TokenS::Lt => CmpOp::Lt,
                                    TokenS::Le => CmpOp::Le,
                                    TokenS::Gt => CmpOp::Gt,
                                    _ => CmpOp::Ge,
                                };
                                if j + 1 >= ts.len() {
                                    None
                                } else {
                                    match ts[j + 1] {
                                        TokenS::IntLit(v) => if declared
                                            != AtreeAttributeType::Integer {
                                            None
                                        } else {
                                            Some(
                                                (
                                                    AstS::Pred(
                                                        PredicateS {
                                                            attr: attr as usize,
                                                            kind: PredKindS::IntComparison(op, v),
                                                        },
                                                    ),
                                                    j + 2,
                                                ),
                                            )
                                        },
                                        TokenS::FloatLit(d) => if declared
                                            != AtreeAttributeType::Float {
                                            None
                                        } else {
                                            Some(
                                                (
                                                    AstS::Pred(
                                                        PredicateS {
                                                            attr: attr as usize,
                                                            kind: PredKindS::DecComparison(op, d),
                                                        },
                                                    ),
                                                    j + 2,
                                                ),
                                            )
                                        },
                                        _ => None,
                                    }
                                }
                            },
                            TokenS::InT | TokenS::NotInT => {
                                let op = if ts[j] is InT {
                                    SetOp::In
                                } else {
                                    SetOp::NotIn
                                };
                                match sp_parse_list(ts, j + 1) {
                                    None => None,
                                    Some((ListLitS::Ints(l), j2)) => if declared
                                        != AtreeAttributeType::Integer {
                                        None
                                    } else {
                                        Some(
                                            (
                                                AstS::Pred(
                                                    PredicateS {
                                                        attr: attr as usize,
                                                        kind: PredKindS::IntSet(op, l),
                                                    },
                                                ),
                                                j2,
                                            ),
                                        )
                                    },
                                    Some((ListLitS::Strs(l), j2)) => if declared
                                        != AtreeAttributeType::String {
                                        None
                                    } else {
                                        Some(
                                            (
                                                AstS::Pred(
                                                    PredicateS {
                                                        attr: attr as usize,
                                                        kind: PredKindS::StrSet(op, l),
                                                    },
                                                ),
                                                j2,
                                            ),
                                        )
                                    },
                                }
                            },
                            TokenS::OneOfT | TokenS::NoneOfT | TokenS::AllOfT => {
                                let op = match ts[j] {
                                    TokenS::OneOfT => ListOp::OneOf,
                                    TokenS::NoneOfT => ListOp::NoneOf,
                                    _ => ListOp::AllOf,
                                };
                                match sp_parse_list(ts, j + 1) {
                                    None => None,
                                    Some((ListLitS::Ints(l), j2)) => if declared
                                        != AtreeAttributeType::IntegerList {
                                        None
                                    } else {
                                        Some(
                                            (
                                                AstS::Pred(
                                                    PredicateS {
                                                        attr: attr as usize,
                                                        kind: PredKindS::IntListTest(op, l),
                                                    },
                                                ),
                                                j2,
                                            ),
                                        )
                                    },
                                    Some((ListLitS::Strs(l), j2)) => if declared
                                        != AtreeAttributeType::StringList {
                                        None
                                    } else {
                                        Some(
                                            (
                                                AstS::Pred(
                                                    PredicateS {
                                                        attr: attr as usize,
                                                        kind: PredKindS::StrListTest(op, l),
                                                    },
                                                ),
                                                j2,
                                            ),
                                        )
                                    },
                                }
                            },
                            _ => None,
                        }
                    }
                },
            },
            _ => None,
        }
    }
}

/// A `not`-level expression, as a mathematical function.
pub open spec fn sp_parse_not(ts: Seq<TokenS>, schema: AttributeTable, i: int) -> Option<
    (AstS, int),
>
    decreases ts.len() - i, 1int,
{
    if !(0 <= i < ts.len()) {
        None
    } else {
        match ts[i] {
            TokenS::NotT => match sp_parse_not(ts, schema, i + 1) {
                None => None,
                Some((inner, j)) => Some((AstS::Not(Box::new(inner)), j)),
            },
            TokenS::LParen => match sp_parse_or(ts, schema, i + 1) {
                None => None,
                Some((inner, j)) => if 0 <= j < ts.len() && ts[j] is RParen {
                    Some((inner, j + 1))
                } else {
                    None
                },
            },
            _ => sp_parse_predicate(ts, schema, i),
        }
    }
}

/// The left-associated conjunction chain after a first conjunct.
pub open spec fn sp_and_chain(ts: Seq<TokenS>, schema: AttributeTable, acc: AstS, j: int) -> Option<
    (AstS, int),
>
    decreases ts.len() - j, 0int,
{
    if 0 <= j < ts.len() && ts[j] is AndT {
        match sp_parse_not(ts, schema, j + 1) {
            None => None,
            Some((rhs, j2)) => if j2 <= j || j2 > ts.len() {
                None
            } else {
                sp_and_chain(ts, schema, AstS::And(Box::new(acc), Box::new(rhs)), j2)
            },
        }
    } else {
        Some((acc, j))
    }
}

/// An `and`-level expression, as a mathematical function.
pub open spec fn sp_parse_and(ts: Seq<TokenS>, schema: AttributeTable, i: int) -> Option<
    (AstS, int),
>
    decreases ts.len() - i, 2int,
{
    match sp_parse_not(ts, schema, i) {
        None => None,
        Some((a, j)) => if j <= i || j > ts.len() {
            None
        } else {
            sp_and_chain(ts, schema, a, j)
        },
    }
}

/// The left-associated disjunction chain after a first disjunct.
pub open spec fn sp_or_chain(ts: Seq<TokenS>, schema: AttributeTable, acc: AstS, j: int) -> Option<
    (AstS, int),
>
    decreases ts.len() - j, 3int,
{
    if 0 <= j < ts.len() && ts[j] is OrT {
        match sp_parse_and(ts, schema, j + 1) {
            None => None,
            Some((rhs, j2)) => if j2 <= j || j2 > ts.len() {
                None
            } else {
                sp_or_chain(ts, schema, AstS::Or(Box::new(acc), Box::new(rhs)), j2)
            },
        }
    } else {
        Some((acc, j))
    }
}

/// An `or`-level expression, as a mathematical function.
pub open spec fn sp_parse_or(ts: Seq<TokenS>, schema: AttributeTable, i: int) -> Option<
    (AstS, int),
>
    decreases ts.len() - i, 4int,
{
    match sp_parse_and(ts, schema, i) {
        None => None,
        Some((a, j)) => if j <= i || j > ts.len() {
            None
        } else {
            sp_or_chain(ts, schema, a, j)
        },
    }
}

/// What an expression text denotes against a schema: the compiled tree, or
/// nothing where it fails to lex, parse or type-check. This is the whole
/// compiler as one mathematical function.
pub open spec fn spec_compile(schema: AttributeTable, s: Seq<u8>) -> Option<AstS> {
    match sp_tokenize(s, 0) {
        None => None,
        Some(ts) => match sp_parse_or(ts, schema, 0) {
            None => None,
            Some((a, j)) => if j == ts.len() {
                Some(a)
            } else {
                None
            },
        },
    }
}

/// Parses a bracketed, comma-separated list of integer or string literals.
fn parse_list(toks: &Vec<Token>, i: usize) -> (r: Result<(ListLit, usize), AtreeError>)
    requires
        i <= toks@.len(),
    ensures
        r matches Ok((_, j)) ==> i < j <= toks@.len(),
        r matches Err(e) ==> e is Parse,
        match r {
            Ok((lit, j)) => sp_parse_list(toks_view(toks@), i as int) == Some((lit@, j as int)),
            Err(_) => sp_parse_list(toks_view(toks@), i as int) is None,
        },
{
    let ghost tsv = toks_view(toks@);
    if i >= toks.len() {
        return Err(AtreeError::Parse(i));
    }
    proof {
        assert(tsv[i as int] == toks@[i as int]@);
    }
    let closing_is_paren: bool = match &toks[i] {
        Token::LBracket => false,
        Token::LParen => true,
        _ => {
            return Err(AtreeError::Parse(i));
        },
    };
    let mut j: usize = i + 1;
    let mut ints: Vec<i64> = Vec::new();
    let mut strs: Vec<Vec<u8>> = Vec::new();
    let mut any_str: bool = false;
    let mut any_int: bool = false;
    let mut expect_item: bool = true;
    proof {
        assert(ints@ =~= Seq::<i64>::empty());
        assert(crate::ast::bytes_list_view(strs@) =~= Seq::<Seq<u8>>::empty());
    }
    loop
        invariant_except_break
            sp_parse_list(tsv, i as int) == sp_list_loop(
                tsv,
                j as int,
                ints@,
                crate::ast::bytes_list_view(strs@),
                any_int,
                any_str,
                expect_item,
                closing_is_paren,
            ),
        invariant
            i < j <= toks@.len(),
            tsv == toks_view(toks@),
        ensures
            i < j <= toks@.len(),
            sp_parse_list(tsv, i as int) == Some(
                (
                    sp_list_fin(ints@, crate::ast::bytes_list_view(strs@), any_str),
                    j as int,
                ),
            ),
        decreases toks@.len() - j,
    {
        if j >= toks.len() {
            return Err(AtreeError::Parse(j));
        }
        proof {
            assert(tsv[j as int] == toks@[j as int]@);
        }
        match &toks[j] {
            Token::RBracket => {
                if closing_is_paren {
                    return Err(AtreeError::Parse(j));
                }
                j = j + 1;
                break ;
            },
            Token::RParen => {
                if !closing_is_paren {
                    return Err(AtreeError::Parse(j));
                }
                j = j + 1;
                break ;
            },
            Token::Comma => {
                if expect_item {
                    return Err(AtreeError::Parse(j));
                }
                expect_item = true;
                j = j + 1;
            },
            Token::IntLit(v) => {
                if !expect_item || any_str {
                    return Err(AtreeError::Parse(j));
                }
                ints.push(*v);
                any_int = true;
                expect_item = false;
                j = j + 1;
            },
            Token::StrLit(sv) => {
                if !expect_item || any_int {
                    return Err(AtreeError::Parse(j));
                }
                let ghost strs0 = crate::ast::bytes_list_view(strs@);
                strs.push(vstd::slice::slice_to_vec(sv.as_slice()));
                proof {
                    assert(crate::ast::bytes_list_view(strs@) =~= strs0.push(sv@));
                }
                any_str = true;
                expect_item = false;
                j = j + 1;
            },
            _ => {
                return Err(AtreeError::Parse(j));
            },
        }
    }
    if any_str {
        Ok((ListLit::Strs(strs), j))
    } else {
        Ok((ListLit::Ints(ints), j))
    }
}

/// Parses one predicate: an attribute name, then an operator fit for its
/// declared type, then a literal of that type; or a bare boolean attribute.
fn parse_predicate(toks: &Vec<Token>, schema: &AttributeTable, i: usize) -> (r: Result<
    (Ast, usize),
    AtreeError,
>)
    requires
        i <= toks@.len(),
        schema.wf(),
    ensures
        r matches Ok((a, j)) ==> i < j <= toks@.len() && ast_wf(a@, *schema),
        r matches Err(e) ==> e is Parse || e is Type || e is UnknownAttribute,
        match r {
            Ok((a, j)) => sp_parse_predicate(toks_view(toks@), *schema, i as int) == Some(
                (a@, j as int),
            ),
            Err(_) => sp_parse_predicate(toks_view(toks@), *schema, i as int) is None,
        },
{
    let ghost tsv = toks_view(toks@);
    if i >= toks.len() {
        return Err(AtreeError::Parse(i));
    }
    proof {
        assert(tsv[i as int] == toks@[i as int]@);
    }
    let name: &Vec<u8> = match &toks[i] {
        Token::Ident(nm) => nm,
        _ => {
            return Err(AtreeError::Parse(i));
        },
    };
    let attr = match schema.index_of(name.as_slice()) {
        Some(a) => a,
        None => {
            return Err(AtreeError::UnknownAttribute(vstd::slice::slice_to_vec(name.as_slice())));
        },
    };
    let declared = schema.kind_of(attr);
    let j = i + 1;
    proof {
        if (j as int) < tsv.len() {
            assert(tsv[j as int] == toks@[j as int]@);
        }
        if j + 1 < tsv.len() {
            assert(tsv[j + 1] == toks@[j + 1]@);
        }
    }
    // a bare boolean attribute
    let bare: bool = if j >= toks.len() {
        true
    } else {
        match &toks[j] {
            Token::EqT | Token::NeT | Token::Lt | Token::Le | Token::Gt | Token::Ge | Token::InT
                | Token::NotInT | Token::OneOfT | Token::NoneOfT | Token::AllOfT => false,
            _ => true,
        }
    };
    if bare {
        if declared != AtreeAttributeType::Boolean {
            return Err(AtreeError::Type(vstd::slice::slice_to_vec(name.as_slice()), declared));
        }
        return Ok((Ast::Pred(Predicate { attr, kind: PredKind::Variable }), j));
    }
    if j >= toks.len() {
        return Err(AtreeError::Parse(j));
    }
    match &toks[j] {
        Token::EqT | Token::NeT => {
            let op = if matches!(&toks[j], Token::EqT) {
                EqOp::Eq
            } else {
                EqOp::Ne
            };
            if j + 1 >= toks.len() {
                return Err(AtreeError::Parse(j + 1));
            }
            let kind: PredKind = match &toks[j + 1] {
                Token::IntLit(v) => {
                    if declared != AtreeAttributeType::Integer {
                        return Err(
                            AtreeError::Type(vstd::slice::slice_to_vec(name.as_slice()), declared),
                        );
                    }
                    PredKind::IntEquality(op, *v)
                },
                Token::FloatLit(d) => {
                    if declared != AtreeAttributeType::Float {
                        return Err(
                            AtreeError::Type(vstd::slice::slice_to_vec(name.as_slice()), declared),
                        );
                    }
                    PredKind::DecEquality(op, *d)
                },
                Token::StrLit(sv) => {
                    if declared != AtreeAttributeType::String {
                        return Err(
                            AtreeError::Type(vstd::slice::slice_to_vec(name.as_slice()), declared),
                        );
                    }
                    PredKind::StrEquality(op, vstd::slice::slice_to_vec(sv.as_slice()))
                },
                _ => {
                    return Err(AtreeError::Parse(j + 1));
                },
            };
            Ok((Ast::Pred(Predicate { attr, kind }), j + 2))
        },
        Token::Lt | Token::Le | Token::Gt | Token::Ge => {
            let op = match &toks[j] {
                Token::Lt => CmpOp::Lt,
                Token::Le => CmpOp::Le,
                Token::Gt => CmpOp::Gt,
                _ => CmpOp::Ge,
            };
            if j + 1 >= toks.len() {
                return Err(AtreeError::Parse(j + 1));
            }
            let kind: PredKind = match &toks[j + 1] {
                Token::IntLit(v) => {
                    if declared != AtreeAttributeType::Integer {
                        return Err(
                            AtreeError::Type(vstd::slice::slice_to_vec(name.as_slice()), declared),
                        );
                    }
                    PredKind::IntComparison(op, *v)
                },
                Token::FloatLit(d) => {
                    if declared != AtreeAttributeType::Float {
                        return Err(
                            AtreeError::Type(vstd::slice::slice_to_vec(name.as_slice()), declared),
                        );
                    }
                    PredKind::DecComparison(op, *d)
                },
                _ => {
                    return Err(AtreeError::Parse(j + 1));
                },
            };
            Ok((Ast::Pred(Predicate { attr, kind }), j + 2))
        },
        Token::InT | Token::NotInT => {
            let op = if matches!(&toks[j], Token::InT) {
                SetOp::In
            } else {
                SetOp::NotIn
            };
            let (lit, j2) = match parse_list(toks, j + 1) {
                Ok(v) => v,
                Err(e) => {
                    return Err(e);
                },
            };
            let kind: PredKind = match lit {
                ListLit::Ints(l) => {
                    if declared != AtreeAttributeType::Integer {
                        return Err(
                            AtreeError::Type(vstd::slice::slice_to_vec(name.as_slice()), declared),
                        );
                    }
                    PredKind::IntSet(op, l)
                },
                ListLit::Strs(l) => {
                    if declared != AtreeAttributeType::String {
                        return Err(
                            AtreeError::Type(vstd::slice::slice_to_vec(name.as_slice()), declared),
                        );
                    }
                    PredKind::StrSet(op, l)
                },
            };
            Ok((Ast::Pred(Predicate { attr, kind }), j2))
        },
        Token::OneOfT | Token::NoneOfT | Token::AllOfT => {
            let op = match &toks[j] {
                Token::OneOfT => ListOp::OneOf,
                Token::NoneOfT => ListOp::NoneOf,
                _ => ListOp::AllOf,
            };
            let (lit, j2) = match parse_list(toks, j + 1) {
                Ok(v) => v,
                Err(e) => {
                    return Err(e);
                },
            };
            let kind: PredKind = match lit {
                ListLit::Ints(l) => {
                    if declared != AtreeAttributeType::IntegerList {
                        return Err(
                            AtreeError::Type(vstd::slice::slice_to_vec(name.as_slice()), declared),
                        );
                    }
                    PredKind::IntListTest(op, l)
                },
                ListLit::Strs(l) => {
                    if declared != AtreeAttributeType::StringList {
                        return Err(
                            AtreeError::Type(vstd::slice::slice_to_vec(name.as_slice()), declared),
                        );
                    }
                    PredKind::StrListTest(op, l)
                },
            };
            Ok((Ast::Pred(Predicate { attr, kind }), j2))
        },
        _ => Err(AtreeError::Parse(j)),
    }
}

/// Parses a `not`-level expression: any number of leading negations over a
/// primary, where a primary is a parenthesized expression or a predicate.
fn parse_not(toks: &Vec<Token>, schema: &AttributeTable, i: usize) -> (r: Result<
    (Ast, usize),
    AtreeError,
>)
    requires
        i <= toks@.len(),
        schema.wf(),
    ensures
        r matches Ok((a, j)) ==> i < j <= toks@.len() && ast_wf(a@, *schema),
        r matches Err(e) ==> e is Parse || e is Type || e is UnknownAttribute,
        match r {
            Ok((a, j)) => sp_parse_not(toks_view(toks@), *schema, i as int) == Some(
                (a@, j as int),
            ),
            Err(_) => sp_parse_not(toks_view(toks@), *schema, i as int) is None,
        },
    decreases toks@.len() - i, 1int,
{
    let ghost tsv = toks_view(toks@);
    if i >= toks.len() {
        return Err(AtreeError::Parse(i));
    }
    proof {
        assert(tsv[i as int] == toks@[i as int]@);
    }
    match &toks[i] {
        Token::NotT => {
            let (inner, j) = match parse_not(toks, schema, i + 1) {
                Ok(v) => v,
                Err(e) => {
                    return Err(e);
                },
            };
            Ok((Ast::Not(Box::new(inner)), j))
        },
        Token::LParen => {
            let (inner, j) = match parse_or(toks, schema, i + 1) {
                Ok(v) => v,
                Err(e) => {
                    return Err(e);
                },
            };
            proof {
                if (j as int) < tsv.len() {
                    assert(tsv[j as int] == toks@[j as int]@);
                }
            }
            if j < toks.len() && matches!(&toks[j], Token::RParen) {
                Ok((inner, j + 1))
            } else {
                Err(AtreeError::Parse(j))
            }
        },
        _ => parse_predicate(toks, schema, i),
    }
}

/// Parses an `and`-level expression: left-associated conjunctions.
fn parse_and(toks: &Vec<Token>, schema: &AttributeTable, i: usize) -> (r: Result<
    (Ast, usize),
    AtreeError,
>)
    requires
        i <= toks@.len(),
        schema.wf(),
    ensures
        r matches Ok((a, j)) ==> i < j <= toks@.len() && ast_wf(a@, *schema),
        r matches Err(e) ==> e is Parse || e is Type || e is UnknownAttribute,
        match r {
            Ok((a, j)) => sp_parse_and(toks_view(toks@), *schema, i as int) == Some(
                (a@, j as int),
            ),
            Err(_) => sp_parse_and(toks_view(toks@), *schema, i as int) is None,
        },
    decreases toks@.len() - i, 2int,
{
    let ghost tsv = toks_view(toks@);
    let (first, j0) = match parse_not(toks, schema, i) {
        Ok(v) => v,
        Err(e) => {
            return Err(e);
        },
    };
    let mut acc = first;
    let mut j = j0;
    while j < toks.len() && matches!(&toks[j], Token::AndT)
        invariant
            i < j <= toks@.len(),
            schema.wf(),
            tsv == toks_view(toks@),
            ast_wf(acc@, *schema),
            sp_parse_and(tsv, *schema, i as int) == sp_and_chain(tsv, *schema, acc@, j as int),
        decreases toks@.len() - j,
    {
        proof {
            assert(tsv[j as int] == toks@[j as int]@);
        }
        let (rhs, j2) = match parse_not(toks, schema, j + 1) {
            Ok(v) => v,
            Err(e) => {
                return Err(e);
            },
        };
        acc = Ast::And(Box::new(acc), Box::new(rhs));
        j = j2;
    }
    proof {
        if (j as int) < tsv.len() {
            assert(tsv[j as int] == toks@[j as int]@);
        }
    }
    Ok((acc, j))
}

/// Parses an `or`-level expression: left-associated disjunctions.
fn parse_or(toks: &Vec<Token>, schema: &AttributeTable, i: usize) -> (r: Result<
    (Ast, usize),
    AtreeError,
>)
    requires
        i <= toks@.len(),
        schema.wf(),
    ensures
        r matches Ok((a, j)) ==> i < j <= toks@.len() && ast_wf(a@, *schema),
        r matches Err(e) ==> e is Parse || e is Type || e is UnknownAttribute,
        match r {
            Ok((a, j)) => sp_parse_or(toks_view(toks@), *schema, i as int) == Some(
                (a@, j as int),
            ),
            Err(_) => sp_parse_or(toks_view(toks@), *schema, i as int) is None,
        },
    decreases toks@.len() - i, 3int,
{
    let ghost tsv = toks_view(toks@);
    let (first, j0) = match parse_and(toks, schema, i) {
        Ok(v) => v,
        Err(e) => {
            return Err(e);
        },
    };
    let mut acc = first;
    let mut j = j0;
    while j < toks.len() && matches!(&toks[j], Token::OrT)
        invariant
            i < j <= toks@.len(),
            schema.wf(),
            tsv == toks_view(toks@),
            ast_wf(acc@, *schema),
            sp_parse_or(tsv, *schema, i as int) == sp_or_chain(tsv, *schema, acc@, j as int),
        decreases toks@.len() - j,
    {
        proof {
            assert(tsv[j as int] == toks@[j as int]@);
        }
        let (rhs, j2) = match parse_and(toks, schema, j + 1) {
            Ok(v) => v,
            Err(e) => {
                return Err(e);
            },
        };
        acc = Ast::Or(Box::new(acc), Box::new(rhs));
        j = j2;
    }
    proof {
        if (j as int) < tsv.len() {
            assert(tsv[j as int] == toks@[j as int]@);
        }
    }
    Ok((acc, j))
}

/// Compiles an expression against a schema. It succeeds exactly when the
/// text denotes an expression under the grammar and the schema's types, and
/// then returns exactly that expression: the result is [`spec_compile`] of
/// the text's bytes. On failure nothing is produced.
pub fn compile(schema: &AttributeTable, expression: &str) -> (r: Result<Ast, AtreeError>)
    requires
        schema.wf(),
    ensures
        r is Ok <==> spec_compile(*schema, expression.spec_bytes()) is Some,
        r matches Ok(a) ==> a@ == spec_compile(*schema, expression.spec_bytes())->Some_0
            && ast_wf(a@, *schema),
        r matches Err(e) ==> e is Parse || e is Type || e is UnknownAttribute,
{
    let bytes = expression.as_bytes();
    let toks = match tokenize(bytes) {
        Ok(t) => t,
        Err(e) => {
            return Err(e);
        },
    };
    let (a, j) = match parse_or(&toks, schema, 0) {
        Ok(v) => v,
        Err(e) => {
            return Err(e);
        },
    };
    if j != toks.len() {
        return Err(AtreeError::Parse(j));
    }
    Ok(a)
}


} // verus!
