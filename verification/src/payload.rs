//! Payload variants of snapshot entries.
//!
//! A resolved entry of the snapshot graph carries a payload built from
//! children's content addresses and scalar fields only, never from live
//! references.  Expression payloads may carry strings, so their mathematical
//! model ([`ExprModel`]) replaces each string by its character sequence;
//! continuation payloads carry only addresses and operator codes and serve as
//! their own model.

use crate::ptrs::{
    ScalarContPtr, ScalarPtr, F, TAG_BINOP, TAG_BINOP2, TAG_CALL, TAG_CALL2, TAG_CHAR, TAG_COMM,
    TAG_CONS, TAG_DUMMY, TAG_EMIT, TAG_ERROR, TAG_FUN, TAG_IF, TAG_LET, TAG_LETREC, TAG_LOOKUP,
    TAG_NIL, TAG_NUM, TAG_OUTERMOST, TAG_RELOP, TAG_RELOP2, TAG_STR, TAG_SYM, TAG_TAIL,
    TAG_TERMINAL, TAG_THUNK, TAG_UNOP,
};
use vstd::prelude::*;

verus! {

/// A unary operator code, field-encoded in the flat form.
#[derive(Debug, Clone, Copy, PartialEq, Eq, Hash, Structural)]
pub enum Op1 {
    Car,
    Cdr,
    Atom,
    Emit,
}

/// A binary operator code.
#[derive(Debug, Clone, Copy, PartialEq, Eq, Hash, Structural)]
pub enum Op2 {
    Sum,
    Diff,
    Product,
    Quotient,
    Cons,
}

/// A binary relation code.
#[derive(Debug, Clone, Copy, PartialEq, Eq, Hash, Structural)]
pub enum Rel2 {
    Equal,
    NumEqual,
}

pub open spec fn op1_field(op: Op1) -> F {
    match op {
        Op1::Car => 0,
        Op1::Cdr => 1,
        Op1::Atom => 2,
        Op1::Emit => 3,
    }
}

pub open spec fn op2_field(op: Op2) -> F {
    match op {
        Op2::Sum => 0,
        Op2::Diff => 1,
        Op2::Product => 2,
        Op2::Quotient => 3,
        Op2::Cons => 4,
    }
}

pub open spec fn rel2_field(op: Rel2) -> F {
    match op {
        Rel2::Equal => 0,
        Rel2::NumEqual => 1,
    }
}

impl Op1 {
    pub fn as_field(self) -> (r: F)
        ensures
            r == op1_field(self),
    {
        match self {
            Op1::Car => 0,
            Op1::Cdr => 1,
            Op1::Atom => 2,
            Op1::Emit => 3,
        }
    }
}

impl Op2 {
    pub fn as_field(self) -> (r: F)
        ensures
            r == op2_field(self),
    {
        match self {
            Op2::Sum => 0,
            Op2::Diff => 1,
            Op2::Product => 2,
            Op2::Quotient => 3,
            Op2::Cons => 4,
        }
    }
}

impl Rel2 {
    pub fn as_field(self) -> (r: F)
        ensures
            r == rel2_field(self),
    {
        match self {
            Rel2::Equal => 0,
            Rel2::NumEqual => 1,
        }
    }
}

/// A thunk payload: a value address paired with a continuation address.
#[derive(Debug, Clone, Copy, PartialEq, Eq, Hash, Structural)]
pub struct ScalarThunk {
    pub value: ScalarPtr,
    pub continuation: ScalarContPtr,
}

/// An expression payload, keyed by the entry's tag.
#[derive(Debug, Clone, PartialEq, Eq)]
pub enum ScalarExpression {
    Nil,
    Cons(ScalarPtr, ScalarPtr),
    Comm(F, ScalarPtr),
    Sym(String),
    Fun { arg: ScalarPtr, body: ScalarPtr, closed_env: ScalarPtr },
    Num(F),
    Str(String),
    Thunk(ScalarThunk),
    Char(char),
}

/// The mathematical model of an expression payload: the payload with each
/// string replaced by its character sequence.
pub enum ExprModel {
    Nil,
    Cons(ScalarPtr, ScalarPtr),
    Comm(F, ScalarPtr),
    Sym(Seq<char>),
    Fun { arg: ScalarPtr, body: ScalarPtr, closed_env: ScalarPtr },
    Num(F),
    Str(Seq<char>),
    Thunk(ScalarThunk),
    Char(char),
}

impl ScalarExpression {
    pub open spec fn model(self) -> ExprModel {
        match self {
            ScalarExpression::Nil => ExprModel::Nil,
            ScalarExpression::Cons(a, b) => ExprModel::Cons(a, b),
            ScalarExpression::Comm(f, p) => ExprModel::Comm(f, p),
            ScalarExpression::Sym(s) => ExprModel::Sym(s@),
            ScalarExpression::Fun { arg, body, closed_env } => ExprModel::Fun {
                arg,
                body,
                closed_env,
            },
            ScalarExpression::Num(f) => ExprModel::Num(f),
            ScalarExpression::Str(s) => ExprModel::Str(s@),
            ScalarExpression::Thunk(t) => ExprModel::Thunk(t),
            ScalarExpression::Char(c) => ExprModel::Char(c),
        }
    }
}

pub open spec fn opt_model(v: Option<ScalarExpression>) -> Option<ExprModel> {
    match v {
        Some(e) => Some(e.model()),
        None => None,
    }
}

impl Default for ScalarExpression {
    fn default() -> (r: Self)
        ensures
            r == ScalarExpression::Nil,
    {
        ScalarExpression::Nil
    }
}

/// The tag a key must carry to hold this payload.
pub open spec fn expr_model_tag(m: ExprModel) -> F {
    match m {
        ExprModel::Nil => TAG_NIL,
        ExprModel::Cons(..) => TAG_CONS,
        ExprModel::Comm(..) => TAG_COMM,
        ExprModel::Sym(..) => TAG_SYM,
        ExprModel::Fun { .. } => TAG_FUN,
        ExprModel::Num(..) => TAG_NUM,
        ExprModel::Str(..) => TAG_STR,
        ExprModel::Thunk(..) => TAG_THUNK,
        ExprModel::Char(..) => TAG_CHAR,
    }
}

pub open spec fn cont_tag(c: ScalarContinuation) -> F {
    match c {
        ScalarContinuation::Outermost => TAG_OUTERMOST,
        ScalarContinuation::Call { .. } => TAG_CALL,
        ScalarContinuation::Call2 { .. } => TAG_CALL2,
        ScalarContinuation::Tail { .. } => TAG_TAIL,
        ScalarContinuation::Error => TAG_ERROR,
        ScalarContinuation::Lookup { .. } => TAG_LOOKUP,
        ScalarContinuation::Unop { .. } => TAG_UNOP,
        ScalarContinuation::Binop { .. } => TAG_BINOP,
        ScalarContinuation::Binop2 { .. } => TAG_BINOP2,
        ScalarContinuation::Relop { .. } => TAG_RELOP,
        ScalarContinuation::Relop2 { .. } => TAG_RELOP2,
        ScalarContinuation::If { .. } => TAG_IF,
        ScalarContinuation::Let { .. } => TAG_LET,
        ScalarContinuation::LetRec { .. } => TAG_LETREC,
        ScalarContinuation::Emit { .. } => TAG_EMIT,
        ScalarContinuation::Dummy => TAG_DUMMY,
        ScalarContinuation::Terminal => TAG_TERMINAL,
    }
}

/// The expression addresses directly reachable from a payload.  A thunk's
/// value is such a child; its continuation address belongs to the other map
/// and the expression worklist cannot carry it.
pub open spec fn expr_children(m: ExprModel) -> Seq<ScalarPtr> {
    match m {
        ExprModel::Nil => Seq::empty(),
        ExprModel::Cons(car, cdr) => seq![car, cdr],
        ExprModel::Comm(_, payload) => seq![payload],
        ExprModel::Sym(..) => Seq::empty(),
        ExprModel::Fun { arg, body, closed_env } => seq![arg, body, closed_env],
        ExprModel::Num(..) => Seq::empty(),
        ExprModel::Str(..) => Seq::empty(),
        ExprModel::Thunk(t) => seq![t.value],
        ExprModel::Char(..) => Seq::empty(),
    }
}

/// A continuation payload, mirroring the evaluator's control states.
#[derive(Debug, Clone, Copy, PartialEq, Eq, Hash, Structural)]
pub enum ScalarContinuation {
    Outermost,
    Call { unevaled_arg: ScalarPtr, saved_env: ScalarPtr, continuation: ScalarContPtr },
    Call2 { function: ScalarPtr, saved_env: ScalarPtr, continuation: ScalarContPtr },
    Tail { saved_env: ScalarPtr, continuation: ScalarContPtr },
    Error,
    Lookup { saved_env: ScalarPtr, continuation: ScalarContPtr },
    Unop { operator: Op1, continuation: ScalarContPtr },
    Binop {
        operator: Op2,
        saved_env: ScalarPtr,
        unevaled_args: ScalarPtr,
        continuation: ScalarContPtr,
    },
    Binop2 { operator: Op2, evaled_arg: ScalarPtr, continuation: ScalarContPtr },
    Relop {
        operator: Rel2,
        saved_env: ScalarPtr,
        unevaled_args: ScalarPtr,
        continuation: ScalarContPtr,
    },
    Relop2 { operator: Rel2, evaled_arg: ScalarPtr, continuation: ScalarContPtr },
    If { unevaled_args: ScalarPtr, continuation: ScalarContPtr },
    Let { var: ScalarPtr, body: ScalarPtr, saved_env: ScalarPtr, continuation: ScalarContPtr },
    LetRec { var: ScalarPtr, body: ScalarPtr, saved_env: ScalarPtr, continuation: ScalarContPtr },
    Emit { continuation: ScalarContPtr },
    Dummy,
    Terminal,
}

/// The canonical field encoding of a character: its 32-bit code point.
pub open spec fn char_field(c: char) -> F {
    (c as u32) as u64
}

/// Maps a character into the field as its 32-bit code point.  The interface
/// allows the mapping to fail for field representations too narrow to hold a
/// code point; here every code point fits.
pub fn char_to_f(c: char) -> (r: Option<F>)
    ensures
        r == Some(char_field(c)),
{
    Some((c as u32) as u64)
}

/// Number of bytes of string content that fit in one field element.
pub const F_CAPACITY_BYTES: usize = 8;

/// Big-endian packing of a byte string into a non-negative integer.
pub open spec fn pack_be(bytes: Seq<u8>) -> int
    decreases bytes.len(),
{
    if bytes.len() == 0 {
        0
    } else {
        pack_be(bytes.drop_last()) * 256 + bytes.last()
    }
}

pub open spec fn pow256(n: nat) -> int
    decreases n,
{
    if n == 0 {
        1
    } else {
        256 * pow256((n - 1) as nat)
    }
}

pub proof fn lemma_pack_be_bound(bytes: Seq<u8>)
    ensures
        0 <= pack_be(bytes) < pow256(bytes.len()),
    decreases bytes.len(),
{
    if bytes.len() > 0 {
        lemma_pack_be_bound(bytes.drop_last());
    }
}

pub proof fn lemma_pow256_monotonic(m: nat, n: nat)
    requires
        m <= n,
    ensures
        pow256(m) <= pow256(n),
    decreases n,
{
    if m < n {
        lemma_pow256_monotonic(m, (n - 1) as nat);
        assert(pow256(n) == 256 * pow256((n - 1) as nat));
        assert(pow256(m) >= 1) by {
            lemma_pow256_positive(m);
        }
    }
}

pub proof fn lemma_pow256_positive(n: nat)
    ensures
        pow256(n) >= 1,
    decreases n,
{
    if n > 0 {
        lemma_pow256_positive((n - 1) as nat);
    }
}

/// The field element a small string packs into: its UTF-8 bytes, big-endian,
/// provided they fit in one field element.
pub open spec fn spec_small_string_to_f(s: Seq<char>) -> Option<F> {
    let bytes = vstd::utf8::encode_utf8(s);
    if bytes.len() <= F_CAPACITY_BYTES {
        Some(pack_be(bytes) as u64)
    } else {
        None
    }
}

/// Packs a string of at most [`F_CAPACITY_BYTES`] UTF-8 bytes into a single
/// field element, big-endian; longer strings do not fit and yield `None`.
pub fn small_string_to_f(s: String) -> (r: Option<F>)
    ensures
        r == spec_small_string_to_f(s@),
{
    let bytes: &[u8] = s.as_str().as_bytes();
    if bytes.len() > F_CAPACITY_BYTES {
        return None;
    }
    let ghost bs = vstd::utf8::encode_utf8(s@);
    let n = bytes.len();
    let mut acc: u64 = 0;
    let mut i: usize = 0;
    proof {
        assert(bs.take(0) =~= Seq::<u8>::empty());
    }
    while i < n
        invariant
            0 <= i <= n <= F_CAPACITY_BYTES,
            bytes@ == bs,
            n == bs.len(),
            acc == pack_be(bs.take(i as int)),
        decreases n - i,
    {
        proof {
            lemma_pack_be_bound(bs.take(i as int));
            lemma_pow256_monotonic(i as nat, 7);
            assert(pow256(7) == 0x100000000000000) by {
                assert(pow256(0) == 1);
                assert(pow256(1) == 256);
                assert(pow256(2) == 0x10000);
                assert(pow256(3) == 0x1000000);
                assert(pow256(4) == 0x100000000);
                assert(pow256(5) == 0x10000000000);
                assert(pow256(6) == 0x1000000000000);
            }
            assert(bs.take(i + 1).drop_last() =~= bs.take(i as int));
        }
        acc = acc * 256 + (bytes[i] as u64);
        i = i + 1;
    }
    proof {
        assert(bs.take(n as int) =~= bs);
    }
    Some(acc)
}

/// Whether a payload has a defined flat field encoding.  Symbols, strings and
/// the nil marker have none yet: an encoding for them (for example
/// length-prefixed byte runs packed into field elements) is an open gap, and
/// flattening a graph that contains them must fail fast rather than emit
/// wrong fields.
pub open spec fn expr_flat_encodable(m: ExprModel) -> bool {
    match m {
        ExprModel::Nil => false,
        ExprModel::Sym(..) => false,
        ExprModel::Str(..) => false,
        _ => true,
    }
}

/// The flat field encoding of an encodable expression payload: every child
/// address as its `(tag, digest)` pair in the fixed field order, scalar
/// fields in their natural encoding.
pub open spec fn expr_flat(m: ExprModel) -> Seq<F> {
    match m {
        ExprModel::Nil => Seq::empty(),
        ExprModel::Cons(car, cdr) => seq![car.tag, car.digest, cdr.tag, cdr.digest],
        ExprModel::Comm(secret, payload) => seq![secret, payload.tag, payload.digest],
        ExprModel::Sym(..) => Seq::empty(),
        ExprModel::Fun { arg, body, closed_env } => seq![
            arg.tag,
            arg.digest,
            body.tag,
            body.digest,
            closed_env.tag,
            closed_env.digest,
        ],
        ExprModel::Num(x) => seq![x],
        ExprModel::Str(..) => Seq::empty(),
        ExprModel::Thunk(t) => seq![
            t.value.tag,
            t.value.digest,
            t.continuation.tag,
            t.continuation.digest,
        ],
        ExprModel::Char(c) => seq![char_field(c)],
    }
}

/// Whether a continuation payload has a defined flat encoding; the
/// zero-field variants have none yet (the same open gap as for `Nil`).
pub open spec fn cont_flat_encodable(c: ScalarContinuation) -> bool {
    match c {
        ScalarContinuation::Outermost => false,
        ScalarContinuation::Error => false,
        ScalarContinuation::Dummy => false,
        ScalarContinuation::Terminal => false,
        _ => true,
    }
}

/// The flat field encoding of an encodable continuation payload.
pub open spec fn cont_flat(c: ScalarContinuation) -> Seq<F> {
    match c {
        ScalarContinuation::Outermost => Seq::empty(),
        ScalarContinuation::Call { unevaled_arg, saved_env, continuation } => seq![
            unevaled_arg.tag,
            unevaled_arg.digest,
            saved_env.tag,
            saved_env.digest,
            continuation.tag,
            continuation.digest,
        ],
        ScalarContinuation::Call2 { function, saved_env, continuation } => seq![
            function.tag,
            function.digest,
            saved_env.tag,
            saved_env.digest,
            continuation.tag,
            continuation.digest,
        ],
        ScalarContinuation::Tail { saved_env, continuation } => seq![
            saved_env.tag,
            saved_env.digest,
            continuation.tag,
            continuation.digest,
        ],
        ScalarContinuation::Error => Seq::empty(),
        ScalarContinuation::Lookup { saved_env, continuation } => seq![
            saved_env.tag,
            saved_env.digest,
            continuation.tag,
            continuation.digest,
        ],
        ScalarContinuation::Unop { operator, continuation } => seq![
            op1_field(operator),
            continuation.tag,
            continuation.digest,
        ],
        ScalarContinuation::Binop { operator, saved_env, unevaled_args, continuation } => seq![
            op2_field(operator),
            saved_env.tag,
            saved_env.digest,
            unevaled_args.tag,
            unevaled_args.digest,
            continuation.tag,
            continuation.digest,
        ],
        ScalarContinuation::Binop2 { operator, evaled_arg, continuation } => seq![
            op2_field(operator),
            evaled_arg.tag,
            evaled_arg.digest,
            continuation.tag,
            continuation.digest,
        ],
        ScalarContinuation::Relop { operator, saved_env, unevaled_args, continuation } => seq![
            rel2_field(operator),
            saved_env.tag,
            saved_env.digest,
            unevaled_args.tag,
            unevaled_args.digest,
            continuation.tag,
            continuation.digest,
        ],
        ScalarContinuation::Relop2 { operator, evaled_arg, continuation } => seq![
            rel2_field(operator),
            evaled_arg.tag,
            evaled_arg.digest,
            continuation.tag,
            continuation.digest,
        ],
        ScalarContinuation::If { unevaled_args, continuation } => seq![
            unevaled_args.tag,
            unevaled_args.digest,
            continuation.tag,
            continuation.digest,
        ],
        ScalarContinuation::Let { var, body, saved_env, continuation } => seq![
            var.tag,
            var.digest,
            body.tag,
            body.digest,
            saved_env.tag,
            saved_env.digest,
            continuation.tag,
            continuation.digest,
        ],
        ScalarContinuation::LetRec { var, body, saved_env, continuation } => seq![
            var.tag,
            var.digest,
            body.tag,
            body.digest,
            saved_env.tag,
            saved_env.digest,
            continuation.tag,
            continuation.digest,
        ],
        ScalarContinuation::Emit { continuation } => seq![continuation.tag, continuation.digest],
        ScalarContinuation::Dummy => Seq::empty(),
        ScalarContinuation::Terminal => Seq::empty(),
    }
}

impl ScalarExpression {
    /// Flat field encoding of this payload.  The variants without a defined
    /// flat encoding are excluded: flattening them must fail fast instead of
    /// emitting wrong fields.
    pub fn ser_f(self) -> (r: Vec<F>)
        requires
            expr_flat_encodable(self.model()),
        ensures
            r@ == expr_flat(self.model()),
    {
        match self {
            ScalarExpression::Nil => vec![],
            ScalarExpression::Cons(car, cdr) => vec![car.tag, car.digest, cdr.tag, cdr.digest],
            ScalarExpression::Comm(secret, payload) => vec![secret, payload.tag, payload.digest],
            ScalarExpression::Sym(..) => vec![],
            ScalarExpression::Fun { arg, body, closed_env } => vec![
                arg.tag,
                arg.digest,
                body.tag,
                body.digest,
                closed_env.tag,
                closed_env.digest,
            ],
            ScalarExpression::Num(x) => vec![x],
            ScalarExpression::Str(..) => vec![],
            ScalarExpression::Thunk(t) => vec![
                t.value.tag,
                t.value.digest,
                t.continuation.tag,
                t.continuation.digest,
            ],
            ScalarExpression::Char(c) => vec![(c as u32) as u64],
        }
    }
}

impl ScalarContinuation {
    /// Flat field encoding of this payload, operator code first, then every
    /// address as its `(tag, digest)` pair; the zero-field variants have no
    /// defined encoding and are excluded.
    pub fn ser_f(self) -> (r: Vec<F>)
        requires
            cont_flat_encodable(self),
        ensures
            r@ == cont_flat(self),
    {
        match self {
            ScalarContinuation::Outermost => vec![],
            ScalarContinuation::Call { unevaled_arg, saved_env, continuation } => vec![
                unevaled_arg.tag,
                unevaled_arg.digest,
                saved_env.tag,
                saved_env.digest,
                continuation.tag,
                continuation.digest,
            ],
            ScalarContinuation::Call2 { function, saved_env, continuation } => vec![
                function.tag,
                function.digest,
                saved_env.tag,
                saved_env.digest,
                continuation.tag,
                continuation.digest,
            ],
            ScalarContinuation::Tail { saved_env, continuation } => vec![
                saved_env.tag,
                saved_env.digest,
                continuation.tag,
                continuation.digest,
            ],
            ScalarContinuation::Error => vec![],
            ScalarContinuation::Lookup { saved_env, continuation } => vec![
                saved_env.tag,
                saved_env.digest,
                continuation.tag,
                continuation.digest,
            ],
            ScalarContinuation::Unop { operator, continuation } => vec![
                operator.as_field(),
                continuation.tag,
                continuation.digest,
            ],
            ScalarContinuation::Binop { operator, saved_env, unevaled_args, continuation } => vec![
                operator.as_field(),
                saved_env.tag,
                saved_env.digest,
                unevaled_args.tag,
                unevaled_args.digest,
                continuation.tag,
                continuation.digest,
            ],
            ScalarContinuation::Binop2 { operator, evaled_arg, continuation } => vec![
                operator.as_field(),
                evaled_arg.tag,
                evaled_arg.digest,
                continuation.tag,
                continuation.digest,
            ],
            ScalarContinuation::Relop { operator, saved_env, unevaled_args, continuation } => vec![
                operator.as_field(),
                saved_env.tag,
                saved_env.digest,
                unevaled_args.tag,
                unevaled_args.digest,
                continuation.tag,
                continuation.digest,
            ],
            ScalarContinuation::Relop2 { operator, evaled_arg, continuation } => vec![
                operator.as_field(),
                evaled_arg.tag,
                evaled_arg.digest,
                continuation.tag,
                continuation.digest,
            ],
            ScalarContinuation::If { unevaled_args, continuation } => vec![
                unevaled_args.tag,
                unevaled_args.digest,
                continuation.tag,
                continuation.digest,
            ],
            ScalarContinuation::Let { var, body, saved_env, continuation } => vec![
                var.tag,
                var.digest,
                body.tag,
                body.digest,
                saved_env.tag,
                saved_env.digest,
                continuation.tag,
                continuation.digest,
            ],
            ScalarContinuation::LetRec { var, body, saved_env, continuation } => vec![
                var.tag,
                var.digest,
                body.tag,
                body.digest,
                saved_env.tag,
                saved_env.digest,
                continuation.tag,
                continuation.digest,
            ],
            ScalarContinuation::Emit { continuation } => vec![
                continuation.tag,
                continuation.digest,
            ],
            ScalarContinuation::Dummy => vec![],
            ScalarContinuation::Terminal => vec![],
        }
    }
}

} // verus!
