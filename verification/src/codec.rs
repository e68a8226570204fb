//! Structured byte interchange for snapshot graphs.
//!
//! The lossless tagged-union form: every entry is its key's two field
//! elements followed by an optional payload, each payload a one-byte variant
//! code followed by its fields, field elements little-endian, strings as a
//! character count followed by one field element per code point.  Decoding
//! checks strict key order, key/payload tag agreement and that no bytes
//! trail, so whatever decodes is a well-formed graph that re-encodes to the
//! very input, and every well-formed graph's encoding decodes back to it.

use crate::payload::{
    cont_tag, expr_model_tag, op1_field, op2_field, opt_model, rel2_field, ExprModel, Op1, Op2,
    Rel2, ScalarContinuation, ScalarExpression, ScalarThunk,
};
use crate::ptrs::{ScalarContPtr, ScalarPtr};
use crate::rows::rows_sorted;
use crate::scalar_store::{cont_key_lt, expr_key_lt, ScalarStore};
use vstd::bytes::{
    lemma_auto_spec_u64_to_from_le_bytes, spec_u64_to_le_bytes, u64_from_le_bytes, u64_to_le_bytes,
};
use vstd::prelude::*;
use vstd::slice::slice_subrange;
use vstd::string::StrSliceExecFns;

verus! {

broadcast use vstd::utf8::char_is_scalar, vstd::utf8::char_u32_cast;

/// Why a decode failed; partial results are never returned.
#[derive(Debug, Clone, Copy, PartialEq, Eq, Structural)]
pub enum DecodeError {
    /// The input ended inside a value.
    Truncated,
    /// A variant or option marker byte matches no known variant.
    BadVariant,
    /// A character field is not a unicode scalar value.
    BadChar,
    /// An operator field matches no operator.
    BadOperator,
    /// Keys are not strictly ascending.
    BadKeyOrder,
    /// A payload sits under a key whose tag does not match it.
    TagMismatch,
    /// Bytes remain after the last entry.
    TrailingBytes,
}

pub open spec fn enc_u64(x: u64) -> Seq<u8> {
    spec_u64_to_le_bytes(x)
}

pub open spec fn enc_u64s(xs: Seq<u64>) -> Seq<u8>
    decreases xs.len(),
{
    if xs.len() == 0 {
        Seq::empty()
    } else {
        enc_u64(xs[0]) + enc_u64s(xs.skip(1))
    }
}

pub open spec fn char_codes(s: Seq<char>) -> Seq<u64> {
    s.map_values(|c: char| (c as u32) as u64)
}

pub open spec fn enc_string(s: Seq<char>) -> Seq<u8> {
    enc_u64(s.len() as u64) + enc_u64s(char_codes(s))
}

/// The variant code of an expression payload.
pub open spec fn expr_code(m: ExprModel) -> u8 {
    match m {
        ExprModel::Nil => 0,
        ExprModel::Cons(..) => 1,
        ExprModel::Comm(..) => 2,
        ExprModel::Sym(..) => 3,
        ExprModel::Fun { .. } => 4,
        ExprModel::Num(..) => 5,
        ExprModel::Str(..) => 6,
        ExprModel::Thunk(..) => 7,
        ExprModel::Char(..) => 8,
    }
}

/// The field elements of a fixed-arity expression payload.
pub open spec fn expr_fields(m: ExprModel) -> Seq<u64> {
    match m {
        ExprModel::Nil => Seq::empty(),
        ExprModel::Cons(a, b) => seq![a.tag, a.digest, b.tag, b.digest],
        ExprModel::Comm(secret, p) => seq![secret, p.tag, p.digest],
        ExprModel::Sym(..) => Seq::empty(),
        ExprModel::Fun { arg, body, closed_env } => seq![
            arg.tag,
            arg.digest,
            body.tag,
            body.digest,
            closed_env.tag,
            closed_env.digest,
        ],
        ExprModel::Num(x) => seq![x],
        ExprModel::Str(..) => Seq::empty(),
        ExprModel::Thunk(t) => seq![
            t.value.tag,
            t.value.digest,
            t.continuation.tag,
            t.continuation.digest,
        ],
        ExprModel::Char(c) => seq![(c as u32) as u64],
    }
}

pub open spec fn enc_expr_payload(m: ExprModel) -> Seq<u8> {
    seq![expr_code(m)] + match m {
        ExprModel::Sym(s) => enc_string(s),
        ExprModel::Str(s) => enc_string(s),
        _ => enc_u64s(expr_fields(m)),
    }
}

/// The variant code of a continuation payload.
pub open spec fn cont_code(c: ScalarContinuation) -> u8 {
    match c {
        ScalarContinuation::Outermost => 0,
        ScalarContinuation::Call { .. } => 1,
        ScalarContinuation::Call2 { .. } => 2,
        ScalarContinuation::Tail { .. } => 3,
        ScalarContinuation::Error => 4,
        ScalarContinuation::Lookup { .. } => 5,
        ScalarContinuation::Unop { .. } => 6,
        ScalarContinuation::Binop { .. } => 7,
        ScalarContinuation::Binop2 { .. } => 8,
        ScalarContinuation::Relop { .. } => 9,
        ScalarContinuation::Relop2 { .. } => 10,
        ScalarContinuation::If { .. } => 11,
        ScalarContinuation::Let { .. } => 12,
        ScalarContinuation::LetRec { .. } => 13,
        ScalarContinuation::Emit { .. } => 14,
        ScalarContinuation::Dummy => 15,
        ScalarContinuation::Terminal => 16,
    }
}

/// The field elements of a continuation payload, operator codes included.
pub open spec fn cont_fields(c: ScalarContinuation) -> Seq<u64> {
    match c {
        ScalarContinuation::Outermost => Seq::empty(),
        ScalarContinuation::Call { unevaled_arg, saved_env, continuation } => seq![
            unevaled_arg.tag,
            unevaled_arg.digest,
            saved_env.tag,
            saved_env.digest,
            continuation.tag,
            continuation.digest,
        ],
        ScalarContinuation::Call2 { function, saved_env, continuation } => seq![
            function.tag,
            function.digest,
            saved_env.tag,
            saved_env.digest,
            continuation.tag,
            continuation.digest,
        ],
        ScalarContinuation::Tail { saved_env, continuation } => seq![
            saved_env.tag,
            saved_env.digest,
            continuation.tag,
            continuation.digest,
        ],
        ScalarContinuation::Error => Seq::empty(),
        ScalarContinuation::Lookup { saved_env, continuation } => seq![
            saved_env.tag,
            saved_env.digest,
            continuation.tag,
            continuation.digest,
        ],
        ScalarContinuation::Unop { operator, continuation } => seq![
            op1_field(operator),
            continuation.tag,
            continuation.digest,
        ],
        ScalarContinuation::Binop { operator, saved_env, unevaled_args, continuation } => seq![
            op2_field(operator),
            saved_env.tag,
            saved_env.digest,
            unevaled_args.tag,
            unevaled_args.digest,
            continuation.tag,
            continuation.digest,
        ],
        ScalarContinuation::Binop2 { operator, evaled_arg, continuation } => seq![
            op2_field(operator),
            evaled_arg.tag,
            evaled_arg.digest,
            continuation.tag,
            continuation.digest,
        ],
        ScalarContinuation::Relop { operator, saved_env, unevaled_args, continuation } => seq![
            rel2_field(operator),
            saved_env.tag,
            saved_env.digest,
            unevaled_args.tag,
            unevaled_args.digest,
            continuation.tag,
            continuation.digest,
        ],
        ScalarContinuation::Relop2 { operator, evaled_arg, continuation } => seq![
            rel2_field(operator),
            evaled_arg.tag,
            evaled_arg.digest,
            continuation.tag,
            continuation.digest,
        ],
        ScalarContinuation::If { unevaled_args, continuation } => seq![
            unevaled_args.tag,
            unevaled_args.digest,
            continuation.tag,
            continuation.digest,
        ],
        ScalarContinuation::Let { var, body, saved_env, continuation } => seq![
            var.tag,
            var.digest,
            body.tag,
            body.digest,
            saved_env.tag,
            saved_env.digest,
            continuation.tag,
            continuation.digest,
        ],
        ScalarContinuation::LetRec { var, body, saved_env, continuation } => seq![
            var.tag,
            var.digest,
            body.tag,
            body.digest,
            saved_env.tag,
            saved_env.digest,
            continuation.tag,
            continuation.digest,
        ],
        ScalarContinuation::Emit { continuation } => seq![continuation.tag, continuation.digest],
        ScalarContinuation::Dummy => Seq::empty(),
        ScalarContinuation::Terminal => Seq::empty(),
    }
}

pub open spec fn enc_cont_payload(c: ScalarContinuation) -> Seq<u8> {
    seq![cont_code(c)] + enc_u64s(cont_fields(c))
}

pub open spec fn enc_opt_expr(v: Option<ExprModel>) -> Seq<u8> {
    match v {
        None => seq![0u8],
        Some(m) => seq![1u8] + enc_expr_payload(m),
    }
}

pub open spec fn enc_opt_cont(v: Option<ScalarContinuation>) -> Seq<u8> {
    match v {
        None => seq![0u8],
        Some(c) => seq![1u8] + enc_cont_payload(c),
    }
}

pub open spec fn enc_expr_rows(rows: Seq<(ScalarPtr, Option<ExprModel>)>) -> Seq<u8>
    decreases rows.len(),
{
    if rows.len() == 0 {
        Seq::empty()
    } else {
        enc_u64(rows[0].0.tag) + enc_u64(rows[0].0.digest) + enc_opt_expr(rows[0].1)
            + enc_expr_rows(rows.skip(1))
    }
}

pub open spec fn enc_cont_rows(rows: Seq<(ScalarContPtr, Option<ScalarContinuation>)>) -> Seq<u8>
    decreases rows.len(),
{
    if rows.len() == 0 {
        Seq::empty()
    } else {
        enc_u64(rows[0].0.tag) + enc_u64(rows[0].0.digest) + enc_opt_cont(rows[0].1)
            + enc_cont_rows(rows.skip(1))
    }
}

/// The full interchange encoding of a snapshot graph.
pub open spec fn enc_store(g: ScalarStore) -> Seq<u8> {
    enc_u64(g.expr_model_rows().len() as u64) + enc_expr_rows(g.expr_model_rows()) + enc_u64(
        g.cont_rows@.len() as u64,
    ) + enc_cont_rows(g.cont_rows@)
}

pub proof fn lemma_enc_u64s_len(xs: Seq<u64>)
    ensures
        enc_u64s(xs).len() == 8 * xs.len(),
    decreases xs.len(),
{
    lemma_auto_spec_u64_to_from_le_bytes();
    if xs.len() > 0 {
        lemma_enc_u64s_len(xs.skip(1));
    }
}

pub proof fn lemma_enc_u64s_index(xs: Seq<u64>, i: int)
    requires
        0 <= i < xs.len(),
    ensures
        enc_u64s(xs).subrange(8 * i, 8 * i + 8) == enc_u64(xs[i]),
    decreases i,
{
    lemma_auto_spec_u64_to_from_le_bytes();
    lemma_enc_u64s_len(xs.skip(1));
    if i == 0 {
        assert(enc_u64s(xs).subrange(0, 8) =~= enc_u64(xs[0]));
    } else {
        lemma_enc_u64s_index(xs.skip(1), i - 1);
        assert(enc_u64s(xs).subrange(8 * i, 8 * i + 8) =~= enc_u64s(xs.skip(1)).subrange(
            8 * (i - 1),
            8 * (i - 1) + 8,
        ));
        assert(xs.skip(1)[i - 1] == xs[i]);
    }
}

/// Relies on char::from_u32: it returns the character with the given code
/// exactly when the code is a unicode scalar value (not a surrogate, not
/// above the maximum code point).
#[verifier::external_body]
fn char_from_code(u: u32) -> (r: Option<char>)
    ensures
        r is Some <==> (u < 0xD800 || (0xE000 <= u && u <= 0x10FFFF)),
        r is Some ==> r.unwrap() as u32 == u && r.unwrap() as u64 == u as u64,
        forall|c: char| c as u32 == u ==> r == Some(c),
{
    char::from_u32(u)
}

/// Relies on String: FromIterator<char>: collecting characters yields the
/// string holding exactly that character sequence.
#[verifier::external_body]
fn string_from_chars(v: &Vec<char>) -> (r: String)
    ensures
        r@ == v@,
{
    v.iter().collect()
}

fn push_u64(out: &mut Vec<u8>, x: u64)
    ensures
        final(out)@ == old(out)@ + enc_u64(x),
{
    proof {
        lemma_auto_spec_u64_to_from_le_bytes();
    }
    let mut bs = u64_to_le_bytes(x);
    out.append(&mut bs);
}

fn read_u64(bytes: &Vec<u8>, pos: usize) -> (r: Result<(u64, usize), DecodeError>)
    requires
        pos <= bytes@.len(),
    ensures
        match r {
            Ok((x, p2)) => p2 == pos + 8 && p2 <= bytes@.len() && bytes@.subrange(
                pos as int,
                p2 as int,
            ) == enc_u64(x),
            Err(e) => bytes@.len() < pos + 8 && e == DecodeError::Truncated,
        },
        forall|x: u64|
            bytes@.len() >= pos + 8 && bytes@.subrange(pos as int, pos + 8) == enc_u64(x) ==> r
                == Ok::<(u64, usize), DecodeError>((x, (pos + 8) as usize)),
{
    proof {
        lemma_auto_spec_u64_to_from_le_bytes();
    }
    if bytes.len() - pos >= 8 {
        let x = u64_from_le_bytes(slice_subrange(bytes.as_slice(), pos, pos + 8));
        proof {
            assert(bytes@.subrange(pos as int, pos + 8) =~= enc_u64(x));
        }
        Ok((x, pos + 8))
    } else {
        Err(DecodeError::Truncated)
    }
}

fn read_u8(bytes: &Vec<u8>, pos: usize) -> (r: Result<(u8, usize), DecodeError>)
    requires
        pos <= bytes@.len(),
    ensures
        match r {
            Ok((x, p2)) => p2 == pos + 1 && p2 <= bytes@.len() && bytes@[pos as int] == x,
            Err(e) => bytes@.len() == pos && e == DecodeError::Truncated,
        },
{
    if pos < bytes.len() {
        Ok((bytes[pos], pos + 1))
    } else {
        Err(DecodeError::Truncated)
    }
}

fn push_u64s(out: &mut Vec<u8>, xs: &Vec<u64>)
    ensures
        final(out)@ == old(out)@ + enc_u64s(xs@),
{
    let mut i: usize = 0;
    let ghost base = out@;
    proof {
        assert(out@ =~= base + enc_u64s(xs@.take(0)));
    }
    while i < xs.len()
        invariant
            0 <= i <= xs@.len(),
            out@ == base + enc_u64s(xs@.take(i as int)),
        decreases xs@.len() - i,
    {
        let ghost before = out@;
        push_u64(out, xs[i]);
        proof {
            lemma_enc_u64s_snoc(xs@.take(i as int), xs@[i as int]);
            assert(xs@.take(i + 1) =~= xs@.take(i as int).push(xs@[i as int]));
            assert(out@ =~= base + enc_u64s(xs@.take(i + 1)));
        }
        i = i + 1;
    }
    proof {
        assert(xs@.take(xs@.len() as int) =~= xs@);
    }
}

pub proof fn lemma_enc_u64s_snoc(xs: Seq<u64>, x: u64)
    ensures
        enc_u64s(xs.push(x)) == enc_u64s(xs) + enc_u64(x),
    decreases xs.len(),
{
    if xs.len() == 0 {
        assert(xs.push(x).skip(1) =~= Seq::<u64>::empty());
        assert(enc_u64s(Seq::<u64>::empty()) =~= Seq::<u8>::empty());
        assert(xs.push(x)[0] == x);
        assert(enc_u64s(xs.push(x)) =~= enc_u64(x));
        assert(enc_u64s(xs) + enc_u64(x) =~= enc_u64(x));
    } else {
        assert(xs.push(x).skip(1) =~= xs.skip(1).push(x));
        lemma_enc_u64s_snoc(xs.skip(1), x);
        assert(enc_u64s(xs.push(x)) =~= enc_u64s(xs) + enc_u64(x));
    }
}

/// Reads exactly `n` field elements.
fn read_n_u64s(bytes: &Vec<u8>, pos: usize, n: usize) -> (r: Result<
    (Vec<u64>, usize),
    DecodeError,
>)
    requires
        pos <= bytes@.len(),
    ensures
        match r {
            Ok((v, p2)) => v@.len() == n && pos <= p2 <= bytes@.len() && p2 == pos + 8 * n
                && bytes@.subrange(pos as int, p2 as int) == enc_u64s(v@),
            Err(e) => bytes@.len() < pos + 8 * n && e == DecodeError::Truncated,
        },
        forall|xs: Seq<u64>|
            xs.len() == n && bytes@.len() >= pos + 8 * n && bytes@.subrange(
                pos as int,
                pos + 8 * n,
            ) == enc_u64s(xs) ==> r is Ok && r.unwrap().0@ == xs && r.unwrap().1 == pos + 8 * n,
{
    let mut v: Vec<u64> = Vec::new();
    let mut p = pos;
    let mut i: usize = 0;
    while i < n
        invariant
            0 <= i <= n,
            pos <= p <= bytes@.len(),
            p == pos + 8 * i,
            v@.len() == i,
            bytes@.subrange(pos as int, p as int) == enc_u64s(v@),
            forall|xs: Seq<u64>|
                xs.len() == n && bytes@.len() >= pos + 8 * n && bytes@.subrange(
                    pos as int,
                    pos + 8 * n,
                ) == enc_u64s(xs) ==> v@ == xs.take(i as int),
        decreases n - i,
    {
        let ghost v_before = v@;
        match read_u64(bytes, p) {
            Ok((x, p2)) => {
                v.push(x);
                proof {
                    lemma_enc_u64s_snoc(v_before, x);
                    assert(bytes@.subrange(pos as int, p2 as int) =~= bytes@.subrange(
                        pos as int,
                        p as int,
                    ) + bytes@.subrange(p as int, p2 as int));
                    assert(bytes@.subrange(pos as int, p2 as int) == enc_u64s(v@));
                    assert forall|xs: Seq<u64>|
                        xs.len() == n && bytes@.len() >= pos + 8 * n && bytes@.subrange(
                            pos as int,
                            pos + 8 * n,
                        ) == enc_u64s(xs) implies v@ == xs.take(i + 1) by {
                        assert(v_before == xs.take(i as int));
                        lemma_enc_u64s_index(xs, i as int);
                        assert(bytes@.subrange(p as int, p as int + 8) =~= bytes@.subrange(
                            pos as int,
                            pos + 8 * n,
                        ).subrange(8 * i, 8 * i + 8));
                        assert(bytes@.subrange(p as int, p as int + 8) == enc_u64(xs[i as int]));
                        lemma_auto_spec_u64_to_from_le_bytes();
                        assert(x == xs[i as int]);
                        assert(v@ =~= xs.take(i + 1));
                    }
                }
                p = p2;
            },
            Err(e) => {
                proof {
                    assert(bytes@.len() < p + 8);
                    assert(bytes@.len() < pos + 8 * n);
                }
                return Err(e);
            },
        }
        i = i + 1;
    }
    proof {
        assert forall|xs: Seq<u64>|
            xs.len() == n && bytes@.len() >= pos + 8 * n && bytes@.subrange(pos as int, pos + 8 * n)
                == enc_u64s(xs) implies v@ == xs by {
            assert(v@ == xs.take(n as int));
            assert(xs.take(n as int) =~= xs);
        }
    }
    Ok((v, p))
}

fn op1_from_field(x: u64) -> (r: Option<Op1>)
    ensures
        match r {
            Some(op) => op1_field(op) == x,
            None => true,
        },
        forall|op: Op1| op1_field(op) == x ==> r == Some(op),
{
    match x {
        0 => Some(Op1::Car),
        1 => Some(Op1::Cdr),
        2 => Some(Op1::Atom),
        3 => Some(Op1::Emit),
        _ => None,
    }
}

fn op2_from_field(x: u64) -> (r: Option<Op2>)
    ensures
        match r {
            Some(op) => op2_field(op) == x,
            None => true,
        },
        forall|op: Op2| op2_field(op) == x ==> r == Some(op),
{
    match x {
        0 => Some(Op2::Sum),
        1 => Some(Op2::Diff),
        2 => Some(Op2::Product),
        3 => Some(Op2::Quotient),
        4 => Some(Op2::Cons),
        _ => None,
    }
}

fn rel2_from_field(x: u64) -> (r: Option<Rel2>)
    ensures
        match r {
            Some(op) => rel2_field(op) == x,
            None => true,
        },
        forall|op: Rel2| rel2_field(op) == x ==> r == Some(op),
{
    match x {
        0 => Some(Rel2::Equal),
        1 => Some(Rel2::NumEqual),
        _ => None,
    }
}

/// Exec counterpart of [`expr_model_tag`] on a payload value.
fn expr_tag_of(e: &ScalarExpression) -> (r: u64)
    ensures
        r == expr_model_tag(e.model()),
{
    match e {
        ScalarExpression::Nil => crate::ptrs::TAG_NIL,
        ScalarExpression::Cons(..) => crate::ptrs::TAG_CONS,
        ScalarExpression::Comm(..) => crate::ptrs::TAG_COMM,
        ScalarExpression::Sym(..) => crate::ptrs::TAG_SYM,
        ScalarExpression::Fun { .. } => crate::ptrs::TAG_FUN,
        ScalarExpression::Num(..) => crate::ptrs::TAG_NUM,
        ScalarExpression::Str(..) => crate::ptrs::TAG_STR,
        ScalarExpression::Thunk(..) => crate::ptrs::TAG_THUNK,
        ScalarExpression::Char(..) => crate::ptrs::TAG_CHAR,
    }
}

/// Exec counterpart of [`cont_tag`].
fn cont_tag_of(c: &ScalarContinuation) -> (r: u64)
    ensures
        r == cont_tag(*c),
{
    match c {
        ScalarContinuation::Outermost => crate::ptrs::TAG_OUTERMOST,
        ScalarContinuation::Call { .. } => crate::ptrs::TAG_CALL,
        ScalarContinuation::Call2 { .. } => crate::ptrs::TAG_CALL2,
        ScalarContinuation::Tail { .. } => crate::ptrs::TAG_TAIL,
        ScalarContinuation::Error => crate::ptrs::TAG_ERROR,
        ScalarContinuation::Lookup { .. } => crate::ptrs::TAG_LOOKUP,
        ScalarContinuation::Unop { .. } => crate::ptrs::TAG_UNOP,
        ScalarContinuation::Binop { .. } => crate::ptrs::TAG_BINOP,
        ScalarContinuation::Binop2 { .. } => crate::ptrs::TAG_BINOP2,
        ScalarContinuation::Relop { .. } => crate::ptrs::TAG_RELOP,
        ScalarContinuation::Relop2 { .. } => crate::ptrs::TAG_RELOP2,
        ScalarContinuation::If { .. } => crate::ptrs::TAG_IF,
        ScalarContinuation::Let { .. } => crate::ptrs::TAG_LET,
        ScalarContinuation::LetRec { .. } => crate::ptrs::TAG_LETREC,
        ScalarContinuation::Emit { .. } => crate::ptrs::TAG_EMIT,
        ScalarContinuation::Dummy => crate::ptrs::TAG_DUMMY,
        ScalarContinuation::Terminal => crate::ptrs::TAG_TERMINAL,
    }
}

fn encode_string(s: &str, out: &mut Vec<u8>)
    ensures
        final(out)@ == old(out)@ + enc_string(s@),
{
    let n = s.unicode_len();
    push_u64(out, n as u64);
    let ghost base = out@;
    let mut i: usize = 0;
    proof {
        assert(char_codes(s@).take(0) =~= Seq::<u64>::empty());
        assert(out@ =~= base + enc_u64s(char_codes(s@).take(0)));
    }
    while i < n
        invariant
            0 <= i <= n,
            n == s@.len(),
            out@ == base + enc_u64s(char_codes(s@).take(i as int)),
        decreases n - i,
    {
        let c = s.get_char(i);
        push_u64(out, (c as u32) as u64);
        proof {
            lemma_enc_u64s_snoc(char_codes(s@).take(i as int), (c as u32) as u64);
            assert(char_codes(s@).take(i + 1) =~= char_codes(s@).take(i as int).push(
                (c as u32) as u64,
            ));
            assert(out@ =~= base + enc_u64s(char_codes(s@).take(i + 1)));
        }
        i = i + 1;
    }
    proof {
        assert(char_codes(s@).take(n as int) =~= char_codes(s@));
        assert(out@ =~= old(out)@ + enc_string(s@));
    }
}

proof fn lemma_string_match_parts(bytes: Seq<u8>, pos: int, sq: Seq<char>)
    requires
        0 <= pos,
        pos + enc_string(sq).len() <= bytes.len(),
        bytes.subrange(pos, pos + enc_string(sq).len()) == enc_string(sq),
    ensures
        enc_string(sq).len() == 8 + 8 * sq.len(),
        bytes.subrange(pos, pos + 8) == enc_u64(sq.len() as u64),
        bytes.subrange(pos + 8, pos + 8 + 8 * sq.len()) == enc_u64s(char_codes(sq)),
{
    lemma_auto_spec_u64_to_from_le_bytes();
    lemma_enc_u64s_len(char_codes(sq));
    let es = enc_string(sq);
    assert(bytes.subrange(pos, pos + 8) =~= es.subrange(0, 8));
    assert(es.subrange(0, 8) =~= enc_u64(sq.len() as u64));
    assert(bytes.subrange(pos + 8, pos + 8 + 8 * sq.len()) =~= es.subrange(8, es.len() as int));
    assert(es.subrange(8, es.len() as int) =~= enc_u64s(char_codes(sq)));
}

/// The encoding of the character sequence `sq` sits at `pos`.
spec fn string_at(bytes: Seq<u8>, pos: int, sq: Seq<char>) -> bool {
    bytes.len() >= pos + enc_string(sq).len() && bytes.subrange(
        pos,
        pos + enc_string(sq).len(),
    ) == enc_string(sq)
}

fn decode_string(bytes: &Vec<u8>, pos: usize) -> (r: Result<(String, usize), DecodeError>)
    requires
        pos <= bytes@.len(),
    ensures
        match r {
            Ok((s, p2)) => pos <= p2 <= bytes@.len() && bytes@.subrange(pos as int, p2 as int)
                == enc_string(s@),
            Err(_) => true,
        },
        forall|sq: Seq<char>|
            string_at(bytes@, pos as int, sq) ==> r is Ok && r.unwrap().0@ == sq
                && r.unwrap().1 == pos + enc_string(sq).len(),
{
    proof {
        lemma_auto_spec_u64_to_from_le_bytes();
    }
    let total = bytes.len();
    let (n64, p1) = match read_u64(bytes, pos) {
        Ok(v) => v,
        Err(e) => {
            proof {
                assert forall|sq: Seq<char>| !string_at(bytes@, pos as int, sq) by {
                    lemma_enc_u64s_len(char_codes(sq));
                }
            }
            return Err(e);
        },
    };
    proof {
        assert forall|sq: Seq<char>|
            string_at(bytes@, pos as int, sq) implies sq.len() as u64 == n64 && sq.len()
            < usize::MAX by {
            lemma_string_match_parts(bytes@, pos as int, sq);
            assert(total <= usize::MAX);
        }
    }
    if n64 > (usize::MAX as u64) / 8 {
        proof {
            assert forall|sq: Seq<char>| !string_at(bytes@, pos as int, sq) by {
                if string_at(bytes@, pos as int, sq) {
                    lemma_string_match_parts(bytes@, pos as int, sq);
                    assert(total <= usize::MAX);
                    assert(8 * sq.len() <= total);
                }
            }
        }
        return Err(DecodeError::Truncated);
    }
    let n = n64 as usize;
    let (codes, p2) = match read_n_u64s(bytes, p1, n) {
        Ok(v) => v,
        Err(e) => {
            proof {
                assert forall|sq: Seq<char>| !string_at(bytes@, pos as int, sq) by {
                    if string_at(bytes@, pos as int, sq) {
                        lemma_string_match_parts(bytes@, pos as int, sq);
                        assert(bytes@.len() >= p1 + 8 * n);
                    }
                }
            }
            return Err(e);
        },
    };
    proof {
        assert forall|sq: Seq<char>|
            string_at(bytes@, pos as int, sq) implies codes@ == char_codes(sq) by {
            lemma_string_match_parts(bytes@, pos as int, sq);
        }
    }
    let mut cs: Vec<char> = Vec::new();
    let mut i: usize = 0;
    while i < n
        invariant
            0 <= i <= n,
            codes@.len() == n,
            cs@.len() == i,
            forall|j: int| 0 <= j < i ==> ((#[trigger] cs@[j]) as u32) as u64 == codes@[j],
            forall|sq: Seq<char>|
                string_at(bytes@, pos as int, sq) ==> codes@ == char_codes(sq),
        decreases n - i,
    {
        let code = codes[i];
        let c_opt = if code > 0x10FFFF {
            None
        } else {
            char_from_code(code as u32)
        };
        match c_opt {
            Some(c) => {
                proof {
                    assert(code <= 0x10FFFF);
                    assert(code as u32 as u64 == code) by (bit_vector)
                        requires
                            code <= 0x10FFFF,
                    ;
                    assert(c as u32 == code as u32);
                    assert((c as u32) as u64 == code);
                }
                cs.push(c);
            },
            None => {
                proof {
                    assert forall|sq: Seq<char>| !string_at(bytes@, pos as int, sq) by {
                        if string_at(bytes@, pos as int, sq) {
                            assert(codes@ == char_codes(sq));
                            assert(sq.len() == n);
                            let sc = sq[i as int];
                            assert(char_codes(sq)[i as int] == (sc as u32) as u64);
                            assert(code == (sc as u32) as u64);
                            vstd::utf8::char_is_scalar(sc);
                            assert(vstd::utf8::is_scalar(sc as u32));
                            assert(code <= 0x10FFFF);
                            assert(code as u32 as u64 == code) by (bit_vector)
                                requires
                                    code <= 0x10FFFF,
                            ;
                            assert(sc as u32 == code as u32);
                        }
                    }
                }
                return Err(DecodeError::BadChar);
            },
        }
        i = i + 1;
    }
    let s = string_from_chars(&cs);
    proof {
        assert(char_codes(s@) =~= codes@);
        assert(bytes@.subrange(pos as int, p2 as int) =~= bytes@.subrange(pos as int, p1 as int)
            + bytes@.subrange(p1 as int, p2 as int));
        lemma_enc_u64s_len(codes@);
        assert(s@.len() == n);
        assert(n64 <= usize::MAX as u64);
        assert(s@.len() as u64 == n64);
        assert(bytes@.subrange(pos as int, p1 as int) == enc_u64(n64));
        assert(enc_u64s(char_codes(s@)) == enc_u64s(codes@));
        assert(bytes@.subrange(pos as int, p2 as int) =~= enc_string(s@));
        assert forall|sq: Seq<char>|
            string_at(bytes@, pos as int, sq) implies s@ == sq && p2 == pos + enc_string(
            sq,
        ).len() by {
            lemma_string_match_parts(bytes@, pos as int, sq);
            assert(codes@ == char_codes(sq));
            assert(sq.len() == n);
            assert forall|j: int| 0 <= j < n implies s@[j] == sq[j] by {
                assert((s@[j] as u32) as u64 == codes@[j]);
                assert(char_codes(sq)[j] == (sq[j] as u32) as u64);
                assert(s@[j] as u32 == sq[j] as u32);
                vstd::utf8::char_u32_cast(s@[j], s@[j] as u32);
                vstd::utf8::char_u32_cast(sq[j], sq[j] as u32);
                assert((s@[j] as u32) as char == s@[j]);
                assert((sq[j] as u32) as char == sq[j]);
            }
            assert(s@ =~= sq);
        }
    }
    Ok((s, p2))
}

/// Splitting a concatenation off the remainder of the input.
proof fn lemma_skip_concat(bytes: Seq<u8>, pos: int, a: Seq<u8>, t: Seq<u8>)
    requires
        0 <= pos <= bytes.len(),
        bytes.skip(pos) == a + t,
    ensures
        pos + a.len() <= bytes.len(),
        bytes.subrange(pos, pos + a.len()) == a,
        bytes.skip(pos + a.len()) == t,
{
    assert(bytes.skip(pos).len() == a.len() + t.len());
    assert forall|x: int| 0 <= x < a.len() implies bytes[pos + x] == a[x] by {
        assert(bytes.skip(pos)[x] == bytes[pos + x]);
        assert((a + t)[x] == a[x]);
        assert(bytes.skip(pos)[x] == (a + t)[x]);
    }
    assert forall|x: int| 0 <= x < t.len() implies bytes[pos + a.len() + x] == t[x] by {
        assert(bytes.skip(pos)[a.len() + x] == bytes[pos + a.len() + x]);
        assert((a + t)[a.len() + x] == t[x]);
        assert(bytes.skip(pos)[a.len() + x] == (a + t)[a.len() + x]);
    }
    assert(bytes.subrange(pos, pos + a.len()) =~= a);
    assert(bytes.skip(pos + a.len()) =~= t);
}

/// Builds a fixed-arity expression payload back from its variant code and
/// field elements; the string-carrying variants are handled separately.
fn expr_from_fields(code: u8, v: &Vec<u64>) -> (r: Result<ScalarExpression, DecodeError>)
    requires
        code != 3 && code != 6,
    ensures
        match r {
            Ok(e) => expr_code(e.model()) == code && expr_fields(e.model()) == v@ && !(e is Sym)
                && !(e is Str),
            Err(_) => true,
        },
        forall|m: ExprModel|
            !(m is Sym) && !(m is Str) && expr_code(m) == code && expr_fields(m) == v@ ==> r is Ok
                && r.unwrap().model() == m,
{
    match code {
        0 => {
            if v.len() == 0 {
                proof {
                    assert(v@ =~= expr_fields(ExprModel::Nil));
                }
                Ok(ScalarExpression::Nil)
            } else {
                Err(DecodeError::BadVariant)
            }
        },
        1 => {
            if v.len() == 4 {
                let e = ScalarExpression::Cons(
                    ScalarPtr { tag: v[0], digest: v[1] },
                    ScalarPtr { tag: v[2], digest: v[3] },
                );
                proof {
                    assert(expr_fields(e.model()) =~= v@);
                }
                Ok(e)
            } else {
                Err(DecodeError::BadVariant)
            }
        },
        2 => {
            if v.len() == 3 {
                let e = ScalarExpression::Comm(v[0], ScalarPtr { tag: v[1], digest: v[2] });
                proof {
                    assert(expr_fields(e.model()) =~= v@);
                }
                Ok(e)
            } else {
                Err(DecodeError::BadVariant)
            }
        },
        4 => {
            if v.len() == 6 {
                let e = ScalarExpression::Fun {
                    arg: ScalarPtr { tag: v[0], digest: v[1] },
                    body: ScalarPtr { tag: v[2], digest: v[3] },
                    closed_env: ScalarPtr { tag: v[4], digest: v[5] },
                };
                proof {
                    assert(expr_fields(e.model()) =~= v@);
                }
                Ok(e)
            } else {
                Err(DecodeError::BadVariant)
            }
        },
        5 => {
            if v.len() == 1 {
                let e = ScalarExpression::Num(v[0]);
                proof {
                    assert(expr_fields(e.model()) =~= v@);
                }
                Ok(e)
            } else {
                Err(DecodeError::BadVariant)
            }
        },
        7 => {
            if v.len() == 4 {
                let e = ScalarExpression::Thunk(
                    ScalarThunk {
                        value: ScalarPtr { tag: v[0], digest: v[1] },
                        continuation: ScalarContPtr { tag: v[2], digest: v[3] },
                    },
                );
                proof {
                    assert(expr_fields(e.model()) =~= v@);
                }
                Ok(e)
            } else {
                Err(DecodeError::BadVariant)
            }
        },
        8 => {
            if v.len() == 1 {
                let code_pt = v[0];
                if code_pt > 0x10FFFF {
                    proof {
                        assert forall|m: ExprModel|
                            !(!(m is Sym) && !(m is Str) && expr_code(m) == code && expr_fields(m)
                                == v@) by {
                            if !(m is Sym) && !(m is Str) && expr_code(m) == code && expr_fields(m)
                                == v@ {
                                let c = m->Char_0;
                                vstd::utf8::char_is_scalar(c);
                                assert(expr_fields(m)[0] == (c as u32) as u64);
                                assert(false);
                            }
                        }
                    }
                    return Err(DecodeError::BadChar);
                }
                match char_from_code(code_pt as u32) {
                    Some(c) => {
                        proof {
                            assert(code_pt as u32 as u64 == code_pt) by (bit_vector)
                                requires
                                    code_pt <= 0x10FFFF,
                            ;
                            assert((c as u32) as u64 == code_pt);
                            assert(expr_fields(ExprModel::Char(c)) =~= v@);
                            assert forall|m: ExprModel|
                                !(m is Sym) && !(m is Str) && expr_code(m) == code && expr_fields(
                                    m,
                                ) == v@ implies ScalarExpression::Char(c).model() == m by {
                                let c2 = m->Char_0;
                                vstd::utf8::char_is_scalar(c2);
                                assert((c2 as u32) as u64 == v@[0]);
                                assert(c2 as u32 == code_pt as u32);
                                assert(c as u32 == code_pt as u32);
                                vstd::utf8::char_u32_cast(c, c as u32);
                                vstd::utf8::char_u32_cast(c2, c2 as u32);
                            }
                        }
                        Ok(ScalarExpression::Char(c))
                    },
                    None => {
                        proof {
                            assert forall|m: ExprModel|
                                !(!(m is Sym) && !(m is Str) && expr_code(m) == code
                                    && expr_fields(m) == v@) by {
                                if !(m is Sym) && !(m is Str) && expr_code(m) == code
                                    && expr_fields(m) == v@ {
                                    let c2 = m->Char_0;
                                    vstd::utf8::char_is_scalar(c2);
                                    assert(expr_fields(m)[0] == (c2 as u32) as u64);
                                    assert((c2 as u32) as u64 == code_pt);
                                    assert(code_pt as u32 as u64 == code_pt) by (bit_vector)
                                        requires
                                            code_pt <= 0x10FFFF,
                                    ;
                                    assert(c2 as u32 == code_pt as u32);
                                    assert(false);
                                }
                            }
                        }
                        Err(DecodeError::BadChar)
                    },
                }
            } else {
                Err(DecodeError::BadVariant)
            }
        },
        _ => Err(DecodeError::BadVariant),
    }
}

/// Builds a continuation payload back from its variant code and fields.
fn cont_from_fields(code: u8, v: &Vec<u64>) -> (r: Result<ScalarContinuation, DecodeError>)
    ensures
        match r {
            Ok(c) => cont_code(c) == code && cont_fields(c) == v@,
            Err(_) => true,
        },
        forall|c: ScalarContinuation|
            cont_code(c) == code && cont_fields(c) == v@ ==> r == Ok::<
                ScalarContinuation,
                DecodeError,
            >(c),
{
    match code {
        0 => {
            if v.len() == 0 {
                proof {
                    assert(v@ =~= cont_fields(ScalarContinuation::Outermost));
                }
                Ok(ScalarContinuation::Outermost)
            } else {
                Err(DecodeError::BadVariant)
            }
        },
        1 => {
            if v.len() == 6 {
                let c = ScalarContinuation::Call {
                    unevaled_arg: ScalarPtr { tag: v[0], digest: v[1] },
                    saved_env: ScalarPtr { tag: v[2], digest: v[3] },
                    continuation: ScalarContPtr { tag: v[4], digest: v[5] },
                };
                proof {
                    assert(cont_fields(c) =~= v@);
                }
                Ok(c)
            } else {
                Err(DecodeError::BadVariant)
            }
        },
        2 => {
            if v.len() == 6 {
                let c = ScalarContinuation::Call2 {
                    function: ScalarPtr { tag: v[0], digest: v[1] },
                    saved_env: ScalarPtr { tag: v[2], digest: v[3] },
                    continuation: ScalarContPtr { tag: v[4], digest: v[5] },
                };
                proof {
                    assert(cont_fields(c) =~= v@);
                }
                Ok(c)
            } else {
                Err(DecodeError::BadVariant)
            }
        },
        3 => {
            if v.len() == 4 {
                let c = ScalarContinuation::Tail {
                    saved_env: ScalarPtr { tag: v[0], digest: v[1] },
                    continuation: ScalarContPtr { tag: v[2], digest: v[3] },
                };
                proof {
                    assert(cont_fields(c) =~= v@);
                }
                Ok(c)
            } else {
                Err(DecodeError::BadVariant)
            }
        },
        4 => {
            if v.len() == 0 {
                proof {
                    assert(v@ =~= cont_fields(ScalarContinuation::Error));
                }
                Ok(ScalarContinuation::Error)
            } else {
                Err(DecodeError::BadVariant)
            }
        },
        5 => {
            if v.len() == 4 {
                let c = ScalarContinuation::Lookup {
                    saved_env: ScalarPtr { tag: v[0], digest: v[1] },
                    continuation: ScalarContPtr { tag: v[2], digest: v[3] },
                };
                proof {
                    assert(cont_fields(c) =~= v@);
                }
                Ok(c)
            } else {
                Err(DecodeError::BadVariant)
            }
        },
        6 => {
            if v.len() == 3 {
                match op1_from_field(v[0]) {
                    Some(op) => {
                        let c = ScalarContinuation::Unop {
                            operator: op,
                            continuation: ScalarContPtr { tag: v[1], digest: v[2] },
                        };
                        proof {
                            assert(cont_fields(c) =~= v@);
                        }
                        Ok(c)
                    },
                    None => Err(DecodeError::BadOperator),
                }
            } else {
                Err(DecodeError::BadVariant)
            }
        },
        7 => {
            if v.len() == 7 {
                match op2_from_field(v[0]) {
                    Some(op) => {
                        let c = ScalarContinuation::Binop {
                            operator: op,
                            saved_env: ScalarPtr { tag: v[1], digest: v[2] },
                            unevaled_args: ScalarPtr { tag: v[3], digest: v[4] },
                            continuation: ScalarContPtr { tag: v[5], digest: v[6] },
                        };
                        proof {
                            assert(cont_fields(c) =~= v@);
                        }
                        Ok(c)
                    },
                    None => Err(DecodeError::BadOperator),
                }
            } else {
                Err(DecodeError::BadVariant)
            }
        },
        8 => {
            if v.len() == 5 {
                match op2_from_field(v[0]) {
                    Some(op) => {
                        let c = ScalarContinuation::Binop2 {
                            operator: op,
                            evaled_arg: ScalarPtr { tag: v[1], digest: v[2] },
                            continuation: ScalarContPtr { tag: v[3], digest: v[4] },
                        };
                        proof {
                            assert(cont_fields(c) =~= v@);
                        }
                        Ok(c)
                    },
                    None => Err(DecodeError::BadOperator),
                }
            } else {
                Err(DecodeError::BadVariant)
            }
        },
        9 => {
            if v.len() == 7 {
                match rel2_from_field(v[0]) {
                    Some(op) => {
                        let c = ScalarContinuation::Relop {
                            operator: op,
                            saved_env: ScalarPtr { tag: v[1], digest: v[2] },
                            unevaled_args: ScalarPtr { tag: v[3], digest: v[4] },
                            continuation: ScalarContPtr { tag: v[5], digest: v[6] },
                        };
                        proof {
                            assert(cont_fields(c) =~= v@);
                        }
                        Ok(c)
                    },
                    None => Err(DecodeError::BadOperator),
                }
            } else {
                Err(DecodeError::BadVariant)
            }
        },
        10 => {
            if v.len() == 5 {
                match rel2_from_field(v[0]) {
                    Some(op) => {
                        let c = ScalarContinuation::Relop2 {
                            operator: op,
                            evaled_arg: ScalarPtr { tag: v[1], digest: v[2] },
                            continuation: ScalarContPtr { tag: v[3], digest: v[4] },
                        };
                        proof {
                            assert(cont_fields(c) =~= v@);
                        }
                        Ok(c)
                    },
                    None => Err(DecodeError::BadOperator),
                }
            } else {
                Err(DecodeError::BadVariant)
            }
        },
        11 => {
            if v.len() == 4 {
                let c = ScalarContinuation::If {
                    unevaled_args: ScalarPtr { tag: v[0], digest: v[1] },
                    continuation: ScalarContPtr { tag: v[2], digest: v[3] },
                };
                proof {
                    assert(cont_fields(c) =~= v@);
                }
                Ok(c)
            } else {
                Err(DecodeError::BadVariant)
            }
        },
        12 => {
            if v.len() == 8 {
                let c = ScalarContinuation::Let {
                    var: ScalarPtr { tag: v[0], digest: v[1] },
                    body: ScalarPtr { tag: v[2], digest: v[3] },
                    saved_env: ScalarPtr { tag: v[4], digest: v[5] },
                    continuation: ScalarContPtr { tag: v[6], digest: v[7] },
                };
                proof {
                    assert(cont_fields(c) =~= v@);
                }
                Ok(c)
            } else {
                Err(DecodeError::BadVariant)
            }
        },
        13 => {
            if v.len() == 8 {
                let c = ScalarContinuation::LetRec {
                    var: ScalarPtr { tag: v[0], digest: v[1] },
                    body: ScalarPtr { tag: v[2], digest: v[3] },
                    saved_env: ScalarPtr { tag: v[4], digest: v[5] },
                    continuation: ScalarContPtr { tag: v[6], digest: v[7] },
                };
                proof {
                    assert(cont_fields(c) =~= v@);
                }
                Ok(c)
            } else {
                Err(DecodeError::BadVariant)
            }
        },
        14 => {
            if v.len() == 2 {
                let c = ScalarContinuation::Emit {
                    continuation: ScalarContPtr { tag: v[0], digest: v[1] },
                };
                proof {
                    assert(cont_fields(c) =~= v@);
                }
                Ok(c)
            } else {
                Err(DecodeError::BadVariant)
            }
        },
        15 => {
            if v.len() == 0 {
                proof {
                    assert(v@ =~= cont_fields(ScalarContinuation::Dummy));
                }
                Ok(ScalarContinuation::Dummy)
            } else {
                Err(DecodeError::BadVariant)
            }
        },
        16 => {
            if v.len() == 0 {
                proof {
                    assert(v@ =~= cont_fields(ScalarContinuation::Terminal));
                }
                Ok(ScalarContinuation::Terminal)
            } else {
                Err(DecodeError::BadVariant)
            }
        },
        _ => Err(DecodeError::BadVariant),
    }
}

/// Number of field elements each continuation variant carries.
fn cont_arity(code: u8) -> (n: usize)
    ensures
        forall|c: ScalarContinuation| cont_code(c) == code ==> cont_fields(c).len() == n,
{
    match code {
        1 => 6,
        2 => 6,
        3 => 4,
        5 => 4,
        6 => 3,
        7 => 7,
        8 => 5,
        9 => 7,
        10 => 5,
        11 => 4,
        12 => 8,
        13 => 8,
        14 => 2,
        _ => 0,
    }
}

/// Number of field elements each fixed-arity expression variant carries.
fn expr_arity(code: u8) -> (n: usize)
    ensures
        forall|m: ExprModel|
            !(m is Sym) && !(m is Str) && expr_code(m) == code ==> expr_fields(m).len() == n,
{
    match code {
        1 => 4,
        2 => 3,
        4 => 6,
        5 => 1,
        7 => 4,
        8 => 1,
        _ => 0,
    }
}

proof fn lemma_subrange_concat(bytes: Seq<u8>, pos: int, a: Seq<u8>, b: Seq<u8>)
    requires
        0 <= pos,
        pos + a.len() + b.len() <= bytes.len(),
        bytes.subrange(pos, pos + a.len() + b.len()) == a + b,
    ensures
        bytes.subrange(pos, pos + a.len()) == a,
        bytes.subrange(pos + a.len(), pos + a.len() + b.len()) == b,
{
    assert forall|x: int| 0 <= x < a.len() implies bytes[pos + x] == a[x] by {
        assert(bytes.subrange(pos, pos + a.len() + b.len())[x] == bytes[pos + x]);
        assert((a + b)[x] == a[x]);
    }
    assert forall|x: int| 0 <= x < b.len() implies bytes[pos + a.len() + x] == b[x] by {
        assert(bytes.subrange(pos, pos + a.len() + b.len())[a.len() + x] == bytes[pos + a.len()
            + x]);
        assert((a + b)[a.len() + x] == b[x]);
    }
    assert(bytes.subrange(pos, pos + a.len()) =~= a);
    assert(bytes.subrange(pos + a.len(), pos + a.len() + b.len()) =~= b);
}

/// The encoding of the expression payload `m` sits at `pos`.
spec fn expr_payload_at(bytes: Seq<u8>, pos: int, m: ExprModel) -> bool {
    bytes.len() >= pos + enc_expr_payload(m).len() && bytes.subrange(
        pos,
        pos + enc_expr_payload(m).len(),
    ) == enc_expr_payload(m)
}

proof fn lemma_expr_payload_parts(bytes: Seq<u8>, pos: int, m: ExprModel)
    requires
        0 <= pos,
        expr_payload_at(bytes, pos, m),
    ensures
        enc_expr_payload(m).len() >= 1,
        bytes[pos] == expr_code(m),
        m is Sym ==> string_at(bytes, pos + 1, m->Sym_0) && enc_expr_payload(m).len() == 1
            + enc_string(m->Sym_0).len(),
        m is Str ==> string_at(bytes, pos + 1, m->Str_0) && enc_expr_payload(m).len() == 1
            + enc_string(m->Str_0).len(),
        !(m is Sym) && !(m is Str) ==> enc_expr_payload(m).len() == 1 + 8 * expr_fields(m).len()
            && bytes.subrange(pos + 1, pos + 1 + 8 * expr_fields(m).len()) == enc_u64s(
            expr_fields(m),
        ),
{
    let body: Seq<u8> = if m is Sym {
        enc_string(m->Sym_0)
    } else if m is Str {
        enc_string(m->Str_0)
    } else {
        enc_u64s(expr_fields(m))
    };
    assert(enc_expr_payload(m) =~= seq![expr_code(m)] + body);
    lemma_subrange_concat(bytes, pos, seq![expr_code(m)], body);
    assert(bytes[pos] == bytes.subrange(pos, pos + 1)[0]);
    if !(m is Sym) && !(m is Str) {
        lemma_enc_u64s_len(expr_fields(m));
    } else if m is Sym {
        lemma_enc_u64s_len(char_codes(m->Sym_0));
    } else {
        lemma_enc_u64s_len(char_codes(m->Str_0));
    }
}

/// The encoding of the continuation payload `c` sits at `pos`.
spec fn cont_payload_at(bytes: Seq<u8>, pos: int, c: ScalarContinuation) -> bool {
    bytes.len() >= pos + enc_cont_payload(c).len() && bytes.subrange(
        pos,
        pos + enc_cont_payload(c).len(),
    ) == enc_cont_payload(c)
}

proof fn lemma_cont_payload_parts(bytes: Seq<u8>, pos: int, c: ScalarContinuation)
    requires
        0 <= pos,
        cont_payload_at(bytes, pos, c),
    ensures
        enc_cont_payload(c).len() == 1 + 8 * cont_fields(c).len(),
        bytes[pos] == cont_code(c),
        bytes.subrange(pos + 1, pos + 1 + 8 * cont_fields(c).len()) == enc_u64s(cont_fields(c)),
{
    lemma_enc_u64s_len(cont_fields(c));
    assert(enc_cont_payload(c) =~= seq![cont_code(c)] + enc_u64s(cont_fields(c)));
    lemma_subrange_concat(bytes, pos, seq![cont_code(c)], enc_u64s(cont_fields(c)));
    assert(bytes[pos] == bytes.subrange(pos, pos + 1)[0]);
}

fn decode_expr_payload(bytes: &Vec<u8>, pos: usize) -> (r: Result<
    (ScalarExpression, usize),
    DecodeError,
>)
    requires
        pos <= bytes@.len(),
    ensures
        match r {
            Ok((e, p2)) => pos <= p2 <= bytes@.len() && bytes@.subrange(pos as int, p2 as int)
                == enc_expr_payload(e.model()),
            Err(_) => true,
        },
        forall|m: ExprModel|
            expr_payload_at(bytes@, pos as int, m) ==> r is Ok && r.unwrap().0.model() == m
                && r.unwrap().1 == pos + enc_expr_payload(m).len(),
{
    let (code, p1) = match read_u8(bytes, pos) {
        Ok(v) => v,
        Err(e) => {
            proof {
                assert forall|m: ExprModel| !expr_payload_at(bytes@, pos as int, m) by {
                    if expr_payload_at(bytes@, pos as int, m) {
                        lemma_expr_payload_parts(bytes@, pos as int, m);
                    }
                }
            }
            return Err(e);
        },
    };
    proof {
        assert forall|m: ExprModel|
            expr_payload_at(bytes@, pos as int, m) implies expr_code(m) == code by {
            lemma_expr_payload_parts(bytes@, pos as int, m);
        }
    }
    if code == 3 || code == 6 {
        match decode_string(bytes, p1) {
            Ok((sv, p2)) => {
                let e = if code == 3 {
                    ScalarExpression::Sym(sv)
                } else {
                    ScalarExpression::Str(sv)
                };
                proof {
                    assert(bytes@.subrange(pos as int, p2 as int) =~= seq![code]
                        + bytes@.subrange(p1 as int, p2 as int));
                    assert(bytes@.subrange(pos as int, p2 as int) =~= enc_expr_payload(e.model()));
                    assert forall|m: ExprModel|
                        expr_payload_at(bytes@, pos as int, m) implies e.model() == m && p2 == pos
                        + enc_expr_payload(m).len() by {
                        lemma_expr_payload_parts(bytes@, pos as int, m);
                        let sq = if m is Sym {
                            m->Sym_0
                        } else {
                            m->Str_0
                        };
                        assert(string_at(bytes@, p1 as int, sq));
                        assert(sv@ == sq);
                    }
                }
                Ok((e, p2))
            },
            Err(e) => {
                proof {
                    assert forall|m: ExprModel| !expr_payload_at(bytes@, pos as int, m) by {
                        if expr_payload_at(bytes@, pos as int, m) {
                            lemma_expr_payload_parts(bytes@, pos as int, m);
                        }
                    }
                }
                Err(e)
            },
        }
    } else {
        let n = expr_arity(code);
        match read_n_u64s(bytes, p1, n) {
            Ok((v, p2)) => {
                match expr_from_fields(code, &v) {
                    Ok(e) => {
                        proof {
                            assert(bytes@.subrange(pos as int, p2 as int) =~= seq![code]
                                + bytes@.subrange(p1 as int, p2 as int));
                            assert(bytes@.subrange(pos as int, p2 as int) =~= enc_expr_payload(
                                e.model(),
                            ));
                            assert forall|m: ExprModel|
                                expr_payload_at(bytes@, pos as int, m) implies e.model() == m
                                && p2 == pos + enc_expr_payload(m).len() by {
                                lemma_expr_payload_parts(bytes@, pos as int, m);
                                assert(expr_fields(m).len() == n);
                                assert(v@ == expr_fields(m));
                            }
                        }
                        Ok((e, p2))
                    },
                    Err(e) => {
                        proof {
                            assert forall|m: ExprModel| !expr_payload_at(bytes@, pos as int, m) by {
                                if expr_payload_at(bytes@, pos as int, m) {
                                    lemma_expr_payload_parts(bytes@, pos as int, m);
                                    assert(expr_fields(m).len() == n);
                                    assert(v@ == expr_fields(m));
                                }
                            }
                        }
                        Err(e)
                    },
                }
            },
            Err(e) => {
                proof {
                    assert forall|m: ExprModel| !expr_payload_at(bytes@, pos as int, m) by {
                        if expr_payload_at(bytes@, pos as int, m) {
                            lemma_expr_payload_parts(bytes@, pos as int, m);
                            assert(expr_fields(m).len() == n);
                        }
                    }
                }
                Err(e)
            },
        }
    }
}

fn decode_cont_payload(bytes: &Vec<u8>, pos: usize) -> (r: Result<
    (ScalarContinuation, usize),
    DecodeError,
>)
    requires
        pos <= bytes@.len(),
    ensures
        match r {
            Ok((c, p2)) => pos <= p2 <= bytes@.len() && bytes@.subrange(pos as int, p2 as int)
                == enc_cont_payload(c),
            Err(_) => true,
        },
        forall|c: ScalarContinuation|
            cont_payload_at(bytes@, pos as int, c) ==> r == Ok::<
                (ScalarContinuation, usize),
                DecodeError,
            >((c, (pos + enc_cont_payload(c).len()) as usize)),
{
    let (code, p1) = match read_u8(bytes, pos) {
        Ok(v) => v,
        Err(e) => {
            proof {
                assert forall|c: ScalarContinuation| !cont_payload_at(bytes@, pos as int, c) by {
                    if cont_payload_at(bytes@, pos as int, c) {
                        lemma_cont_payload_parts(bytes@, pos as int, c);
                    }
                }
            }
            return Err(e);
        },
    };
    let n = cont_arity(code);
    match read_n_u64s(bytes, p1, n) {
        Ok((v, p2)) => {
            match cont_from_fields(code, &v) {
                Ok(c) => {
                    proof {
                        assert(bytes@.subrange(pos as int, p2 as int) =~= seq![code]
                            + bytes@.subrange(p1 as int, p2 as int));
                        assert(bytes@.subrange(pos as int, p2 as int) =~= enc_cont_payload(c));
                        assert forall|c2: ScalarContinuation|
                            cont_payload_at(bytes@, pos as int, c2) implies c == c2 && p2 == pos
                            + enc_cont_payload(c2).len() by {
                            lemma_cont_payload_parts(bytes@, pos as int, c2);
                            assert(cont_fields(c2).len() == n);
                            assert(v@ == cont_fields(c2));
                        }
                    }
                    Ok((c, p2))
                },
                Err(e) => {
                    proof {
                        assert forall|c2: ScalarContinuation|
                            !cont_payload_at(bytes@, pos as int, c2) by {
                            if cont_payload_at(bytes@, pos as int, c2) {
                                lemma_cont_payload_parts(bytes@, pos as int, c2);
                                assert(cont_fields(c2).len() == n);
                                assert(v@ == cont_fields(c2));
                            }
                        }
                    }
                    Err(e)
                },
            }
        },
        Err(e) => {
            proof {
                assert forall|c2: ScalarContinuation| !cont_payload_at(bytes@, pos as int, c2) by {
                    if cont_payload_at(bytes@, pos as int, c2) {
                        lemma_cont_payload_parts(bytes@, pos as int, c2);
                        assert(cont_fields(c2).len() == n);
                    }
                }
            }
            Err(e)
        },
    }
}

/// The encoding of the optional payload `vm` sits at `pos`.
spec fn opt_expr_at(bytes: Seq<u8>, pos: int, vm: Option<ExprModel>) -> bool {
    bytes.len() >= pos + enc_opt_expr(vm).len() && bytes.subrange(
        pos,
        pos + enc_opt_expr(vm).len(),
    ) == enc_opt_expr(vm)
}

spec fn opt_cont_at(bytes: Seq<u8>, pos: int, vm: Option<ScalarContinuation>) -> bool {
    bytes.len() >= pos + enc_opt_cont(vm).len() && bytes.subrange(
        pos,
        pos + enc_opt_cont(vm).len(),
    ) == enc_opt_cont(vm)
}

proof fn lemma_opt_expr_parts(bytes: Seq<u8>, pos: int, vm: Option<ExprModel>)
    requires
        0 <= pos,
        opt_expr_at(bytes, pos, vm),
    ensures
        enc_opt_expr(vm).len() >= 1,
        vm is None ==> bytes[pos] == 0 && enc_opt_expr(vm).len() == 1,
        vm is Some ==> bytes[pos] == 1 && expr_payload_at(bytes, pos + 1, vm.unwrap())
            && enc_opt_expr(vm).len() == 1 + enc_expr_payload(vm.unwrap()).len(),
{
    match vm {
        None => {
            assert(bytes[pos] == bytes.subrange(pos, pos + 1)[0]);
        },
        Some(m) => {
            assert(enc_opt_expr(vm) =~= seq![1u8] + enc_expr_payload(m));
            lemma_subrange_concat(bytes, pos, seq![1u8], enc_expr_payload(m));
            assert(bytes[pos] == bytes.subrange(pos, pos + 1)[0]);
        },
    }
}

proof fn lemma_opt_cont_parts(bytes: Seq<u8>, pos: int, vm: Option<ScalarContinuation>)
    requires
        0 <= pos,
        opt_cont_at(bytes, pos, vm),
    ensures
        enc_opt_cont(vm).len() >= 1,
        vm is None ==> bytes[pos] == 0 && enc_opt_cont(vm).len() == 1,
        vm is Some ==> bytes[pos] == 1 && cont_payload_at(bytes, pos + 1, vm.unwrap())
            && enc_opt_cont(vm).len() == 1 + enc_cont_payload(vm.unwrap()).len(),
{
    match vm {
        None => {
            assert(bytes[pos] == bytes.subrange(pos, pos + 1)[0]);
        },
        Some(c) => {
            assert(enc_opt_cont(vm) =~= seq![1u8] + enc_cont_payload(c));
            lemma_subrange_concat(bytes, pos, seq![1u8], enc_cont_payload(c));
            assert(bytes[pos] == bytes.subrange(pos, pos + 1)[0]);
        },
    }
}

fn decode_opt_expr(bytes: &Vec<u8>, pos: usize) -> (r: Result<
    (Option<ScalarExpression>, usize),
    DecodeError,
>)
    requires
        pos <= bytes@.len(),
    ensures
        match r {
            Ok((v, p2)) => pos <= p2 <= bytes@.len() && bytes@.subrange(pos as int, p2 as int)
                == enc_opt_expr(opt_model(v)),
            Err(_) => true,
        },
        forall|vm: Option<ExprModel>|
            opt_expr_at(bytes@, pos as int, vm) ==> r is Ok && opt_model(r.unwrap().0) == vm
                && r.unwrap().1 == pos + enc_opt_expr(vm).len(),
{
    let (marker, p1) = match read_u8(bytes, pos) {
        Ok(v) => v,
        Err(e) => {
            proof {
                assert forall|vm: Option<ExprModel>| !opt_expr_at(bytes@, pos as int, vm) by {
                    if opt_expr_at(bytes@, pos as int, vm) {
                        lemma_opt_expr_parts(bytes@, pos as int, vm);
                    }
                }
            }
            return Err(e);
        },
    };
    proof {
        assert forall|vm: Option<ExprModel>|
            opt_expr_at(bytes@, pos as int, vm) implies (vm is None <==> marker == 0) && (
        vm is Some ==> marker == 1) by {
            lemma_opt_expr_parts(bytes@, pos as int, vm);
        }
    }
    if marker == 0 {
        proof {
            assert(bytes@.subrange(pos as int, p1 as int) =~= enc_opt_expr(
                opt_model(Option::<ScalarExpression>::None),
            ));
        }
        Ok((None, p1))
    } else if marker == 1 {
        match decode_expr_payload(bytes, p1) {
            Ok((e, p2)) => {
                proof {
                    assert(bytes@.subrange(pos as int, p2 as int) =~= seq![1u8] + bytes@.subrange(
                        p1 as int,
                        p2 as int,
                    ));
                    assert(bytes@.subrange(pos as int, p2 as int) =~= enc_opt_expr(
                        opt_model(Some(e)),
                    ));
                    assert forall|vm: Option<ExprModel>|
                        opt_expr_at(bytes@, pos as int, vm) implies opt_model(Some(e)) == vm && p2
                        == pos + enc_opt_expr(vm).len() by {
                        lemma_opt_expr_parts(bytes@, pos as int, vm);
                        assert(e.model() == vm.unwrap());
                    }
                }
                Ok((Some(e), p2))
            },
            Err(e) => {
                proof {
                    assert forall|vm: Option<ExprModel>| !opt_expr_at(bytes@, pos as int, vm) by {
                        if opt_expr_at(bytes@, pos as int, vm) {
                            lemma_opt_expr_parts(bytes@, pos as int, vm);
                        }
                    }
                }
                Err(e)
            },
        }
    } else {
        Err(DecodeError::BadVariant)
    }
}

fn decode_opt_cont(bytes: &Vec<u8>, pos: usize) -> (r: Result<
    (Option<ScalarContinuation>, usize),
    DecodeError,
>)
    requires
        pos <= bytes@.len(),
    ensures
        match r {
            Ok((v, p2)) => pos <= p2 <= bytes@.len() && bytes@.subrange(pos as int, p2 as int)
                == enc_opt_cont(v),
            Err(_) => true,
        },
        forall|vm: Option<ScalarContinuation>|
            opt_cont_at(bytes@, pos as int, vm) ==> r == Ok::<
                (Option<ScalarContinuation>, usize),
                DecodeError,
            >((vm, (pos + enc_opt_cont(vm).len()) as usize)),
{
    let (marker, p1) = match read_u8(bytes, pos) {
        Ok(v) => v,
        Err(e) => {
            proof {
                assert forall|vm: Option<ScalarContinuation>|
                    !opt_cont_at(bytes@, pos as int, vm) by {
                    if opt_cont_at(bytes@, pos as int, vm) {
                        lemma_opt_cont_parts(bytes@, pos as int, vm);
                    }
                }
            }
            return Err(e);
        },
    };
    proof {
        assert forall|vm: Option<ScalarContinuation>|
            opt_cont_at(bytes@, pos as int, vm) implies (vm is None <==> marker == 0) && (
        vm is Some ==> marker == 1) by {
            lemma_opt_cont_parts(bytes@, pos as int, vm);
        }
    }
    if marker == 0 {
        proof {
            assert(bytes@.subrange(pos as int, p1 as int) =~= enc_opt_cont(
                Option::<ScalarContinuation>::None,
            ));
        }
        Ok((None, p1))
    } else if marker == 1 {
        match decode_cont_payload(bytes, p1) {
            Ok((c, p2)) => {
                proof {
                    assert(bytes@.subrange(pos as int, p2 as int) =~= seq![1u8] + bytes@.subrange(
                        p1 as int,
                        p2 as int,
                    ));
                    assert(bytes@.subrange(pos as int, p2 as int) =~= enc_opt_cont(Some(c)));
                    assert forall|vm: Option<ScalarContinuation>|
                        opt_cont_at(bytes@, pos as int, vm) implies Some(c) == vm && p2 == pos
                        + enc_opt_cont(vm).len() by {
                        lemma_opt_cont_parts(bytes@, pos as int, vm);
                    }
                }
                Ok((Some(c), p2))
            },
            Err(e) => {
                proof {
                    assert forall|vm: Option<ScalarContinuation>|
                        !opt_cont_at(bytes@, pos as int, vm) by {
                        if opt_cont_at(bytes@, pos as int, vm) {
                            lemma_opt_cont_parts(bytes@, pos as int, vm);
                        }
                    }
                }
                Err(e)
            },
        }
    } else {
        Err(DecodeError::BadVariant)
    }
}

fn encode_expr_payload(e: &ScalarExpression, out: &mut Vec<u8>)
    ensures
        final(out)@ == old(out)@ + enc_expr_payload(e.model()),
{
    match e {
        ScalarExpression::Nil => {
            out.push(0u8);
            let fields: Vec<u64> = Vec::new();
            push_u64s(out, &fields);
            proof {
                assert(fields@ =~= expr_fields(e.model()));
                assert(final(out)@ =~= old(out)@ + enc_expr_payload(e.model()));
            }
        },
        ScalarExpression::Cons(a, b) => {
            out.push(1u8);
            let fields: Vec<u64> = vec![a.tag, a.digest, b.tag, b.digest];
            push_u64s(out, &fields);
            proof {
                assert(fields@ =~= expr_fields(e.model()));
                assert(final(out)@ =~= old(out)@ + enc_expr_payload(e.model()));
            }
        },
        ScalarExpression::Comm(secret, p) => {
            out.push(2u8);
            let fields: Vec<u64> = vec![*secret, p.tag, p.digest];
            push_u64s(out, &fields);
            proof {
                assert(fields@ =~= expr_fields(e.model()));
                assert(final(out)@ =~= old(out)@ + enc_expr_payload(e.model()));
            }
        },
        ScalarExpression::Sym(sv) => {
            out.push(3u8);
            encode_string(sv.as_str(), out);
            proof {
                assert(final(out)@ =~= old(out)@ + enc_expr_payload(e.model()));
            }
        },
        ScalarExpression::Fun { arg, body, closed_env } => {
            out.push(4u8);
            let fields: Vec<u64> = vec![
                arg.tag,
                arg.digest,
                body.tag,
                body.digest,
                closed_env.tag,
                closed_env.digest,
            ];
            push_u64s(out, &fields);
            proof {
                assert(fields@ =~= expr_fields(e.model()));
                assert(final(out)@ =~= old(out)@ + enc_expr_payload(e.model()));
            }
        },
        ScalarExpression::Num(x) => {
            out.push(5u8);
            let fields: Vec<u64> = vec![*x];
            push_u64s(out, &fields);
            proof {
                assert(fields@ =~= expr_fields(e.model()));
                assert(final(out)@ =~= old(out)@ + enc_expr_payload(e.model()));
            }
        },
        ScalarExpression::Str(sv) => {
            out.push(6u8);
            encode_string(sv.as_str(), out);
            proof {
                assert(final(out)@ =~= old(out)@ + enc_expr_payload(e.model()));
            }
        },
        ScalarExpression::Thunk(t) => {
            out.push(7u8);
            let fields: Vec<u64> = vec![
                t.value.tag,
                t.value.digest,
                t.continuation.tag,
                t.continuation.digest,
            ];
            push_u64s(out, &fields);
            proof {
                assert(fields@ =~= expr_fields(e.model()));
                assert(final(out)@ =~= old(out)@ + enc_expr_payload(e.model()));
            }
        },
        ScalarExpression::Char(c) => {
            out.push(8u8);
            let fields: Vec<u64> = vec![(*c as u32) as u64];
            push_u64s(out, &fields);
            proof {
                assert(fields@ =~= expr_fields(e.model()));
                assert(final(out)@ =~= old(out)@ + enc_expr_payload(e.model()));
            }
        },
    }
}

fn encode_cont_payload(c: &ScalarContinuation, out: &mut Vec<u8>)
    ensures
        final(out)@ == old(out)@ + enc_cont_payload(*c),
{
    let code = match c {
        ScalarContinuation::Outermost => 0u8,
        ScalarContinuation::Call { .. } => 1,
        ScalarContinuation::Call2 { .. } => 2,
        ScalarContinuation::Tail { .. } => 3,
        ScalarContinuation::Error => 4,
        ScalarContinuation::Lookup { .. } => 5,
        ScalarContinuation::Unop { .. } => 6,
        ScalarContinuation::Binop { .. } => 7,
        ScalarContinuation::Binop2 { .. } => 8,
        ScalarContinuation::Relop { .. } => 9,
        ScalarContinuation::Relop2 { .. } => 10,
        ScalarContinuation::If { .. } => 11,
        ScalarContinuation::Let { .. } => 12,
        ScalarContinuation::LetRec { .. } => 13,
        ScalarContinuation::Emit { .. } => 14,
        ScalarContinuation::Dummy => 15,
        ScalarContinuation::Terminal => 16,
    };
    out.push(code);
    let fields: Vec<u64> = match c {
        ScalarContinuation::Outermost => vec![],
        ScalarContinuation::Call { unevaled_arg, saved_env, continuation } => vec![
            unevaled_arg.tag,
            unevaled_arg.digest,
            saved_env.tag,
            saved_env.digest,
            continuation.tag,
            continuation.digest,
        ],
        ScalarContinuation::Call2 { function, saved_env, continuation } => vec![
            function.tag,
            function.digest,
            saved_env.tag,
            saved_env.digest,
            continuation.tag,
            continuation.digest,
        ],
        ScalarContinuation::Tail { saved_env, continuation } => vec![
            saved_env.tag,
            saved_env.digest,
            continuation.tag,
            continuation.digest,
        ],
        ScalarContinuation::Error => vec![],
        ScalarContinuation::Lookup { saved_env, continuation } => vec![
            saved_env.tag,
            saved_env.digest,
            continuation.tag,
            continuation.digest,
        ],
        ScalarContinuation::Unop { operator, continuation } => vec![
            operator.as_field(),
            continuation.tag,
            continuation.digest,
        ],
        ScalarContinuation::Binop { operator, saved_env, unevaled_args, continuation } => vec![
            operator.as_field(),
            saved_env.tag,
            saved_env.digest,
            unevaled_args.tag,
            unevaled_args.digest,
            continuation.tag,
            continuation.digest,
        ],
        ScalarContinuation::Binop2 { operator, evaled_arg, continuation } => vec![
            operator.as_field(),
            evaled_arg.tag,
            evaled_arg.digest,
            continuation.tag,
            continuation.digest,
        ],
        ScalarContinuation::Relop { operator, saved_env, unevaled_args, continuation } => vec![
            operator.as_field(),
            saved_env.tag,
            saved_env.digest,
            unevaled_args.tag,
            unevaled_args.digest,
            continuation.tag,
            continuation.digest,
        ],
        ScalarContinuation::Relop2 { operator, evaled_arg, continuation } => vec![
            operator.as_field(),
            evaled_arg.tag,
            evaled_arg.digest,
            continuation.tag,
            continuation.digest,
        ],
        ScalarContinuation::If { unevaled_args, continuation } => vec![
            unevaled_args.tag,
            unevaled_args.digest,
            continuation.tag,
            continuation.digest,
        ],
        ScalarContinuation::Let { var, body, saved_env, continuation } => vec![
            var.tag,
            var.digest,
            body.tag,
            body.digest,
            saved_env.tag,
            saved_env.digest,
            continuation.tag,
            continuation.digest,
        ],
        ScalarContinuation::LetRec { var, body, saved_env, continuation } => vec![
            var.tag,
            var.digest,
            body.tag,
            body.digest,
            saved_env.tag,
            saved_env.digest,
            continuation.tag,
            continuation.digest,
        ],
        ScalarContinuation::Emit { continuation } => vec![
            continuation.tag,
            continuation.digest,
        ],
        ScalarContinuation::Dummy => vec![],
        ScalarContinuation::Terminal => vec![],
    };
    push_u64s(out, &fields);
    proof {
        assert(fields@ =~= cont_fields(*c));
        assert(final(out)@ =~= old(out)@ + enc_cont_payload(*c));
    }
}

/// The model rows of an expression row vector.
pub open spec fn expr_models(rows: Seq<(ScalarPtr, Option<ScalarExpression>)>) -> Seq<
    (ScalarPtr, Option<ExprModel>),
> {
    rows.map_values(|row: (ScalarPtr, Option<ScalarExpression>)| (row.0, opt_model(row.1)))
}

proof fn lemma_enc_expr_rows_snoc(
    rows: Seq<(ScalarPtr, Option<ExprModel>)>,
    k: ScalarPtr,
    vm: Option<ExprModel>,
)
    ensures
        enc_expr_rows(rows.push((k, vm))) == enc_expr_rows(rows) + (enc_u64(k.tag) + enc_u64(
            k.digest,
        ) + enc_opt_expr(vm)),
    decreases rows.len(),
{
    let entry = enc_u64(k.tag) + enc_u64(k.digest) + enc_opt_expr(vm);
    if rows.len() == 0 {
        assert(rows.push((k, vm)).skip(1) =~= Seq::<(ScalarPtr, Option<ExprModel>)>::empty());
        assert(enc_expr_rows(Seq::<(ScalarPtr, Option<ExprModel>)>::empty()) =~= Seq::<
            u8,
        >::empty());
        assert(rows.push((k, vm))[0] == (k, vm));
        assert(enc_expr_rows(rows.push((k, vm))) =~= entry);
        assert(enc_expr_rows(rows) + entry =~= entry);
    } else {
        assert(rows.push((k, vm)).skip(1) =~= rows.skip(1).push((k, vm)));
        lemma_enc_expr_rows_snoc(rows.skip(1), k, vm);
        assert(enc_expr_rows(rows.push((k, vm))) =~= enc_expr_rows(rows) + entry);
    }
}

proof fn lemma_enc_cont_rows_snoc(
    rows: Seq<(ScalarContPtr, Option<ScalarContinuation>)>,
    k: ScalarContPtr,
    vm: Option<ScalarContinuation>,
)
    ensures
        enc_cont_rows(rows.push((k, vm))) == enc_cont_rows(rows) + (enc_u64(k.tag) + enc_u64(
            k.digest,
        ) + enc_opt_cont(vm)),
    decreases rows.len(),
{
    let entry = enc_u64(k.tag) + enc_u64(k.digest) + enc_opt_cont(vm);
    if rows.len() == 0 {
        assert(rows.push((k, vm)).skip(1) =~= Seq::<
            (ScalarContPtr, Option<ScalarContinuation>),
        >::empty());
        assert(enc_cont_rows(Seq::<(ScalarContPtr, Option<ScalarContinuation>)>::empty()) =~= Seq::<
            u8,
        >::empty());
        assert(rows.push((k, vm))[0] == (k, vm));
        assert(enc_cont_rows(rows.push((k, vm))) =~= entry);
        assert(enc_cont_rows(rows) + entry =~= entry);
    } else {
        assert(rows.push((k, vm)).skip(1) =~= rows.skip(1).push((k, vm)));
        lemma_enc_cont_rows_snoc(rows.skip(1), k, vm);
        assert(enc_cont_rows(rows.push((k, vm))) =~= enc_cont_rows(rows) + entry);
    }
}

proof fn lemma_enc_expr_rows_min_len(rows: Seq<(ScalarPtr, Option<ExprModel>)>)
    ensures
        enc_expr_rows(rows).len() >= 17 * rows.len(),
    decreases rows.len(),
{
    lemma_auto_spec_u64_to_from_le_bytes();
    if rows.len() > 0 {
        lemma_enc_expr_rows_min_len(rows.skip(1));
    }
}

proof fn lemma_enc_cont_rows_min_len(rows: Seq<(ScalarContPtr, Option<ScalarContinuation>)>)
    ensures
        enc_cont_rows(rows).len() >= 17 * rows.len(),
    decreases rows.len(),
{
    lemma_auto_spec_u64_to_from_le_bytes();
    if rows.len() > 0 {
        lemma_enc_cont_rows_min_len(rows.skip(1));
    }
}

/// One expression entry of a matching graph sits at `pos`: its key fields,
/// its optional payload, and then the rest.
proof fn lemma_expr_entry_at(
    bytes: Seq<u8>,
    pos: int,
    rows: Seq<(ScalarPtr, Option<ExprModel>)>,
    i: int,
    tail: Seq<u8>,
)
    requires
        0 <= pos <= bytes.len(),
        0 <= i < rows.len(),
        bytes.skip(pos) == enc_expr_rows(rows.skip(i)) + tail,
    ensures
        ({
            let k = rows[i].0;
            let vm = rows[i].1;
            &&& pos + 16 + enc_opt_expr(vm).len() <= bytes.len()
            &&& bytes.subrange(pos, pos + 8) == enc_u64(k.tag)
            &&& bytes.subrange(pos + 8, pos + 16) == enc_u64(k.digest)
            &&& opt_expr_at(bytes, pos + 16, vm)
            &&& bytes.skip(pos + 16 + enc_opt_expr(vm).len()) == enc_expr_rows(rows.skip(i + 1))
                + tail
        }),
{
    lemma_auto_spec_u64_to_from_le_bytes();
    let k = rows[i].0;
    let vm = rows[i].1;
    assert(rows.skip(i)[0] == rows[i]);
    assert(rows.skip(i).skip(1) =~= rows.skip(i + 1));
    assert(enc_expr_rows(rows.skip(i)) == enc_u64(k.tag) + enc_u64(k.digest) + enc_opt_expr(vm)
        + enc_expr_rows(rows.skip(i + 1)));
    assert(bytes.skip(pos) =~= enc_u64(k.tag) + (enc_u64(k.digest) + (enc_opt_expr(vm) + (
    enc_expr_rows(rows.skip(i + 1)) + tail))));
    lemma_skip_concat(
        bytes,
        pos,
        enc_u64(k.tag),
        enc_u64(k.digest) + (enc_opt_expr(vm) + (enc_expr_rows(rows.skip(i + 1)) + tail)),
    );
    lemma_skip_concat(
        bytes,
        pos + 8,
        enc_u64(k.digest),
        enc_opt_expr(vm) + (enc_expr_rows(rows.skip(i + 1)) + tail),
    );
    lemma_skip_concat(
        bytes,
        pos + 16,
        enc_opt_expr(vm),
        enc_expr_rows(rows.skip(i + 1)) + tail,
    );
    assert(bytes.subrange(pos + 16, pos + 16 + enc_opt_expr(vm).len()) == enc_opt_expr(vm));
}

proof fn lemma_cont_entry_at(
    bytes: Seq<u8>,
    pos: int,
    rows: Seq<(ScalarContPtr, Option<ScalarContinuation>)>,
    i: int,
    tail: Seq<u8>,
)
    requires
        0 <= pos <= bytes.len(),
        0 <= i < rows.len(),
        bytes.skip(pos) == enc_cont_rows(rows.skip(i)) + tail,
    ensures
        ({
            let k = rows[i].0;
            let vm = rows[i].1;
            &&& pos + 16 + enc_opt_cont(vm).len() <= bytes.len()
            &&& bytes.subrange(pos, pos + 8) == enc_u64(k.tag)
            &&& bytes.subrange(pos + 8, pos + 16) == enc_u64(k.digest)
            &&& opt_cont_at(bytes, pos + 16, vm)
            &&& bytes.skip(pos + 16 + enc_opt_cont(vm).len()) == enc_cont_rows(rows.skip(i + 1))
                + tail
        }),
{
    lemma_auto_spec_u64_to_from_le_bytes();
    let k = rows[i].0;
    let vm = rows[i].1;
    assert(rows.skip(i)[0] == rows[i]);
    assert(rows.skip(i).skip(1) =~= rows.skip(i + 1));
    assert(enc_cont_rows(rows.skip(i)) == enc_u64(k.tag) + enc_u64(k.digest) + enc_opt_cont(vm)
        + enc_cont_rows(rows.skip(i + 1)));
    assert(bytes.skip(pos) =~= enc_u64(k.tag) + (enc_u64(k.digest) + (enc_opt_cont(vm) + (
    enc_cont_rows(rows.skip(i + 1)) + tail))));
    lemma_skip_concat(
        bytes,
        pos,
        enc_u64(k.tag),
        enc_u64(k.digest) + (enc_opt_cont(vm) + (enc_cont_rows(rows.skip(i + 1)) + tail)),
    );
    lemma_skip_concat(
        bytes,
        pos + 8,
        enc_u64(k.digest),
        enc_opt_cont(vm) + (enc_cont_rows(rows.skip(i + 1)) + tail),
    );
    lemma_skip_concat(
        bytes,
        pos + 16,
        enc_opt_cont(vm),
        enc_cont_rows(rows.skip(i + 1)) + tail,
    );
    assert(bytes.subrange(pos + 16, pos + 16 + enc_opt_cont(vm).len()) == enc_opt_cont(vm));
}

/// Encodes a snapshot graph to its interchange byte form.
pub fn encode(g: &ScalarStore) -> (r: Vec<u8>)
    ensures
        r@ == enc_store(*g),
{
    let mut out: Vec<u8> = Vec::new();
    push_u64(&mut out, g.expr_rows.len() as u64);
    let ghost head = out@;
    let mut i: usize = 0;
    proof {
        assert(enc_expr_rows(g.expr_model_rows().take(0)) =~= Seq::<u8>::empty());
        assert(out@ =~= head + enc_expr_rows(g.expr_model_rows().take(0)));
    }
    while i < g.expr_rows.len()
        invariant
            0 <= i <= g.expr_rows@.len(),
            out@ == head + enc_expr_rows(g.expr_model_rows().take(i as int)),
        decreases g.expr_rows@.len() - i,
    {
        let row = &g.expr_rows[i];
        push_u64(&mut out, row.0.tag);
        push_u64(&mut out, row.0.digest);
        match &row.1 {
            None => {
                out.push(0u8);
            },
            Some(e) => {
                out.push(1u8);
                encode_expr_payload(e, &mut out);
            },
        }
        proof {
            let rowm = g.expr_model_rows()[i as int];
            assert(rowm == (row.0, opt_model(row.1)));
            lemma_enc_expr_rows_snoc(g.expr_model_rows().take(i as int), rowm.0, rowm.1);
            assert(g.expr_model_rows().take(i + 1) =~= g.expr_model_rows().take(i as int).push(
                rowm,
            ));
            assert(enc_opt_expr(rowm.1) =~= match rowm.1 {
                None => seq![0u8],
                Some(m) => seq![1u8] + enc_expr_payload(m),
            });
            assert(out@ =~= head + enc_expr_rows(g.expr_model_rows().take(i + 1)));
        }
        i = i + 1;
    }
    proof {
        assert(g.expr_model_rows().take(g.expr_rows@.len() as int) =~= g.expr_model_rows());
    }
    push_u64(&mut out, g.cont_rows.len() as u64);
    let ghost head2 = out@;
    let mut j: usize = 0;
    proof {
        assert(enc_cont_rows(g.cont_rows@.take(0)) =~= Seq::<u8>::empty());
        assert(out@ =~= head2 + enc_cont_rows(g.cont_rows@.take(0)));
    }
    while j < g.cont_rows.len()
        invariant
            0 <= j <= g.cont_rows@.len(),
            out@ == head2 + enc_cont_rows(g.cont_rows@.take(j as int)),
        decreases g.cont_rows@.len() - j,
    {
        let row = g.cont_rows[j];
        push_u64(&mut out, row.0.tag);
        push_u64(&mut out, row.0.digest);
        match row.1 {
            None => {
                out.push(0u8);
            },
            Some(c) => {
                out.push(1u8);
                encode_cont_payload(&c, &mut out);
            },
        }
        proof {
            let rowm = g.cont_rows@[j as int];
            lemma_enc_cont_rows_snoc(g.cont_rows@.take(j as int), rowm.0, rowm.1);
            assert(g.cont_rows@.take(j + 1) =~= g.cont_rows@.take(j as int).push(rowm));
            assert(enc_opt_cont(rowm.1) =~= match rowm.1 {
                None => seq![0u8],
                Some(c) => seq![1u8] + enc_cont_payload(c),
            });
            assert(out@ =~= head2 + enc_cont_rows(g.cont_rows@.take(j + 1)));
        }
        j = j + 1;
    }
    proof {
        assert(g.cont_rows@.take(g.cont_rows@.len() as int) =~= g.cont_rows@);
        assert(out@ =~= enc_store(*g));
    }
    out
}

/// A well-formed graph whose encoding is exactly `bytes`.
pub open spec fn g_match(bytes: Seq<u8>, g: ScalarStore) -> bool {
    g.wf() && bytes == enc_store(g)
}

/// Decodes the interchange byte form back into a snapshot graph.
///
/// On success the result is a well-formed graph that re-encodes to exactly
/// the input bytes; and for every well-formed graph, decoding its encoding
/// succeeds and returns a graph with the same entries — the codec
/// round-trips, whatever graph is put through it.  A failed decode returns
/// only the typed error: partial graphs are never handed out.
pub fn decode(bytes: &Vec<u8>) -> (r: Result<ScalarStore, DecodeError>)
    ensures
        match r {
            Ok(g) => g.wf() && bytes@ == enc_store(g),
            Err(_) => true,
        },
        forall|g: ScalarStore|
            g_match(bytes@, g) ==> r is Ok && r.unwrap().expr_model_rows()
                == g.expr_model_rows() && r.unwrap().cont_rows@ == g.cont_rows@
                && r.unwrap().expr_map() == g.expr_map() && r.unwrap().cont_map() == g.cont_map(),
{
    proof {
        lemma_auto_spec_u64_to_from_le_bytes();
    }
    let total = bytes.len();
    let (ne64, mut pos) = match read_u64(bytes, 0) {
        Ok(v) => v,
        Err(e) => {
            proof {
                assert forall|g: ScalarStore| !g_match(bytes@, g) by {
                    if g_match(bytes@, g) {
                        assert(bytes@.len() >= 8);
                    }
                }
            }
            return Err(e);
        },
    };
    proof {
        assert forall|g: ScalarStore|
            g_match(bytes@, g) implies ne64 == g.expr_model_rows().len() as u64
            && g.expr_model_rows().len() < usize::MAX && bytes@.skip(8) == enc_expr_rows(
            g.expr_model_rows(),
        ) + (enc_u64(g.cont_rows@.len() as u64) + enc_cont_rows(g.cont_rows@)) by {
            assert(bytes@.skip(0) =~= bytes@);
            assert(bytes@ =~= enc_u64(g.expr_model_rows().len() as u64) + (enc_expr_rows(
                g.expr_model_rows(),
            ) + (enc_u64(g.cont_rows@.len() as u64) + enc_cont_rows(g.cont_rows@))));
            lemma_skip_concat(
                bytes@,
                0,
                enc_u64(g.expr_model_rows().len() as u64),
                enc_expr_rows(g.expr_model_rows()) + (enc_u64(g.cont_rows@.len() as u64)
                    + enc_cont_rows(g.cont_rows@)),
            );
            lemma_enc_expr_rows_min_len(g.expr_model_rows());
            assert(total <= usize::MAX);
        }
    }
    if ne64 > (usize::MAX as u64) / 17 {
        proof {
            assert forall|g: ScalarStore| !g_match(bytes@, g) by {
                if g_match(bytes@, g) {
                    lemma_enc_expr_rows_min_len(g.expr_model_rows());
                    assert(17 * g.expr_model_rows().len() <= total);
                }
            }
        }
        return Err(DecodeError::Truncated);
    }
    let ne = ne64 as usize;
    let mut expr_rows: Vec<(ScalarPtr, Option<ScalarExpression>)> = Vec::new();
    let mut i: usize = 0;
    proof {
        assert(expr_models(expr_rows@) =~= Seq::<(ScalarPtr, Option<ExprModel>)>::empty());
        assert(enc_expr_rows(expr_models(expr_rows@)) =~= Seq::<u8>::empty());
        assert(bytes@.take(pos as int) =~= bytes@.subrange(0, 8));
        assert(bytes@.take(pos as int) =~= enc_u64(ne64) + enc_expr_rows(
            expr_models(expr_rows@),
        ));
        assert forall|g: ScalarStore|
            g_match(bytes@, g) implies ne == g.expr_model_rows().len() && expr_models(expr_rows@)
            == g.expr_model_rows().take(0) && bytes@.skip(pos as int) == enc_expr_rows(
            g.expr_model_rows().skip(0),
        ) + (enc_u64(g.cont_rows@.len() as u64) + enc_cont_rows(g.cont_rows@)) by {
            assert(g.expr_model_rows().len() as u64 == ne64);
            assert(g.expr_model_rows().take(0) =~= expr_models(expr_rows@));
            assert(g.expr_model_rows().skip(0) =~= g.expr_model_rows());
        }
    }
    while i < ne
        invariant
            0 <= i <= ne,
            ne == ne64,
            ne64 <= (usize::MAX as u64) / 17,
            pos <= bytes@.len(),
            total == bytes@.len(),
            expr_rows@.len() == i,
            bytes@.take(pos as int) == enc_u64(ne64) + enc_expr_rows(expr_models(expr_rows@)),
            rows_sorted(
                expr_models(expr_rows@),
                |a: ScalarPtr, b: ScalarPtr| expr_key_lt(a, b),
            ),
            forall|x: int|
                0 <= x < i ==> match (#[trigger] expr_models(expr_rows@)[x]).1 {
                    Some(m) => expr_model_tag(m) == expr_models(expr_rows@)[x].0.tag,
                    None => true,
                },
            forall|g: ScalarStore| #[trigger]
                g_match(bytes@, g) ==> ne == g.expr_model_rows().len() && expr_models(expr_rows@)
                    == g.expr_model_rows().take(i as int) && bytes@.skip(pos as int)
                    == enc_expr_rows(g.expr_model_rows().skip(i as int)) + (enc_u64(
                    g.cont_rows@.len() as u64,
                ) + enc_cont_rows(g.cont_rows@)),
        decreases ne - i,
    {
        let ghost rows_before = expr_rows@;
        let ghost pos_before = pos as int;
        let (kt, p1) = match read_u64(bytes, pos) {
            Ok(v) => v,
            Err(e) => {
                proof {
                    assert forall|g: ScalarStore| !g_match(bytes@, g) by {
                        if g_match(bytes@, g) {
                            lemma_expr_entry_at(
                                bytes@,
                                pos as int,
                                g.expr_model_rows(),
                                i as int,
                                enc_u64(g.cont_rows@.len() as u64) + enc_cont_rows(g.cont_rows@),
                            );
                        }
                    }
                }
                return Err(e);
            },
        };
        let (kd, p2) = match read_u64(bytes, p1) {
            Ok(v) => v,
            Err(e) => {
                proof {
                    assert forall|g: ScalarStore| !g_match(bytes@, g) by {
                        if g_match(bytes@, g) {
                            lemma_expr_entry_at(
                                bytes@,
                                pos as int,
                                g.expr_model_rows(),
                                i as int,
                                enc_u64(g.cont_rows@.len() as u64) + enc_cont_rows(g.cont_rows@),
                            );
                        }
                    }
                }
                return Err(e);
            },
        };
        let key = ScalarPtr { tag: kt, digest: kd };
        proof {
            assert forall|g: ScalarStore|
                g_match(bytes@, g) implies key == g.expr_model_rows()[i as int].0 && opt_expr_at(
                bytes@,
                p2 as int,
                g.expr_model_rows()[i as int].1,
            ) by {
                lemma_expr_entry_at(
                    bytes@,
                    pos as int,
                    g.expr_model_rows(),
                    i as int,
                    enc_u64(g.cont_rows@.len() as u64) + enc_cont_rows(g.cont_rows@),
                );
            }
        }
        if i > 0 {
            let prev = expr_rows[i - 1].0;
            if !prev.lt(&key) {
                proof {
                    assert forall|g: ScalarStore| !g_match(bytes@, g) by {
                        if g_match(bytes@, g) {
                            assert(expr_models(rows_before)[i - 1]
                                == g.expr_model_rows().take(i as int)[i - 1]);
                            assert(expr_key_lt(
                                g.expr_model_rows()[i - 1].0,
                                g.expr_model_rows()[i as int].0,
                            ));
                        }
                    }
                }
                return Err(DecodeError::BadKeyOrder);
            }
        }
        let (v, p3) = match decode_opt_expr(bytes, p2) {
            Ok(v) => v,
            Err(e) => {
                proof {
                    assert forall|g: ScalarStore| !g_match(bytes@, g) by {
                        if g_match(bytes@, g) {
                        }
                    }
                }
                return Err(e);
            },
        };
        let tag_ok = match &v {
            None => true,
            Some(e) => expr_tag_of(e) == key.tag,
        };
        if !tag_ok {
            proof {
                assert forall|g: ScalarStore| !g_match(bytes@, g) by {
                    if g_match(bytes@, g) {
                        assert(opt_model(v) == g.expr_model_rows()[i as int].1);
                    }
                }
            }
            return Err(DecodeError::TagMismatch);
        }
        expr_rows.push((key, v));
        pos = p3;
        proof {
            assert(expr_models(expr_rows@) =~= expr_models(rows_before).push(
                (key, opt_model(v)),
            ));
            // soundness: the bytes consumed are this entry's encoding
            lemma_enc_expr_rows_snoc(expr_models(rows_before), key, opt_model(v));
            assert(bytes@.take(p3 as int) =~= bytes@.take(pos_before) + (bytes@.subrange(
                pos_before,
                pos_before + 8,
            ) + bytes@.subrange(pos_before + 8, pos_before + 16) + bytes@.subrange(
                pos_before + 16,
                p3 as int,
            )));
            assert(bytes@.take(p3 as int) == enc_u64(ne64) + enc_expr_rows(
                expr_models(expr_rows@),
            ));
            // sortedness of the grown rows
            assert forall|a: int, b: int|
                0 <= a < b < expr_models(expr_rows@).len() implies expr_key_lt(
                (#[trigger] expr_models(expr_rows@)[a]).0,
                (#[trigger] expr_models(expr_rows@)[b]).0,
            ) by {
                if b < i {
                    assert(expr_models(rows_before)[a] == expr_models(expr_rows@)[a]);
                    assert(expr_models(rows_before)[b] == expr_models(expr_rows@)[b]);
                } else {
                    assert(b == i);
                    if a < i - 1 {
                        assert(expr_key_lt(
                            expr_models(rows_before)[a].0,
                            expr_models(rows_before)[i - 1].0,
                        ));
                    }
                }
            }
            // completeness: one more row matched
            assert forall|g: ScalarStore|
                g_match(bytes@, g) implies expr_models(expr_rows@)
                == g.expr_model_rows().take(i + 1) && bytes@.skip(p3 as int) == enc_expr_rows(
                g.expr_model_rows().skip(i + 1),
            ) + (enc_u64(g.cont_rows@.len() as u64) + enc_cont_rows(g.cont_rows@)) by {
                lemma_expr_entry_at(
                    bytes@,
                    pos_before,
                    g.expr_model_rows(),
                    i as int,
                    enc_u64(g.cont_rows@.len() as u64) + enc_cont_rows(g.cont_rows@),
                );
                assert(opt_model(v) == g.expr_model_rows()[i as int].1);
                assert(g.expr_model_rows().take(i + 1) =~= g.expr_model_rows().take(
                    i as int,
                ).push(g.expr_model_rows()[i as int]));
            }
        }
        i = i + 1;
    }
    let (nc64, cpos0) = match read_u64(bytes, pos) {
        Ok(v) => v,
        Err(e) => {
            proof {
                assert forall|g: ScalarStore| !g_match(bytes@, g) by {
                    if g_match(bytes@, g) {
                        assert(g.expr_model_rows().skip(ne as int) =~= Seq::<
                            (ScalarPtr, Option<ExprModel>),
                        >::empty());
                        assert(enc_expr_rows(g.expr_model_rows().skip(ne as int)) =~= Seq::<
                            u8,
                        >::empty());
                        assert(bytes@.skip(pos as int) =~= enc_u64(g.cont_rows@.len() as u64)
                            + enc_cont_rows(g.cont_rows@));
                        lemma_skip_concat(
                            bytes@,
                            pos as int,
                            enc_u64(g.cont_rows@.len() as u64),
                            enc_cont_rows(g.cont_rows@),
                        );
                    }
                }
            }
            return Err(e);
        },
    };
    let mut cpos = cpos0;
    proof {
        assert forall|g: ScalarStore|
            g_match(bytes@, g) implies nc64 == g.cont_rows@.len() as u64 && g.cont_rows@.len()
            < usize::MAX && bytes@.skip(cpos0 as int) == enc_cont_rows(g.cont_rows@) + Seq::<
            u8,
        >::empty() by {
            assert(g.expr_model_rows().skip(ne as int) =~= Seq::<
                (ScalarPtr, Option<ExprModel>),
            >::empty());
            assert(enc_expr_rows(g.expr_model_rows().skip(ne as int)) =~= Seq::<u8>::empty());
            assert(bytes@.skip(pos as int) =~= enc_u64(g.cont_rows@.len() as u64) + enc_cont_rows(
                g.cont_rows@,
            ));
            lemma_skip_concat(
                bytes@,
                pos as int,
                enc_u64(g.cont_rows@.len() as u64),
                enc_cont_rows(g.cont_rows@),
            );
            lemma_enc_cont_rows_min_len(g.cont_rows@);
            assert(total <= usize::MAX);
            assert(enc_cont_rows(g.cont_rows@) + Seq::<u8>::empty() =~= enc_cont_rows(
                g.cont_rows@,
            ));
        }
    }
    if nc64 > (usize::MAX as u64) / 17 {
        proof {
            assert forall|g: ScalarStore| !g_match(bytes@, g) by {
                if g_match(bytes@, g) {
                    lemma_enc_cont_rows_min_len(g.cont_rows@);
                    assert(17 * g.cont_rows@.len() <= total);
                }
            }
        }
        return Err(DecodeError::Truncated);
    }
    let nc = nc64 as usize;
    let mut cont_rows: Vec<(ScalarContPtr, Option<ScalarContinuation>)> = Vec::new();
    let mut j: usize = 0;
    proof {
        assert(bytes@.take(cpos as int) =~= bytes@.take(pos as int) + bytes@.subrange(
            pos as int,
            cpos as int,
        ));
        assert(cont_rows@ =~= Seq::<(ScalarContPtr, Option<ScalarContinuation>)>::empty());
        assert(enc_cont_rows(cont_rows@) =~= Seq::<u8>::empty());
        assert(bytes@.take(cpos as int) =~= enc_u64(ne64) + enc_expr_rows(
            expr_models(expr_rows@),
        ) + enc_u64(nc64) + enc_cont_rows(cont_rows@));
        assert forall|g: ScalarStore|
            g_match(bytes@, g) implies nc == g.cont_rows@.len() && cont_rows@
            == g.cont_rows@.take(0) && bytes@.skip(cpos as int) == enc_cont_rows(
            g.cont_rows@.skip(0),
        ) + Seq::<u8>::empty() by {
            assert(g.cont_rows@.len() as u64 == nc64);
            assert(g.cont_rows@.take(0) =~= cont_rows@);
            assert(g.cont_rows@.skip(0) =~= g.cont_rows@);
        }
    }
    while j < nc
        invariant
            0 <= j <= nc,
            nc == nc64,
            nc64 <= (usize::MAX as u64) / 17,
            cpos <= bytes@.len(),
            total == bytes@.len(),
            cont_rows@.len() == j,
            bytes@.take(cpos as int) == enc_u64(ne64) + enc_expr_rows(expr_models(expr_rows@))
                + enc_u64(nc64) + enc_cont_rows(cont_rows@),
            rows_sorted(cont_rows@, |a: ScalarContPtr, b: ScalarContPtr| cont_key_lt(a, b)),
            forall|x: int|
                0 <= x < j ==> match (#[trigger] cont_rows@[x]).1 {
                    Some(c) => cont_tag(c) == cont_rows@[x].0.tag,
                    None => true,
                },
            forall|g: ScalarStore| #[trigger]
                g_match(bytes@, g) ==> nc == g.cont_rows@.len() && cont_rows@
                    == g.cont_rows@.take(j as int) && bytes@.skip(cpos as int) == enc_cont_rows(
                    g.cont_rows@.skip(j as int),
                ) + Seq::<u8>::empty(),
        decreases nc - j,
    {
        let ghost rows_before = cont_rows@;
        let ghost pos_before = cpos as int;
        let (kt, p1) = match read_u64(bytes, cpos) {
            Ok(v) => v,
            Err(e) => {
                proof {
                    assert forall|g: ScalarStore| !g_match(bytes@, g) by {
                        if g_match(bytes@, g) {
                            lemma_cont_entry_at(
                                bytes@,
                                cpos as int,
                                g.cont_rows@,
                                j as int,
                                Seq::<u8>::empty(),
                            );
                        }
                    }
                }
                return Err(e);
            },
        };
        let (kd, p2) = match read_u64(bytes, p1) {
            Ok(v) => v,
            Err(e) => {
                proof {
                    assert forall|g: ScalarStore| !g_match(bytes@, g) by {
                        if g_match(bytes@, g) {
                            lemma_cont_entry_at(
                                bytes@,
                                cpos as int,
                                g.cont_rows@,
                                j as int,
                                Seq::<u8>::empty(),
                            );
                        }
                    }
                }
                return Err(e);
            },
        };
        let key = ScalarContPtr { tag: kt, digest: kd };
        proof {
            assert forall|g: ScalarStore|
                g_match(bytes@, g) implies key == g.cont_rows@[j as int].0 && opt_cont_at(
                bytes@,
                p2 as int,
                g.cont_rows@[j as int].1,
            ) by {
                lemma_cont_entry_at(
                    bytes@,
                    cpos as int,
                    g.cont_rows@,
                    j as int,
                    Seq::<u8>::empty(),
                );
            }
        }
        if j > 0 {
            let prev = cont_rows[j - 1].0;
            if !prev.lt(&key) {
                proof {
                    assert forall|g: ScalarStore| !g_match(bytes@, g) by {
                        if g_match(bytes@, g) {
                            assert(rows_before[j - 1] == g.cont_rows@.take(j as int)[j - 1]);
                            assert(cont_key_lt(g.cont_rows@[j - 1].0, g.cont_rows@[j as int].0));
                        }
                    }
                }
                return Err(DecodeError::BadKeyOrder);
            }
        }
        let (v, p3) = match decode_opt_cont(bytes, p2) {
            Ok(v) => v,
            Err(e) => {
                proof {
                    assert forall|g: ScalarStore| !g_match(bytes@, g) by {
                        if g_match(bytes@, g) {
                        }
                    }
                }
                return Err(e);
            },
        };
        let tag_ok = match &v {
            None => true,
            Some(c) => cont_tag_of(c) == key.tag,
        };
        if !tag_ok {
            proof {
                assert forall|g: ScalarStore| !g_match(bytes@, g) by {
                    if g_match(bytes@, g) {
                        assert(v == g.cont_rows@[j as int].1);
                    }
                }
            }
            return Err(DecodeError::TagMismatch);
        }
        cont_rows.push((key, v));
        cpos = p3;
        proof {
            assert(cont_rows@ =~= rows_before.push((key, v)));
            lemma_enc_cont_rows_snoc(rows_before, key, v);
            assert(bytes@.take(p3 as int) =~= bytes@.take(pos_before) + (bytes@.subrange(
                pos_before,
                pos_before + 8,
            ) + bytes@.subrange(pos_before + 8, pos_before + 16) + bytes@.subrange(
                pos_before + 16,
                p3 as int,
            )));
            assert(bytes@.take(p3 as int) == enc_u64(ne64) + enc_expr_rows(
                expr_models(expr_rows@),
            ) + enc_u64(nc64) + enc_cont_rows(cont_rows@));
            assert forall|a: int, b: int|
                0 <= a < b < cont_rows@.len() implies cont_key_lt(
                (#[trigger] cont_rows@[a]).0,
                (#[trigger] cont_rows@[b]).0,
            ) by {
                if b < j {
                    assert(rows_before[a] == cont_rows@[a]);
                    assert(rows_before[b] == cont_rows@[b]);
                } else {
                    assert(b == j);
                    if a < j - 1 {
                        assert(cont_key_lt(rows_before[a].0, rows_before[j - 1].0));
                    }
                }
            }
            assert forall|g: ScalarStore|
                g_match(bytes@, g) implies cont_rows@ == g.cont_rows@.take(j + 1) && bytes@.skip(
                p3 as int,
            ) == enc_cont_rows(g.cont_rows@.skip(j + 1)) + Seq::<u8>::empty() by {
                lemma_cont_entry_at(
                    bytes@,
                    pos_before,
                    g.cont_rows@,
                    j as int,
                    Seq::<u8>::empty(),
                );
                assert(v == g.cont_rows@[j as int].1);
                assert(g.cont_rows@.take(j + 1) =~= g.cont_rows@.take(j as int).push(
                    g.cont_rows@[j as int],
                ));
            }
        }
        j = j + 1;
    }
    if cpos != total {
        proof {
            assert forall|g: ScalarStore| !g_match(bytes@, g) by {
                if g_match(bytes@, g) {
                    assert(g.cont_rows@.skip(nc as int) =~= Seq::<
                        (ScalarContPtr, Option<ScalarContinuation>),
                    >::empty());
                    assert(enc_cont_rows(g.cont_rows@.skip(nc as int)) =~= Seq::<u8>::empty());
                    assert(bytes@.skip(cpos as int).len() == 0);
                }
            }
        }
        return Err(DecodeError::TrailingBytes);
    }
    let result = ScalarStore { expr_rows, cont_rows };
    proof {
        assert(result.expr_model_rows() == expr_models(result.expr_rows@));
        assert(bytes@.take(total as int) =~= bytes@);
        assert(bytes@ == enc_store(result));
        assert forall|g: ScalarStore|
            g_match(bytes@, g) implies result.expr_model_rows() == g.expr_model_rows()
            && result.cont_rows@ == g.cont_rows@ by {
            assert(g.expr_model_rows().take(ne as int) =~= g.expr_model_rows());
            assert(g.cont_rows@.take(nc as int) =~= g.cont_rows@);
        }
    }
    Ok(result)
}

} // verus!
