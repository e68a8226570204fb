//! Interchange codec scenarios: round trips and decode failures.

use scalar_store::codec::{decode, encode, DecodeError};
use scalar_store::payload::{Op2, ScalarContinuation, ScalarExpression, ScalarThunk};
use scalar_store::ptrs::{ScalarContPtr, ScalarPtr, TAG_CALL2, TAG_NIL, TAG_NUM, TAG_SYM};
use scalar_store::scalar_store::ScalarStore;
use scalar_store::store::{Ptr, Store};

/// Builds a proper list from the given elements.
fn build_list(store: &mut Store, elems: &[Ptr]) -> Ptr {
    let mut tail = store.intern_nil();
    for e in elems.iter().rev() {
        tail = store.intern_cons(*e, tail);
    }
    tail
}

fn pair_graph() -> ScalarStore {
    let mut s = Store::new();
    let n1 = s.intern_num(1);
    let n2 = s.intern_num(2);
    let pair = s.intern_cons(n1, n2);
    ScalarStore::new_with_expr(&s, &pair).0
}

#[test]
fn test_expr_ipld() {
    // Encoding, decoding and rehydrating reproduces the snapshot exactly.
    let check = |store1: &Store, expr| {
        let (g, root) = ScalarStore::new_with_expr(store1, &expr);
        let root = root.unwrap();
        let g2 = decode(&encode(&g)).unwrap();
        assert_eq!(g, g2);
        let (store2, expr2) = g2.to_store_with_expr(&root).unwrap();
        let (g3, _) = ScalarStore::new_with_expr(&store2, &expr2);
        assert_eq!(g2, g3);
    };

    let mut s = Store::new();
    let sym = s.intern_sym("symbol");
    check(&s, sym);

    let mut s = Store::new();
    let one = s.intern_num(1);
    check(&s, one);

    let mut s = Store::new();
    let n1 = s.intern_num(1);
    let n2 = s.intern_num(2);
    let pair = s.intern_cons(n1, n2);
    check(&s, pair);

    let mut s = Store::new();
    let foo = s.intern_str("foo");
    let bar = s.intern_str("bar");
    let pair = s.intern_cons(foo, bar);
    check(&s, pair);

    let mut s = Store::new();
    let foo = s.intern_sym("foo");
    let bar = s.intern_sym("bar");
    let nil = s.intern_nil();
    let inner = s.intern_cons(bar, nil);
    let l = s.intern_cons(foo, inner);
    check(&s, l);

    let mut s = Store::new();
    let plus = s.intern_sym("+");
    let n1 = s.intern_num(1);
    let n2 = s.intern_num(2);
    let n3 = s.intern_num(3);
    let l = build_list(&mut s, &[plus, n1, n2, n3]);
    check(&s, l);

    let mut s = Store::new();
    let plus = s.intern_sym("+");
    let times = s.intern_sym("*");
    let n1 = s.intern_num(1);
    let n2 = s.intern_num(2);
    let n3 = s.intern_num(3);
    let n4 = s.intern_num(4);
    let inner = build_list(&mut s, &[times, n3, n4]);
    let l = build_list(&mut s, &[plus, n1, n2, inner]);
    check(&s, l);

    let mut s = Store::new();
    let plus = s.intern_sym("+");
    let times = s.intern_sym("*");
    let n1 = s.intern_num(1);
    let n2 = s.intern_num(2);
    let n3 = s.intern_num(3);
    let n4 = s.intern_num(4);
    let asdf = s.intern_str("asdf");
    let inner = build_list(&mut s, &[times, n3, n4]);
    let l = build_list(&mut s, &[plus, n1, n2, inner, asdf]);
    check(&s, l);

    let mut s = Store::new();
    let plus = s.intern_sym("+");
    let times = s.intern_sym("*");
    let n1 = s.intern_num(1);
    let n2 = s.intern_num(2);
    let n2b = s.intern_num(2);
    let n3 = s.intern_num(3);
    let n4 = s.intern_num(4);
    let asdf = s.intern_str("asdf");
    let asdf2 = s.intern_str("asdf");
    let inner = build_list(&mut s, &[times, n3, n4]);
    let l = build_list(&mut s, &[plus, n1, n2, n2b, inner, asdf, asdf2]);
    check(&s, l);
}

#[test]
fn round_trip_preserves_every_payload_variant() {
    let a = ScalarPtr { tag: TAG_NUM, digest: 5 };
    let b = ScalarPtr { tag: TAG_NUM, digest: 6 };
    let k = ScalarContPtr { tag: TAG_CALL2, digest: 7 };
    let g = ScalarStore {
        expr_rows: vec![
            (ScalarPtr { tag: 0, digest: 0 }, Some(ScalarExpression::Nil)),
            (ScalarPtr { tag: 1, digest: 1 }, Some(ScalarExpression::Cons(a, b))),
            (ScalarPtr { tag: 2, digest: 9 }, Some(ScalarExpression::Sym("héllo".to_string()))),
            (
                ScalarPtr { tag: 3, digest: 2 },
                Some(ScalarExpression::Fun { arg: a, body: b, closed_env: a }),
            ),
            (ScalarPtr { tag: 4, digest: 3 }, Some(ScalarExpression::Num(77))),
            (
                ScalarPtr { tag: 5, digest: 4 },
                Some(ScalarExpression::Thunk(ScalarThunk { value: a, continuation: k })),
            ),
            (ScalarPtr { tag: 6, digest: 5 }, Some(ScalarExpression::Str(String::new()))),
            (ScalarPtr { tag: 7, digest: 6 }, Some(ScalarExpression::Char('緑'))),
            (ScalarPtr { tag: 8, digest: 7 }, Some(ScalarExpression::Comm(11, b))),
            (ScalarPtr { tag: 8, digest: 8 }, None),
        ],
        cont_rows: vec![
            (ScalarContPtr { tag: 4096, digest: 0 }, Some(ScalarContinuation::Outermost)),
            (
                ScalarContPtr { tag: 4098, digest: 1 },
                Some(ScalarContinuation::Call2 { function: a, saved_env: b, continuation: k }),
            ),
            (
                ScalarContPtr { tag: 4104, digest: 2 },
                Some(ScalarContinuation::Binop2 {
                    operator: Op2::Quotient,
                    evaled_arg: a,
                    continuation: k,
                }),
            ),
            (
                ScalarContPtr { tag: 4108, digest: 3 },
                Some(ScalarContinuation::Let {
                    var: a,
                    body: b,
                    saved_env: a,
                    continuation: k,
                }),
            ),
            (ScalarContPtr { tag: 4112, digest: 4 }, None),
        ],
    };
    let g2 = decode(&encode(&g)).unwrap();
    assert_eq!(g, g2);
}

#[test]
fn decode_rejects_truncated_input() {
    assert_eq!(decode(&Vec::new()), Err(DecodeError::Truncated));
    let mut bytes = encode(&pair_graph());
    bytes.pop();
    assert_eq!(decode(&bytes), Err(DecodeError::Truncated));
}

#[test]
fn decode_rejects_trailing_bytes() {
    let mut bytes = encode(&pair_graph());
    bytes.push(0);
    assert_eq!(decode(&bytes), Err(DecodeError::TrailingBytes));
}

#[test]
fn decode_rejects_unsorted_keys() {
    let g = ScalarStore {
        expr_rows: vec![
            (ScalarPtr { tag: TAG_NUM, digest: 9 }, Some(ScalarExpression::Num(1))),
            (ScalarPtr { tag: TAG_NUM, digest: 3 }, Some(ScalarExpression::Num(2))),
        ],
        cont_rows: vec![],
    };
    assert_eq!(decode(&encode(&g)), Err(DecodeError::BadKeyOrder));
}

#[test]
fn decode_rejects_mismatched_tag() {
    let g = ScalarStore {
        expr_rows: vec![(ScalarPtr { tag: TAG_SYM, digest: 0 }, Some(ScalarExpression::Num(1)))],
        cont_rows: vec![],
    };
    assert_eq!(decode(&encode(&g)), Err(DecodeError::TagMismatch));
}

#[test]
fn decode_rejects_bad_variant_and_bad_char() {
    let le = |x: u64| x.to_le_bytes().to_vec();
    // one expression entry whose payload marker is neither absent nor present
    let mut bytes = Vec::new();
    bytes.extend(le(1));
    bytes.extend(le(TAG_NIL));
    bytes.extend(le(0));
    bytes.push(9);
    bytes.extend(le(0));
    assert_eq!(decode(&bytes), Err(DecodeError::BadVariant));

    // a character entry holding a surrogate code point
    let mut bytes = Vec::new();
    bytes.extend(le(1));
    bytes.extend(le(7));
    bytes.extend(le(0));
    bytes.push(1);
    bytes.push(8);
    bytes.extend(le(0xD800));
    bytes.extend(le(0));
    assert_eq!(decode(&bytes), Err(DecodeError::BadChar));
}

#[test]
fn flat_sequence_is_insertion_order_independent() {
    // Two snapshots holding the same entries flatten identically, whatever
    // order their roots were materialized in.
    let mut s = Store::new();
    let n1 = s.intern_num(1);
    let n2 = s.intern_num(2);
    let left = s.intern_cons(n1, n2);
    let right = s.intern_cons(n2, n1);

    let (mut g1, _) = ScalarStore::new_with_expr(&s, &left);
    let mut pending = Vec::new();
    g1.add_one_ptr(&mut pending, &s, &right);

    let (mut g2, _) = ScalarStore::new_with_expr(&s, &right);
    let mut pending = Vec::new();
    g2.add_one_ptr(&mut pending, &s, &left);

    assert_eq!(g1, g2);
    assert_eq!(g1.ser_f(), g2.ser_f());
}
