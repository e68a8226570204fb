//! Materialization scenarios: entry counts, sharing, opacity.

use scalar_store::payload::{char_to_f, small_string_to_f, Op1, ScalarContinuation, ScalarExpression};
use scalar_store::ptrs::{ScalarContPtr, ScalarPtr, TAG_CONS, TAG_NUM};
use scalar_store::scalar_store::ScalarStore;
use scalar_store::store::{Ptr, Store};

/// Builds a proper list from the given elements.
fn list(store: &mut Store, elems: &[Ptr]) -> Ptr {
    let mut tail = store.intern_nil();
    for e in elems.iter().rev() {
        tail = store.intern_cons(*e, tail);
    }
    tail
}

#[test]
fn test_scalar_store() {
    // A bare symbol yields exactly one entry.
    let mut s = Store::new();
    let sym = s.intern_sym("symbol");
    let (g, _) = ScalarStore::new_with_expr(&s, &sym);
    assert_eq!(1, g.expr_len());

    // A dotted pair of two numbers: cons node plus two atoms.
    let mut s = Store::new();
    let n1 = s.intern_num(1);
    let n2 = s.intern_num(2);
    let pair = s.intern_cons(n1, n2);
    let (g, _) = ScalarStore::new_with_expr(&s, &pair);
    assert_eq!(3, g.expr_len());

    // Four atoms, four conses (four-element list), and the nil terminator.
    let mut s = Store::new();
    let plus = s.intern_sym("+");
    let n1 = s.intern_num(1);
    let n2 = s.intern_num(2);
    let n3 = s.intern_num(3);
    let l = list(&mut s, &[plus, n1, n2, n3]);
    let (g, _) = ScalarStore::new_with_expr(&s, &l);
    assert_eq!(9, g.expr_len());

    // A nested application shares the nil terminator.
    let mut s = Store::new();
    let plus = s.intern_sym("+");
    let times = s.intern_sym("*");
    let n1 = s.intern_num(1);
    let n2 = s.intern_num(2);
    let n3 = s.intern_num(3);
    let n4 = s.intern_num(4);
    let inner = list(&mut s, &[times, n3, n4]);
    let l = list(&mut s, &[plus, n1, n2, inner]);
    let (g, _) = ScalarStore::new_with_expr(&s, &l);
    assert_eq!(14, g.expr_len());

    // Strings are handled.
    let mut s = Store::new();
    let plus = s.intern_sym("+");
    let times = s.intern_sym("*");
    let n1 = s.intern_num(1);
    let n2 = s.intern_num(2);
    let n3 = s.intern_num(3);
    let n4 = s.intern_num(4);
    let asdf = s.intern_str("asdf");
    let inner = list(&mut s, &[times, n3, n4]);
    let l = list(&mut s, &[plus, n1, n2, inner, asdf]);
    let (g, _) = ScalarStore::new_with_expr(&s, &l);
    assert_eq!(16, g.expr_len());

    // Duplicate numbers and strings appear only once.
    let mut s = Store::new();
    let plus = s.intern_sym("+");
    let times = s.intern_sym("*");
    let n1 = s.intern_num(1);
    let n2 = s.intern_num(2);
    let n2b = s.intern_num(2);
    let n3 = s.intern_num(3);
    let n4 = s.intern_num(4);
    let asdf = s.intern_str("asdf");
    let asdf2 = s.intern_str("asdf");
    let inner = list(&mut s, &[times, n3, n4]);
    let l = list(&mut s, &[plus, n1, n2, n2b, inner, asdf, asdf2]);
    let (g, _) = ScalarStore::new_with_expr(&s, &l);
    assert_eq!(18, g.expr_len());
}

#[test]
fn test_scalar_store_opaque_cons() {
    let mut store = Store::new();
    let num1 = store.intern_num(123);
    let num2 = store.intern_num(987);
    let cons = store.intern_cons(num1, num2);
    let cons_hash = store.hash_expr(&cons).unwrap();
    let opaque_cons = store.intern_maybe_opaque_cons(cons_hash.digest);
    // A non-opaque version was interned earlier, so children appear.
    let (g, _) = ScalarStore::new_with_expr(&store, &opaque_cons);
    assert_eq!(3, g.expr_len());
}

#[test]
fn test_scalar_store_opaque_fun() {
    let mut store = Store::new();
    let arg = store.intern_sym("A");
    let body = store.intern_num(123);
    let empty_env = store.intern_nil();
    let fun = store.intern_fun(arg, body, empty_env);
    let fun_hash = store.hash_expr(&fun).unwrap();
    let opaque_fun = store.intern_maybe_opaque_fun(fun_hash.digest);
    let (g, _) = ScalarStore::new_with_expr(&store, &opaque_fun);
    assert_eq!(4, g.expr_len());
}

#[test]
fn test_scalar_store_opaque_sym() {
    let mut store = Store::new();
    let sym = store.intern_sym("sym");
    let sym_hash = store.hash_expr(&sym).unwrap();
    let opaque_sym = store.intern_maybe_opaque_sym(sym_hash.digest);
    let (g, _) = ScalarStore::new_with_expr(&store, &opaque_sym);
    assert_eq!(1, g.expr_len());
}

#[test]
fn test_scalar_store_opaque_str() {
    let mut store = Store::new();
    let st = store.intern_str("str");
    let str_hash = store.hash_expr(&st).unwrap();
    let opaque_str = store.intern_maybe_opaque_sym(str_hash.digest);
    let (g, _) = ScalarStore::new_with_expr(&store, &opaque_str);
    assert_eq!(1, g.expr_len());
}

#[test]
fn test_scalar_store_opaque_comm() {
    let mut store = Store::new();
    let num = store.intern_num(987);
    let comm = store.intern_comm(123, num);
    let comm_hash = store.hash_expr(&comm).unwrap();
    let opaque_comm = store.intern_maybe_opaque_comm(comm_hash.digest);
    let (g, _) = ScalarStore::new_with_expr(&store, &opaque_comm);
    assert_eq!(2, g.expr_len());
}

#[test]
fn pure_opaque_reference_is_single_opaque_entry() {
    // No non-opaque witness was ever interned: one entry, payload withheld.
    let mut store = Store::new();
    let opaque = store.intern_maybe_opaque_cons(42);
    let (g, root) = ScalarStore::new_with_expr(&store, &opaque);
    assert_eq!(1, g.expr_len());
    let root = root.unwrap();
    assert_eq!(root, ScalarPtr { tag: TAG_CONS, digest: 42 });
    assert!(g.get_expr(&root).is_none());
}

#[test]
fn shared_sublist_is_not_duplicated() {
    // The same sub-list referenced twice yields one entry per distinct
    // address, not per occurrence.
    let mut s = Store::new();
    let n1 = s.intern_num(1);
    let n2 = s.intern_num(2);
    let sub = s.intern_cons(n1, n2);
    let outer = s.intern_cons(sub, sub);
    let (g, _) = ScalarStore::new_with_expr(&s, &outer);
    // outer cons, shared sub-cons, two numbers
    assert_eq!(4, g.expr_len());
}

#[test]
fn materializing_twice_changes_nothing() {
    // Insertion is idempotent: adding an already-present root again never
    // changes resolved entries or the entry count.
    let mut s = Store::new();
    let n1 = s.intern_num(1);
    let n2 = s.intern_num(2);
    let pair = s.intern_cons(n1, n2);
    let (mut g, root) = ScalarStore::new_with_expr(&s, &pair);
    let before = g.clone();
    let mut pending = Vec::new();
    let root2 = g.add_one_ptr(&mut pending, &s, &pair);
    assert_eq!(root, root2);
    assert_eq!(before, g);
}

#[test]
fn opaque_entry_resolves_in_place_when_preimage_appears() {
    // A digest-only reference materializes opaque; a later pass over a store
    // holding the preimage resolves the entry in place and pulls in its
    // children.  The transition goes from withheld to resolved, never back.
    let mut witness = Store::new();
    let n1 = witness.intern_num(1);
    let n2 = witness.intern_num(2);
    let pair = witness.intern_cons(n1, n2);
    let pair_addr = witness.hash_expr(&pair).unwrap();

    let mut blind = Store::new();
    let opaque = blind.intern_maybe_opaque_cons(pair_addr.digest);
    let (mut g, root) = ScalarStore::new_with_expr(&blind, &opaque);
    let root = root.unwrap();
    assert_eq!(root, pair_addr);
    assert_eq!(1, g.expr_len());
    assert!(g.get_expr(&root).is_none());

    let mut pending = Vec::new();
    g.add_one_ptr(&mut pending, &witness, &pair);
    assert_eq!(3, g.expr_len());
    assert!(g.get_expr(&root).is_some());
}

#[test]
fn flat_sequence_of_dotted_pair() {
    let mut s = Store::new();
    let n1 = s.intern_num(1);
    let n2 = s.intern_num(2);
    let pair = s.intern_cons(n1, n2);
    let (g, _) = ScalarStore::new_with_expr(&s, &pair);
    // Interning order assigns digests 0 and 1 to the numbers and 2 to the
    // cons; the merged order puts the cons key (tag 1) first.
    let flat = g.ser_f();
    assert_eq!(
        flat,
        vec![
            TAG_CONS, 2, 1, TAG_NUM, 0, TAG_NUM, 1, // cons: key, marker, both children
            TAG_NUM, 0, 1, 1, // first number: key, marker, value
            TAG_NUM, 1, 1, 2, // second number: key, marker, value
        ]
    );
}

#[test]
fn opaque_sentinel_is_distinct_from_every_payload() {
    // An opaque entry flattens to a single zero field; a resolved payload is
    // preceded by a one-valued presence field, so even the zero number and
    // the nul character stay distinguishable from opacity.
    let k = ScalarPtr { tag: TAG_NUM, digest: 5 };
    let opaque = ScalarStore { expr_rows: vec![(k, None)], cont_rows: vec![] };
    let zero = ScalarStore {
        expr_rows: vec![(k, Some(ScalarExpression::Num(0)))],
        cont_rows: vec![],
    };
    assert_eq!(opaque.ser_f(), vec![TAG_NUM, 5, 0]);
    assert_eq!(zero.ser_f(), vec![TAG_NUM, 5, 1, 0]);
}

#[test]
fn flat_sequence_emits_zero_sentinel_for_opaque() {
    let mut store = Store::new();
    let opaque = store.intern_maybe_opaque_cons(42);
    let (g, _) = ScalarStore::new_with_expr(&store, &opaque);
    assert_eq!(g.ser_f(), vec![TAG_CONS, 42, 0]);
}

#[test]
fn payload_flat_encodings() {
    assert_eq!(ScalarExpression::Num(7).ser_f(), vec![7]);
    assert_eq!(ScalarExpression::Char('A').ser_f(), vec![65]);
    let a = ScalarPtr { tag: TAG_NUM, digest: 5 };
    let b = ScalarPtr { tag: TAG_NUM, digest: 6 };
    assert_eq!(
        ScalarExpression::Cons(a, b).ser_f(),
        vec![TAG_NUM, 5, TAG_NUM, 6]
    );
    assert_eq!(
        ScalarExpression::Comm(9, a).ser_f(),
        vec![9, TAG_NUM, 5]
    );
    let k = ScalarContPtr { tag: 4096, digest: 3 };
    assert_eq!(
        ScalarContinuation::Unop { operator: Op1::Cdr, continuation: k }.ser_f(),
        vec![1, 4096, 3]
    );
    assert_eq!(
        ScalarContinuation::Tail { saved_env: a, continuation: k }.ser_f(),
        vec![TAG_NUM, 5, 4096, 3]
    );
}

#[test]
fn small_strings_pack_big_endian() {
    assert_eq!(small_string_to_f(String::new()), Some(0));
    assert_eq!(small_string_to_f("ab".to_string()), Some(0x6162));
    assert_eq!(small_string_to_f("oversized!".to_string()), None);
    assert_eq!(char_to_f('A'), Some(65));
    assert_eq!(char_to_f('\u{1F600}'), Some(0x1F600));
}

#[test]
fn rehydration_returns_none_only_for_unknown_root() {
    let mut s = Store::new();
    let n1 = s.intern_num(1);
    let (g, root) = ScalarStore::new_with_expr(&s, &n1);
    let root = root.unwrap();
    assert!(g.to_store_with_expr(&root).is_some());
    let absent = ScalarPtr { tag: TAG_NUM, digest: 999 };
    assert!(g.to_store_with_expr(&absent).is_none());
    assert!(g.to_store().is_some());
}
