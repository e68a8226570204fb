//! The snapshot graph and the worklist materializer.
//!
//! A [`ScalarStore`] is a pair of ordered maps from content addresses to
//! optional payloads, one for expressions and one for continuations.  An
//! entry with payload `None` is opaque: its address is known but its preimage
//! is withheld.  Materialization walks a host [`Store`] from a root with an
//! explicit worklist, memoizing by address, so every distinct reachable
//! address gets exactly one entry whatever the fan-in of the DAG, and the
//! stack depth stays bounded on deep list-shaped values.

use crate::payload::{
    cont_tag, expr_children, expr_model_tag, opt_model, ExprModel, ScalarContinuation,
    ScalarExpression,
};
use crate::ptrs::{ScalarContPtr, ScalarPtr};
use crate::rows::{
    lemma_rows_map_contains, lemma_rows_map_index, lemma_rows_map_insert, lemma_rows_map_update,
    lemma_sorted_distinct, rows_distinct, rows_map, rows_sorted,
};
use crate::store::{Ptr, Store};
use vstd::prelude::*;
use vstd::seq_lib::seq_to_set_is_finite;

verus! {

broadcast use seq_to_set_is_finite;

/// The key order of the expression map.
pub open spec fn expr_key_lt(a: ScalarPtr, b: ScalarPtr) -> bool {
    a.spec_lt(b)
}

/// The key order of the continuation map.
pub open spec fn cont_key_lt(a: ScalarContPtr, b: ScalarContPtr) -> bool {
    a.spec_lt(b)
}

/// The children of an optional payload; an opaque entry has none.
pub open spec fn opt_children(v: Option<ExprModel>) -> Seq<ScalarPtr> {
    match v {
        Some(m) => expr_children(m),
        None => Seq::empty(),
    }
}

/// A snapshot graph: two ordered maps from content addresses to optional
/// payloads, stored as row vectors strictly ascending in the key order.
#[derive(Debug, Clone, PartialEq, Eq)]
pub struct ScalarStore {
    pub expr_rows: Vec<(ScalarPtr, Option<ScalarExpression>)>,
    pub cont_rows: Vec<(ScalarContPtr, Option<ScalarContinuation>)>,
}

impl ScalarStore {
    /// The expression rows with payloads abstracted to their models.
    pub open spec fn expr_model_rows(self) -> Seq<(ScalarPtr, Option<ExprModel>)> {
        self.expr_rows@.map_values(
            |row: (ScalarPtr, Option<ScalarExpression>)| (row.0, opt_model(row.1)),
        )
    }

    /// The expression half of the graph as a map.
    pub open spec fn expr_map(self) -> Map<ScalarPtr, Option<ExprModel>> {
        rows_map(self.expr_model_rows())
    }

    /// The continuation half of the graph as a map.
    pub open spec fn cont_map(self) -> Map<ScalarContPtr, Option<ScalarContinuation>> {
        rows_map(self.cont_rows@)
    }

    /// Both row vectors are strictly sorted, and every resolved payload sits
    /// under a key whose tag matches the payload's variant.
    pub open spec fn wf(self) -> bool {
        &&& rows_sorted(self.expr_model_rows(), |a: ScalarPtr, b: ScalarPtr| expr_key_lt(a, b))
        &&& rows_sorted(self.cont_rows@, |a: ScalarContPtr, b: ScalarContPtr| cont_key_lt(a, b))
        &&& forall|i: int|
            0 <= i < self.expr_model_rows().len() ==> match (#[trigger] self.expr_model_rows()[i]).1 {
                Some(m) => expr_model_tag(m) == self.expr_model_rows()[i].0.tag,
                None => true,
            }
        &&& forall|i: int|
            0 <= i < self.cont_rows@.len() ==> match (#[trigger] self.cont_rows@[i]).1 {
                Some(c) => cont_tag(c) == self.cont_rows@[i].0.tag,
                None => true,
            }
    }

    /// Every address referenced as a child inside a resolved payload is
    /// itself a key: the graph is a closed sub-DAG.
    pub open spec fn complete(self) -> bool {
        forall|k: ScalarPtr, c: ScalarPtr|
            self.expr_map().contains_key(k) && #[trigger] opt_children(
                self.expr_map()[k],
            ).contains(c) ==> self.expr_map().contains_key(c)
    }

    /// Mid-traversal closure: every child of a resolved entry is a key or is
    /// still queued.
    pub open spec fn pending_ok(self, pending: Seq<ScalarPtr>) -> bool {
        forall|k: ScalarPtr, c: ScalarPtr|
            self.expr_map().contains_key(k) && #[trigger] opt_children(
                self.expr_map()[k],
            ).contains(c) ==> self.expr_map().contains_key(c) || pending.contains(c)
    }

    /// Every entry holds exactly what materializing its address against
    /// `store` yields.
    pub open spec fn consistent_with(self, store: Store) -> bool {
        forall|k: ScalarPtr| #[trigger]
            self.expr_map().contains_key(k) ==> self.expr_map()[k] == store.expected_payload(k)
    }
}

/// The exact effect on the graph and the worklist of presenting one address
/// `a` to the graph: a fresh address is inserted with whatever the store
/// resolves it to and its children are queued; an opaque entry whose
/// preimage the store now supplies is resolved in place, its children
/// queued; a resolved entry is never touched.
pub open spec fn add_effect(
    g0: ScalarStore,
    g1: ScalarStore,
    p0: Seq<ScalarPtr>,
    p1: Seq<ScalarPtr>,
    store: Store,
    a: ScalarPtr,
) -> bool {
    if g0.expr_map().contains_key(a) {
        if g0.expr_map()[a] is None && store.expected_payload(a) is Some {
            &&& g1.expr_map() == g0.expr_map().insert(a, store.expected_payload(a))
            &&& p1 == p0 + opt_children(store.expected_payload(a))
        } else {
            &&& g1.expr_map() == g0.expr_map()
            &&& p1 == p0
        }
    } else {
        &&& g1.expr_map() == g0.expr_map().insert(a, store.expected_payload(a))
        &&& p1 == p0 + opt_children(store.expected_payload(a))
    }
}

/// Inserting an already-present resolved address never changes it: when the
/// graph already holds a payload for `a`, one step leaves both the graph and
/// the worklist exactly as they were.
pub proof fn lemma_insertion_idempotent(
    g0: ScalarStore,
    g1: ScalarStore,
    p0: Seq<ScalarPtr>,
    p1: Seq<ScalarPtr>,
    store: Store,
    a: ScalarPtr,
)
    requires
        add_effect(g0, g1, p0, p1, store, a),
        g0.expr_map().contains_key(a),
        g0.expr_map()[a] is Some,
    ensures
        g1.expr_map() == g0.expr_map(),
        p1 == p0,
{
}

/// Opacity is monotone across one step: no key is ever removed, a resolved
/// payload is never demoted or replaced, and the only entry that can change
/// is the presented address, moving from withheld to exactly what the store
/// materializes it to.
pub proof fn lemma_opacity_monotone(
    g0: ScalarStore,
    g1: ScalarStore,
    p0: Seq<ScalarPtr>,
    p1: Seq<ScalarPtr>,
    store: Store,
    a: ScalarPtr,
)
    requires
        add_effect(g0, g1, p0, p1, store, a),
    ensures
        forall|k: ScalarPtr| #[trigger]
            g0.expr_map().contains_key(k) ==> g1.expr_map().contains_key(k),
        forall|k: ScalarPtr|
            g0.expr_map().contains_key(k) && g0.expr_map()[k] is Some ==> #[trigger] g1.expr_map()[k] == g0.expr_map()[k],
        forall|k: ScalarPtr| #[trigger]
            g1.expr_map().contains_key(k) ==> g0.expr_map().contains_key(k) || k == a,
        forall|k: ScalarPtr|
            g0.expr_map().contains_key(k) && #[trigger] g1.expr_map()[k] != g0.expr_map()[k] ==> k
                == a && g0.expr_map()[k] is None && g1.expr_map()[k] == store.expected_payload(a)
                && g1.expr_map()[k] is Some,
{
}

/// An address the worklist can still make progress on: it is known to the
/// store but its entry does not yet hold its final payload.
spec fn matched(g: ScalarStore, store: Store, a: ScalarPtr) -> bool {
    g.expr_map().contains_key(a) && (g.expr_map()[a] is Some || store.expected_payload(a) is None)
}

spec fn unmatched_set(g: ScalarStore, store: Store) -> Set<ScalarPtr> {
    store.expr_addr_set().filter(|a: ScalarPtr| !matched(g, store, a))
}

/// Addresses newly reachable from a seed set through the store, where the
/// walk may pass only through entries that `g0` had not already resolved.
pub open spec fn expand_from(
    g0: ScalarStore,
    store: Store,
    seed: Seq<ScalarPtr>,
    a: ScalarPtr,
    n: nat,
) -> bool
    decreases n,
{
    seed.contains(a) || (n > 0 && exists|b: ScalarPtr|
        expand_from(g0, store, seed, b, (n - 1) as nat) && !(g0.expr_map().contains_key(b)
            && g0.expr_map()[b] is Some) && #[trigger] store.reach_step(b, a))
}

pub open spec fn expanded(
    g0: ScalarStore,
    store: Store,
    seed: Seq<ScalarPtr>,
    a: ScalarPtr,
) -> bool {
    exists|n: nat| expand_from(g0, store, seed, a, n)
}

impl Default for ScalarStore {
    /// The empty graph.
    fn default() -> (r: Self)
        ensures
            r.wf(),
            r.expr_rows@.len() == 0,
            r.cont_rows@.len() == 0,
            r.expr_map() == Map::<ScalarPtr, Option<ExprModel>>::empty(),
            r.cont_map() == Map::<ScalarContPtr, Option<ScalarContinuation>>::empty(),
    {
        let r = ScalarStore { expr_rows: Vec::new(), cont_rows: Vec::new() };
        proof {
            assert(r.expr_model_rows() =~= Seq::<(ScalarPtr, Option<ExprModel>)>::empty());
        }
        r
    }
}

impl ScalarStore {
    /// Number of expression entries.
    pub fn expr_len(&self) -> (r: usize)
        ensures
            r == self.expr_rows@.len(),
    {
        self.expr_rows.len()
    }

    /// Number of continuation entries.
    pub fn cont_len(&self) -> (r: usize)
        ensures
            r == self.cont_rows@.len(),
    {
        self.cont_rows.len()
    }

    proof fn lemma_expr_distinct(self)
        requires
            self.wf(),
        ensures
            rows_distinct(self.expr_model_rows()),
    {
        lemma_sorted_distinct(
            self.expr_model_rows(),
            |a: ScalarPtr, b: ScalarPtr| expr_key_lt(a, b),
        );
    }

    proof fn lemma_cont_distinct(self)
        requires
            self.wf(),
        ensures
            rows_distinct(self.cont_rows@),
    {
        lemma_sorted_distinct(self.cont_rows@, |a: ScalarContPtr, b: ScalarContPtr| cont_key_lt(a, b));
    }

    /// Index of the row keyed by `k`, if any, with its map reading.
    fn expr_find(&self, k: &ScalarPtr) -> (r: Option<usize>)
        requires
            self.wf(),
        ensures
            match r {
                Some(i) => i < self.expr_rows@.len() && self.expr_rows@[i as int].0 == *k
                    && self.expr_map().contains_key(*k) && self.expr_map()[*k] == opt_model(
                    self.expr_rows@[i as int].1,
                ),
                None => !self.expr_map().contains_key(*k),
            },
    {
        let n = self.expr_rows.len();
        let mut i: usize = 0;
        while i < n
            invariant
                self.wf(),
                n == self.expr_rows@.len(),
                0 <= i <= n,
                forall|j: int| 0 <= j < i ==> (#[trigger] self.expr_rows@[j].0) != *k,
            decreases n - i,
        {
            let row_key = self.expr_rows[i].0;
            if row_key.tag == k.tag && row_key.digest == k.digest {
                proof {
                    self.lemma_expr_distinct();
                    assert(self.expr_model_rows()[i as int].0 == *k);
                    lemma_rows_map_index(self.expr_model_rows(), i as int);
                }
                return Some(i);
            }
            i = i + 1;
        }
        proof {
            lemma_rows_map_contains(self.expr_model_rows(), *k);
            assert forall|j: int| 0 <= j < self.expr_model_rows().len() implies (
            #[trigger] self.expr_model_rows()[j]).0 != *k by {
                assert(self.expr_rows@[j].0 != *k);
            }
        }
        None
    }

    /// Index of the continuation row keyed by `k`, if any.
    fn cont_find(&self, k: &ScalarContPtr) -> (r: Option<usize>)
        requires
            self.wf(),
        ensures
            match r {
                Some(i) => i < self.cont_rows@.len() && self.cont_rows@[i as int].0 == *k
                    && self.cont_map().contains_key(*k) && self.cont_map()[*k]
                    == self.cont_rows@[i as int].1,
                None => !self.cont_map().contains_key(*k),
            },
    {
        let n = self.cont_rows.len();
        let mut i: usize = 0;
        while i < n
            invariant
                self.wf(),
                n == self.cont_rows@.len(),
                0 <= i <= n,
                forall|j: int| 0 <= j < i ==> (#[trigger] self.cont_rows@[j].0) != *k,
            decreases n - i,
        {
            let row_key = self.cont_rows[i].0;
            if row_key.tag == k.tag && row_key.digest == k.digest {
                proof {
                    self.lemma_cont_distinct();
                    lemma_rows_map_index(self.cont_rows@, i as int);
                }
                return Some(i);
            }
            i = i + 1;
        }
        proof {
            lemma_rows_map_contains(self.cont_rows@, *k);
        }
        None
    }

    /// Inserts a row under a key not yet present, keeping the rows sorted.
    fn expr_insert_fresh(&mut self, k: ScalarPtr, v: Option<ScalarExpression>)
        requires
            old(self).wf(),
            !old(self).expr_map().contains_key(k),
            match v {
                Some(e) => expr_model_tag(e.model()) == k.tag,
                None => true,
            },
        ensures
            final(self).wf(),
            final(self).expr_map() == old(self).expr_map().insert(k, opt_model(v)),
            final(self).cont_rows@ == old(self).cont_rows@,
            final(self).expr_rows@.len() == old(self).expr_rows@.len() + 1,
    {
        proof {
            lemma_rows_map_contains(self.expr_model_rows(), k);
            assert forall|j: int| 0 <= j < self.expr_rows@.len() implies (
            #[trigger] self.expr_rows@[j]).0 != k by {
                if self.expr_rows@[j].0 == k {
                    assert(self.expr_model_rows()[j].0 == k);
                }
            }
        }
        let n = self.expr_rows.len();
        let mut pos: usize = 0;
        while pos < n && self.expr_rows[pos].0.lt(&k)
            invariant
                self.wf(),
                n == self.expr_rows@.len(),
                0 <= pos <= n,
                forall|j: int| 0 <= j < pos ==> expr_key_lt(#[trigger] self.expr_rows@[j].0, k),
                forall|j: int| 0 <= j < n ==> (#[trigger] self.expr_rows@[j]).0 != k,
            decreases n - pos,
        {
            pos = pos + 1;
        }
        proof {
            assert forall|j: int| pos <= j < self.expr_rows@.len() implies expr_key_lt(
                k,
                (#[trigger] self.expr_rows@[j]).0,
            ) by {
                if j > pos {
                    assert(expr_key_lt(
                        self.expr_model_rows()[pos as int].0,
                        self.expr_model_rows()[j].0,
                    ));
                    assert(expr_key_lt(self.expr_rows@[pos as int].0, self.expr_rows@[j].0));
                }
                assert(self.expr_rows@[j].0 != k);
                assert(!expr_key_lt(self.expr_rows@[pos as int].0, k));
            }
        }
        let ghost old_rows = self.expr_rows@;
        let ghost old_model = self.expr_model_rows();
        self.expr_rows.insert(pos, (k, v));
        proof {
            assert(self.expr_model_rows() =~= old_model.insert(pos as int, (k, opt_model(v))));
            assert forall|i: int, j: int|
                0 <= i < j < self.expr_model_rows().len() implies expr_key_lt(
                (#[trigger] self.expr_model_rows()[i]).0,
                (#[trigger] self.expr_model_rows()[j]).0,
            ) by {
                let rows = self.expr_model_rows();
                if i == pos {
                    assert(rows[j] == old_model[j - 1]);
                } else if j == pos {
                    assert(rows[i] == old_model[i]);
                } else {
                    let i0: int = if i < pos { i } else { i - 1 };
                    let j0: int = if j < pos { j } else { j - 1 };
                    assert(rows[i] == old_model[i0]);
                    assert(rows[j] == old_model[j0]);
                    if i0 == j0 {
                        assert(i < pos && j > pos);
                        assert(expr_key_lt(old_model[i0].0, k));
                        assert(expr_key_lt(k, old_model[j0].0));
                    } else {
                        assert(expr_key_lt(old_model[i0].0, old_model[j0].0));
                    }
                }
            }
            lemma_rows_map_insert(old_model, pos as int, k, opt_model(v));
        }
    }

    /// Resolves the opaque row at `i` in place to a payload.
    fn expr_resolve_at(&mut self, i: usize, e: ScalarExpression)
        requires
            old(self).wf(),
            i < old(self).expr_rows@.len(),
            old(self).expr_rows@[i as int].1 is None,
            expr_model_tag(e.model()) == old(self).expr_rows@[i as int].0.tag,
        ensures
            final(self).wf(),
            final(self).expr_map() == old(self).expr_map().insert(
                old(self).expr_rows@[i as int].0,
                Some(e.model()),
            ),
            final(self).cont_rows@ == old(self).cont_rows@,
            final(self).expr_rows@.len() == old(self).expr_rows@.len(),
    {
        let k = self.expr_rows[i].0;
        let ghost old_model = self.expr_model_rows();
        self.expr_rows.set(i, (k, Some(e)));
        proof {
            assert(self.expr_model_rows() =~= old_model.update(i as int, (k, Some(e.model()))));
            lemma_sorted_distinct(old_model, |a: ScalarPtr, b: ScalarPtr| expr_key_lt(a, b));
            lemma_rows_map_update(old_model, i as int, Some(e.model()));
            assert forall|a: int, b: int|
                0 <= a < b < self.expr_model_rows().len() implies expr_key_lt(
                (#[trigger] self.expr_model_rows()[a]).0,
                (#[trigger] self.expr_model_rows()[b]).0,
            ) by {
                assert(old_model[a].0 == self.expr_model_rows()[a].0);
                assert(old_model[b].0 == self.expr_model_rows()[b].0);
                assert(expr_key_lt(old_model[a].0, old_model[b].0));
            }
        }
    }

    /// Looks up the payload of a resolved expression entry; opaque and
    /// absent addresses both read as `None`.
    pub fn get_expr(&self, ptr: &ScalarPtr) -> (r: Option<&ScalarExpression>)
        requires
            self.wf(),
        ensures
            match r {
                Some(e) => self.expr_map().contains_key(*ptr) && self.expr_map()[*ptr] == Some(
                    e.model(),
                ),
                None => !self.expr_map().contains_key(*ptr) || self.expr_map()[*ptr] is None,
            },
    {
        match self.expr_find(ptr) {
            Some(i) => {
                let row = &self.expr_rows[i];
                match &row.1 {
                    Some(e) => Some(e),
                    None => None,
                }
            },
            None => None,
        }
    }

    /// Looks up the payload of a resolved continuation entry.
    pub fn get_cont(&self, ptr: &ScalarContPtr) -> (r: Option<&ScalarContinuation>)
        requires
            self.wf(),
        ensures
            match r {
                Some(c) => self.cont_map().contains_key(*ptr) && self.cont_map()[*ptr] == Some(*c),
                None => !self.cont_map().contains_key(*ptr) || self.cont_map()[*ptr] is None,
            },
    {
        match self.cont_find(ptr) {
            Some(i) => {
                let row = &self.cont_rows[i];
                match &row.1 {
                    Some(c) => Some(c),
                    None => None,
                }
            },
            None => None,
        }
    }

    /// All the expression addresses directly reachable from a payload, if
    /// there are any.
    fn child_scalar_ptrs(scalar_expression: &ScalarExpression) -> (r: Option<Vec<ScalarPtr>>)
        ensures
            match r {
                Some(v) => v@ == expr_children(scalar_expression.model()),
                None => expr_children(scalar_expression.model()).len() == 0,
            },
    {
        match scalar_expression {
            ScalarExpression::Nil => None,
            ScalarExpression::Cons(car, cdr) => {
                let r = vec![*car, *cdr];
                proof {
                    assert(r@ =~= expr_children(scalar_expression.model()));
                }
                Some(r)
            },
            ScalarExpression::Comm(_, payload) => {
                let r = vec![*payload];
                proof {
                    assert(r@ =~= expr_children(scalar_expression.model()));
                }
                Some(r)
            },
            ScalarExpression::Sym(..) => None,
            ScalarExpression::Fun { arg, body, closed_env } => {
                let r = vec![*arg, *body, *closed_env];
                proof {
                    assert(r@ =~= expr_children(scalar_expression.model()));
                }
                Some(r)
            },
            ScalarExpression::Num(..) => None,
            ScalarExpression::Str(..) => None,
            ScalarExpression::Thunk(t) => {
                let r = vec![t.value];
                proof {
                    assert(r@ =~= expr_children(scalar_expression.model()));
                }
                Some(r)
            },
            ScalarExpression::Char(..) => None,
        }
    }

    /// Presents the address of the live node `ptr` to the graph.  The
    /// relationship between `ptr` and `scalar_ptr` is required, so `add` is
    /// called only by `add_ptr` and `add_scalar_ptr`, which enforce it.
    fn add(&mut self, pending: &mut Vec<ScalarPtr>, store: &Store, ptr: &Ptr, scalar_ptr: ScalarPtr)
        requires
            old(self).wf(),
            store.wf(),
            store.no_live_thunks(),
            ptr.idx < store.exprs@.len(),
            store.expr_addrs@[ptr.idx as int] == scalar_ptr,
        ensures
            final(self).wf(),
            add_effect(
                *old(self),
                *final(self),
                old(pending)@,
                final(pending)@,
                *store,
                scalar_ptr,
            ),
            final(self).cont_rows@ == old(self).cont_rows@,
    {
        proof {
            assert(store.knows_expr(scalar_ptr));
            assert forall|j: int|
                0 <= j < store.expr_addrs@.len() && store.expr_addrs@[j] == scalar_ptr implies j
                == ptr.idx by {
                if j != ptr.idx {
                    assert(store.expr_addrs@[j] != store.expr_addrs@[ptr.idx as int]);
                }
            }
            assert(store.expr_index_of(scalar_ptr) == ptr.idx as int);
            assert(store.expected_payload(scalar_ptr) == store.payload_model_at(ptr.idx as int));
            assert(!(store.exprs@[ptr.idx as int] is Thunk));
        }
        match self.expr_find(&scalar_ptr) {
            Some(i) => {
                let entry_opaque = match &self.expr_rows[i].1 {
                    Some(_) => false,
                    None => true,
                };
                if entry_opaque {
                    match ScalarExpression::from_ptr(store, ptr) {
                        Some(e) => {
                            proof {
                                Self::lemma_expected_tag(*store, scalar_ptr);
                            }
                            if let Some(mut kids) = Self::child_scalar_ptrs(&e) {
                                pending.append(&mut kids);
                            } else {
                                proof {
                                    assert(final(pending)@ =~= old(pending)@ + opt_children(
                                        store.expected_payload(scalar_ptr),
                                    ));
                                }
                            }
                            self.expr_resolve_at(i, e);
                        },
                        None => {
                            proof {
                                assert(final(pending)@ =~= old(pending)@);
                            }
                        },
                    }
                } else {
                    proof {
                        assert(final(pending)@ =~= old(pending)@);
                    }
                }
            },
            None => {
                match ScalarExpression::from_ptr(store, ptr) {
                    Some(e) => {
                        proof {
                            Self::lemma_expected_tag(*store, scalar_ptr);
                        }
                        if let Some(mut kids) = Self::child_scalar_ptrs(&e) {
                            pending.append(&mut kids);
                        } else {
                            proof {
                                assert(final(pending)@ =~= old(pending)@ + opt_children(
                                    store.expected_payload(scalar_ptr),
                                ));
                            }
                        }
                        self.expr_insert_fresh(scalar_ptr, Some(e));
                    },
                    None => {
                        self.expr_insert_fresh(scalar_ptr, None);
                        proof {
                            assert(final(pending)@ =~= old(pending)@ + opt_children(
                                store.expected_payload(scalar_ptr),
                            ));
                        }
                    },
                }
            },
        }
    }

    /// The tag of what a store materializes an address to matches the
    /// address's own tag.
    proof fn lemma_expected_tag(store: Store, a: ScalarPtr)
        requires
            store.wf(),
        ensures
            match store.expected_payload(a) {
                Some(m) => expr_model_tag(m) == a.tag,
                None => true,
            },
    {
        if store.knows_expr(a) {
            let i = store.expr_index_of(a);
            assert(Store::addr_tag_ok(store.exprs@[i], store.expr_addrs@[i].tag));
        }
    }

    /// Adds the address `scalar_ptr`, looking its live node up in the store;
    /// an address the store does not know is recorded opaque.
    fn add_scalar_ptr(&mut self, pending: &mut Vec<ScalarPtr>, store: &Store, scalar_ptr: ScalarPtr)
        requires
            old(self).wf(),
            store.wf(),
            store.no_live_thunks(),
        ensures
            final(self).wf(),
            add_effect(
                *old(self),
                *final(self),
                old(pending)@,
                final(pending)@,
                *store,
                scalar_ptr,
            ),
            final(self).cont_rows@ == old(self).cont_rows@,
    {
        match store.ptr_for_addr(&scalar_ptr) {
            Some(ptr) => {
                self.add(pending, store, &ptr, scalar_ptr);
            },
            None => {
                proof {
                    assert(store.expected_payload(scalar_ptr) is None);
                }
                match self.expr_find(&scalar_ptr) {
                    Some(_) => {
                        proof {
                            assert(final(pending)@ =~= old(pending)@);
                        }
                    },
                    None => {
                        self.expr_insert_fresh(scalar_ptr, None);
                        proof {
                            assert(final(pending)@ =~= old(pending)@ + opt_children(
                                store.expected_payload(scalar_ptr),
                            ));
                        }
                    },
                }
            },
        }
    }

    /// Adds the address of the live node `expr` and queues it for
    /// processing; fails only if the pointer is not resolvable in the store.
    pub fn add_ptr(&mut self, pending: &mut Vec<ScalarPtr>, store: &Store, expr: &Ptr) -> (r:
        Option<ScalarPtr>)
        requires
            old(self).wf(),
            store.wf(),
            store.no_live_thunks(),
        ensures
            final(self).wf(),
            final(self).cont_rows@ == old(self).cont_rows@,
            r == if expr.idx < store.exprs@.len() {
                Some(store.expr_addrs@[expr.idx as int])
            } else {
                Option::<ScalarPtr>::None
            },
            expr.idx < store.exprs@.len() ==> add_effect(
                *old(self),
                *final(self),
                old(pending)@,
                final(pending)@,
                *store,
                store.expr_addrs@[expr.idx as int],
            ),
            expr.idx >= store.exprs@.len() ==> *final(self) == *old(self) && final(pending)@
                == old(pending)@,
    {
        match store.get_expr_hash(expr) {
            Some(scalar_ptr) => {
                self.add(pending, store, expr, scalar_ptr);
                Some(scalar_ptr)
            },
            None => None,
        }
    }

    /// Drains the worklist: pops addresses and adds them, queueing their
    /// children, until nothing is pending.  Entries already resolved are
    /// never touched (so insertion stays idempotent and opacity can only be
    /// upgraded), every new or upgraded entry holds exactly what the store
    /// materializes its address to, and the new keys are exactly what the
    /// seed addresses can reach through entries this graph had not already
    /// resolved.
    fn add_pending_scalar_ptrs(&mut self, pending: &mut Vec<ScalarPtr>, store: &Store)
        requires
            old(self).wf(),
            store.wf(),
            store.no_live_thunks(),
        ensures
            final(self).wf(),
            final(pending)@.len() == 0,
            final(self).cont_rows@ == old(self).cont_rows@,
            forall|k: ScalarPtr| #[trigger]
                old(self).expr_map().contains_key(k) ==> final(self).expr_map().contains_key(k),
            forall|k: ScalarPtr|
                old(self).expr_map().contains_key(k) && old(self).expr_map()[k] is Some
                    ==> #[trigger] final(self).expr_map()[k] == old(self).expr_map()[k],
            forall|k: ScalarPtr| #[trigger]
                final(self).expr_map().contains_key(k) ==> (old(self).expr_map().contains_key(k)
                    && final(self).expr_map()[k] == old(self).expr_map()[k]) || final(self).expr_map()[k] == store.expected_payload(k),
            forall|k: ScalarPtr| #[trigger]
                final(self).expr_map().contains_key(k) ==> old(self).expr_map().contains_key(k)
                    || expanded(*old(self), *store, old(pending)@, k),
            forall|a: ScalarPtr| #[trigger]
                old(pending)@.contains(a) ==> final(self).expr_map().contains_key(a) && (final(self).expr_map()[a] is Some
                    || final(self).expr_map()[a] == store.expected_payload(a)),
            old(self).pending_ok(old(pending)@) ==> final(self).complete(),
    {
        let ghost g0 = *old(self);
        let ghost p0 = old(pending)@;
        proof {
            assert(store.expr_addr_set().finite());
            assert forall|x: ScalarPtr| p0.contains(x) implies expanded(g0, *store, p0, x) by {
                assert(expand_from(g0, *store, p0, x, 0));
            }
        }
        while pending.len() > 0
            invariant
                self.wf(),
                store.wf(),
                store.no_live_thunks(),
                self.cont_rows@ == g0.cont_rows@,
                forall|k: ScalarPtr| #[trigger]
                    g0.expr_map().contains_key(k) ==> self.expr_map().contains_key(k),
                forall|k: ScalarPtr|
                    g0.expr_map().contains_key(k) && g0.expr_map()[k] is Some ==> #[trigger] self.expr_map()[k] == g0.expr_map()[k],
                forall|k: ScalarPtr| #[trigger]
                    self.expr_map().contains_key(k) ==> (g0.expr_map().contains_key(k)
                        && self.expr_map()[k] == g0.expr_map()[k]) || self.expr_map()[k]
                        == store.expected_payload(k),
                forall|k: ScalarPtr| #[trigger]
                    self.expr_map().contains_key(k) ==> g0.expr_map().contains_key(k) || expanded(
                        g0,
                        *store,
                        p0,
                        k,
                    ),
                forall|a: ScalarPtr| #[trigger]
                    pending@.contains(a) ==> expanded(g0, *store, p0, a),
                forall|a: ScalarPtr| #[trigger]
                    p0.contains(a) ==> (self.expr_map().contains_key(a) && (self.expr_map()[a] is Some
                        || self.expr_map()[a] == store.expected_payload(a))) || pending@.contains(a),
                g0.pending_ok(p0) ==> self.pending_ok(pending@),
            decreases unmatched_set(*self, *store).len(), pending@.len(),
        {
            let ghost g_before = *self;
            let ghost p_whole = pending@;
            let a_opt = pending.pop();
            let a = a_opt.unwrap();
            let ghost p_before = pending@;
            proof {
                assert(p_before =~= p_whole.drop_last());
                assert(p_whole[p_whole.len() - 1] == a);
                assert(p_whole.contains(a));
            }
            self.add_scalar_ptr(pending, store, a);
            proof {
                let gs = *store;
                let g1 = *self;
                let p_after = pending@;
                let m0 = g_before.expr_map();
                let m1 = g1.expr_map();
                let expect = gs.expected_payload(a);
                let kids = opt_children(expect);
                let inserted_fresh = !m0.contains_key(a);
                let upgraded = m0.contains_key(a) && m0[a] is None && expect is Some;
                let stepped = inserted_fresh || upgraded;

                assert(add_effect(g_before, g1, p_before, p_after, gs, a));
                assert forall|x: ScalarPtr| p_before.contains(x) implies p_whole.contains(x) by {
                    let i = choose|i: int| 0 <= i < p_before.len() && p_before[i] == x;
                    assert(p_whole[i] == x);
                }
                assert forall|x: ScalarPtr| p_whole.contains(x) implies x == a
                    || p_before.contains(x) by {
                    let i = choose|i: int| 0 <= i < p_whole.len() && p_whole[i] == x;
                    if i < p_whole.len() - 1 {
                        assert(p_before[i] == x);
                    }
                }
                if stepped {
                    assert(m1 == m0.insert(a, expect));
                    assert(p_after == p_before + kids);
                    assert forall|x: ScalarPtr| p_after.contains(x) implies p_before.contains(x)
                        || kids.contains(x) by {
                        let i = choose|i: int| 0 <= i < p_after.len() && p_after[i] == x;
                        if i < p_before.len() {
                            assert(p_before[i] == x);
                        } else {
                            assert(kids[i - p_before.len()] == x);
                        }
                    }
                    assert forall|x: ScalarPtr| kids.contains(x) implies p_after.contains(x) by {
                        let i = choose|i: int| 0 <= i < kids.len() && kids[i] == x;
                        assert(p_after[p_before.len() + i] == x);
                    }
                    assert forall|x: ScalarPtr| p_before.contains(x) implies p_after.contains(
                        x,
                    ) by {
                        let i = choose|i: int| 0 <= i < p_before.len() && p_before[i] == x;
                        assert(p_after[i] == x);
                    }
                    // the entry stepped through was not already resolved at entry
                    assert(!(g0.expr_map().contains_key(a) && g0.expr_map()[a] is Some));
                    assert(p_whole.contains(a));
                    assert(expanded(g0, gs, p0, a));
                    let na = choose|n: nat| expand_from(g0, gs, p0, a, n);
                    if expect is Some {
                        assert forall|c: ScalarPtr| kids.contains(c) implies expanded(
                            g0,
                            gs,
                            p0,
                            c,
                        ) by {
                            assert(gs.reach_step(a, c));
                            assert(expand_from(g0, gs, p0, a, na));
                            assert(expand_from(g0, gs, p0, c, na + 1));
                        }
                    }
                } else {
                    assert(m1 == m0);
                    assert(p_after == p_before);
                }

                // the popped address is settled: resolved, or exactly what the
                // store materializes it to -- and settled addresses stay so
                assert(m1.contains_key(a));
                assert(m1[a] is Some || m1[a] == gs.expected_payload(a));
                assert forall|x: ScalarPtr|
                    m0.contains_key(x) && (m0[x] is Some || m0[x] == gs.expected_payload(
                        x,
                    )) implies m1.contains_key(x) && (m1[x] is Some || m1[x]
                    == gs.expected_payload(x)) by {}

                // the termination measure
                let u0 = unmatched_set(g_before, gs);
                let u1 = unmatched_set(g1, gs);
                assert forall|x: ScalarPtr| matched(g_before, gs, x) implies matched(
                    g1,
                    gs,
                    x,
                ) by {}
                assert(u1.subset_of(u0));
                assert(gs.expr_addr_set().finite());
                gs.expr_addr_set().lemma_len_filter(|x: ScalarPtr| !matched(g_before, gs, x));
                if stepped && gs.knows_expr(a) {
                    assert(gs.expr_addrs@.contains(a));
                    assert(gs.expr_addr_set().contains(a));
                    assert(!matched(g_before, gs, a));
                    assert(matched(g1, gs, a));
                    u1.lemma_subset_not_in_lt(u0, a);
                    assert(u1.len() < u0.len());
                } else {
                    if stepped {
                        assert(expect is None);
                        assert(!gs.expr_addr_set().contains(a)) by {
                            if gs.expr_addrs@.contains(a) {
                                assert(gs.knows_expr(a));
                            }
                        }
                    }
                    assert forall|x: ScalarPtr| u0.contains(x) implies u1.contains(x) by {
                        assert(gs.expr_addr_set().contains(x));
                        if stepped {
                            assert(x != a);
                        }
                    }
                    assert(u1 =~= u0);
                    assert(u1.len() == u0.len());
                    assert(p_after.len() < p_whole.len());
                }
            }
        }
    }

    /// Unqueues and adds every pending address; once it returns, the graph
    /// is closed under children of its resolved entries, provided it was
    /// closed up to the worklist when called.
    pub fn finalize(&mut self, pending: &mut Vec<ScalarPtr>, store: &Store)
        requires
            old(self).wf(),
            store.wf(),
            store.no_live_thunks(),
        ensures
            final(self).wf(),
            final(pending)@.len() == 0,
            final(self).cont_rows@ == old(self).cont_rows@,
            forall|k: ScalarPtr| #[trigger]
                old(self).expr_map().contains_key(k) ==> final(self).expr_map().contains_key(k),
            forall|k: ScalarPtr|
                old(self).expr_map().contains_key(k) && old(self).expr_map()[k] is Some
                    ==> #[trigger] final(self).expr_map()[k] == old(self).expr_map()[k],
            forall|k: ScalarPtr| #[trigger]
                final(self).expr_map().contains_key(k) ==> (old(self).expr_map().contains_key(k)
                    && final(self).expr_map()[k] == old(self).expr_map()[k]) || final(self).expr_map()[k] == store.expected_payload(k),
            forall|k: ScalarPtr| #[trigger]
                final(self).expr_map().contains_key(k) ==> old(self).expr_map().contains_key(k)
                    || expanded(*old(self), *store, old(pending)@, k),
            forall|a: ScalarPtr| #[trigger]
                old(pending)@.contains(a) ==> final(self).expr_map().contains_key(a) && (final(self).expr_map()[a] is Some
                    || final(self).expr_map()[a] == store.expected_payload(a)),
            old(self).pending_ok(old(pending)@) ==> final(self).complete(),
    {
        self.add_pending_scalar_ptrs(pending, store);
    }

    /// Adds the address of `expr` and everything reachable from it, draining
    /// the worklist.  Entries already resolved are never changed, and every
    /// entry this call adds or resolves holds exactly what the store
    /// materializes its address to.
    pub fn add_one_ptr(&mut self, pending: &mut Vec<ScalarPtr>, store: &Store, expr: &Ptr) -> (r:
        Option<ScalarPtr>)
        requires
            old(self).wf(),
            store.wf(),
            store.no_live_thunks(),
        ensures
            final(self).wf(),
            final(pending)@.len() == 0,
            final(self).cont_rows@ == old(self).cont_rows@,
            r == if expr.idx < store.exprs@.len() {
                Some(store.expr_addrs@[expr.idx as int])
            } else {
                Option::<ScalarPtr>::None
            },
            forall|k: ScalarPtr| #[trigger]
                old(self).expr_map().contains_key(k) ==> final(self).expr_map().contains_key(k),
            forall|k: ScalarPtr|
                old(self).expr_map().contains_key(k) && old(self).expr_map()[k] is Some
                    ==> #[trigger] final(self).expr_map()[k] == old(self).expr_map()[k],
            forall|k: ScalarPtr| #[trigger]
                final(self).expr_map().contains_key(k) ==> (old(self).expr_map().contains_key(k)
                    && final(self).expr_map()[k] == old(self).expr_map()[k]) || final(
                self).expr_map()[k] == store.expected_payload(k),
            expr.idx < store.exprs@.len() ==> final(self).expr_map().contains_key(
                store.expr_addrs@[expr.idx as int],
            ) && (final(self).expr_map()[store.expr_addrs@[expr.idx as int]] is Some || final(self).expr_map()[store.expr_addrs@[expr.idx as int]] == store.expected_payload(
                store.expr_addrs@[expr.idx as int],
            )),
            forall|a: ScalarPtr| #[trigger]
                old(pending)@.contains(a) ==> final(self).expr_map().contains_key(a) && (final(self).expr_map()[a] is Some
                    || final(self).expr_map()[a] == store.expected_payload(a)),
            old(self).pending_ok(old(pending)@) ==> final(self).complete(),
    {
        let ghost g0 = *old(self);
        let ghost p0 = old(pending)@;
        let scalar_ptr = self.add_ptr(pending, store, expr);
        let ghost g1 = *self;
        let ghost p1 = pending@;
        proof {
            if expr.idx < store.exprs@.len() {
                let a = store.expr_addrs@[expr.idx as int];
                let kids = opt_children(store.expected_payload(a));
                if !(g0.expr_map().contains_key(a) && !(g0.expr_map()[a] is None
                    && store.expected_payload(a) is Some)) {
                    assert(p1 == p0 + kids);
                    assert forall|x: ScalarPtr| p0.contains(x) implies p1.contains(x) by {
                        let i = choose|i: int| 0 <= i < p0.len() && p0[i] == x;
                        assert(p1[i] == x);
                    }
                    assert forall|x: ScalarPtr| kids.contains(x) implies p1.contains(x) by {
                        let i = choose|i: int| 0 <= i < kids.len() && kids[i] == x;
                        assert(p1[p0.len() + i] == x);
                    }
                }
            }
            assert(g0.pending_ok(p0) ==> g1.pending_ok(p1));
        }
        proof {
            if expr.idx < store.exprs@.len() {
                let a = store.expr_addrs@[expr.idx as int];
                assert(g1.expr_map().contains_key(a));
                assert(g1.expr_map()[a] is Some || g1.expr_map()[a] == store.expected_payload(a));
            }
            assert forall|k: ScalarPtr| #[trigger]
                g0.expr_map().contains_key(k) implies g1.expr_map().contains_key(k) by {}
            assert forall|x: ScalarPtr| #[trigger] p0.contains(x) implies p1.contains(x) by {
                if p1 != p0 {
                    let i = choose|i: int| 0 <= i < p0.len() && p0[i] == x;
                    assert(p1[i] == x);
                }
            }
        }
        self.finalize(pending, store);
        proof {
            if expr.idx < store.exprs@.len() {
                let a = store.expr_addrs@[expr.idx as int];
                if g1.expr_map()[a] is Some {
                    assert(final(self).expr_map()[a] == g1.expr_map()[a]);
                } else {
                    assert(final(self).expr_map()[a] == g1.expr_map()[a] || final(self).expr_map()[a] == store.expected_payload(a));
                }
            }
            assert forall|k: ScalarPtr| #[trigger] final(self).expr_map().contains_key(k) implies (
            g0.expr_map().contains_key(k) && final(self).expr_map()[k] == g0.expr_map()[k]) || final(
            self).expr_map()[k] == store.expected_payload(k) by {
                if final(self).expr_map().contains_key(k) {
                    if g1.expr_map().contains_key(k) && final(self).expr_map()[k]
                        == g1.expr_map()[k] {
                        assert(g0.expr_map().contains_key(k) && g1.expr_map()[k]
                            == g0.expr_map()[k] || g1.expr_map()[k] == store.expected_payload(k));
                    }
                }
            }
        }
        scalar_ptr
    }

    /// Creates a new graph holding exactly the sub-DAG reachable from
    /// `expr`: its keys are precisely the addresses reachable from the
    /// root's address, every entry holds what the store materializes it to,
    /// the graph is closed under children, and no continuations are touched.
    /// An unresolvable pointer yields an empty graph and no root address.
    /// Stores holding live thunks are excluded: materializing one is an
    /// unimplemented gap, and excluding it is how a verified function fails
    /// fast instead of emitting a graph it cannot close.
    pub fn new_with_expr(store: &Store, expr: &Ptr) -> (r: (ScalarStore, Option<ScalarPtr>))
        requires
            store.wf(),
            store.no_live_thunks(),
        ensures
            r.0.wf(),
            r.0.complete(),
            r.0.consistent_with(*store),
            r.0.cont_map() == Map::<ScalarContPtr, Option<ScalarContinuation>>::empty(),
            expr.idx < store.exprs@.len() ==> {
                let root = store.expr_addrs@[expr.idx as int];
                r.1 == Some(root) && r.0.expr_map().dom() == store.reach_set(root)
            },
            expr.idx >= store.exprs@.len() ==> r.1 is None && r.0.expr_map() == Map::<
                ScalarPtr,
                Option<ExprModel>,
            >::empty(),
    {
        let mut new = Self::default();
        let mut pending: Vec<ScalarPtr> = Vec::new();
        let ghost g0 = new;
        let scalar_ptr = new.add_ptr(&mut pending, store, expr);
        let ghost g1 = new;
        let ghost p1 = pending@;
        proof {
            if expr.idx < store.exprs@.len() {
                let root = store.expr_addrs@[expr.idx as int];
                let kids = opt_children(store.expected_payload(root));
                assert(p1 == Seq::<ScalarPtr>::empty() + kids);
                assert forall|x: ScalarPtr| kids.contains(x) implies p1.contains(x) by {
                    let i = choose|i: int| 0 <= i < kids.len() && kids[i] == x;
                    assert(p1[0 + i] == x);
                }
                assert(g1.pending_ok(p1));
            }
        }
        new.finalize(&mut pending, store);
        proof {
            if expr.idx < store.exprs@.len() {
                let root = store.expr_addrs@[expr.idx as int];
                let kids = opt_children(store.expected_payload(root));
                assert(new.consistent_with(*store)) by {
                    assert forall|k: ScalarPtr| #[trigger]
                        new.expr_map().contains_key(k) implies new.expr_map()[k]
                        == store.expected_payload(k) by {
                        if g1.expr_map().contains_key(k) && new.expr_map()[k]
                            == g1.expr_map()[k] {
                            assert(k == root);
                        }
                    }
                }
                assert(new.complete());
                assert(new.expr_map().contains_key(root));
                assert forall|x: ScalarPtr| p1.contains(x) implies store.reachable(root, x) by {
                    let i = choose|i: int| 0 <= i < p1.len() && p1[i] == x;
                    assert(kids[i] == x);
                    assert(kids.contains(x));
                    assert(store.reach_step(root, x));
                    assert(store.reaches_n(root, root, 0));
                    assert(store.reaches_n(root, x, 1));
                }
                assert forall|k: ScalarPtr| #[trigger]
                    new.expr_map().contains_key(k) implies store.reach_set(root).contains(k) by {
                    if g1.expr_map().contains_key(k) {
                        assert(k == root);
                        assert(store.reaches_n(root, k, 0));
                    } else {
                        assert(expanded(g1, *store, p1, k));
                        let n = choose|n: nat| expand_from(g1, *store, p1, k, n);
                        lemma_expand_reachable(g1, *store, p1, root, k, n);
                    }
                }
                assert forall|k: ScalarPtr| store.reach_set(root).contains(
                    k,
                ) implies #[trigger] new.expr_map().contains_key(k) by {
                    assert(store.reachable(root, k));
                    let n = choose|n: nat| store.reaches_n(root, k, n);
                    lemma_reach_in_dom(new, *store, root, k, n);
                }
                assert(new.expr_map().dom() =~= store.reach_set(root));
            } else {
                assert forall|k: ScalarPtr| !(#[trigger] new.expr_map().contains_key(k)) by {
                    if new.expr_map().contains_key(k) {
                        if expanded(g1, *store, p1, k) {
                            let n = choose|n: nat| expand_from(g1, *store, p1, k, n);
                            lemma_expand_empty(g1, *store, p1, k, n);
                        }
                    }
                }
                assert(new.expr_map() =~= Map::<ScalarPtr, Option<ExprModel>>::empty());
                assert(new.consistent_with(*store));
                assert(new.complete());
            }
            assert(new.cont_rows@.len() == 0);
            assert(new.cont_map() == Map::<ScalarContPtr, Option<ScalarContinuation>>::empty());
        }
        if let Some(scalar_ptr) = scalar_ptr {
            (new, Some(scalar_ptr))
        } else {
            (new, None)
        }
    }
}

impl ScalarStore {
    /// Builds a fresh host store holding every address of the graph: each
    /// key is interned, resolved entries get their payload re-interned with
    /// children looked up by address in the graph, opaque entries intern as
    /// opaque leaves.
    #[verifier::rlimit(60)]
    fn build_store(&self) -> (st: Store)
        requires
            self.wf(),
        ensures
            st.wf(),
            forall|k: ScalarPtr| #[trigger] self.expr_map().contains_key(k) ==> st.knows_expr(k),
            forall|k: ScalarContPtr| #[trigger] self.cont_map().contains_key(k) ==> st.knows_cont(
                k,
            ),
            forall|k: ScalarPtr| #[trigger]
                self.expr_map().contains_key(k) ==> match self.expr_map()[k] {
                    Some(m) => st.expected_payload(k) == Some(m),
                    None => st.expected_payload(k) is None,
                },
    {
        let n = self.expr_rows.len();
        let m = self.cont_rows.len();
        let mut st = Store::new();
        proof {
            self.lemma_expr_distinct();
            self.lemma_cont_distinct();
        }
        let mut i: usize = 0;
        while i < n
            invariant
                self.wf(),
                st.wf(),
                rows_distinct(self.expr_model_rows()),
                n == self.expr_rows@.len(),
                0 <= i <= n,
                st.exprs@.len() == i,
                st.conts@.len() == 0,
                forall|j: int|
                    0 <= j < i ==> (#[trigger] st.expr_addrs@[j]) == self.expr_model_rows()[j].0,
                forall|j: int| 0 <= j < i ==> (#[trigger] st.exprs@[j]) is Opaque,
            decreases n - i,
        {
            let k = self.expr_rows[i].0;
            proof {
                assert(self.expr_model_rows()[i as int].0 == k);
                if st.knows_expr(k) {
                    let j = choose|j: int|
                        0 <= j < st.expr_addrs@.len() && (#[trigger] st.expr_addrs@[j]) == k;
                    assert(self.expr_model_rows()[j].0 == k);
                    assert(false);
                }
            }
            let _p = st.intern_opaque_expr(k);
            i = i + 1;
        }
        let mut i2: usize = 0;
        while i2 < m
            invariant
                self.wf(),
                st.wf(),
                rows_distinct(self.cont_rows@),
                n == self.expr_rows@.len(),
                m == self.cont_rows@.len(),
                0 <= i2 <= m,
                st.exprs@.len() == n,
                st.conts@.len() == i2,
                forall|j: int|
                    0 <= j < n ==> (#[trigger] st.expr_addrs@[j]) == self.expr_model_rows()[j].0,
                forall|j: int| 0 <= j < n ==> (#[trigger] st.exprs@[j]) is Opaque,
                forall|j: int|
                    0 <= j < i2 ==> (#[trigger] st.cont_addrs@[j]) == self.cont_rows@[j].0,
                forall|j: int| 0 <= j < i2 ==> (#[trigger] st.conts@[j]) is Opaque,
            decreases m - i2,
        {
            let k = self.cont_rows[i2].0;
            proof {
                if st.knows_cont(k) {
                    let j = choose|j: int|
                        0 <= j < st.cont_addrs@.len() && (#[trigger] st.cont_addrs@[j]) == k;
                    assert(self.cont_rows@[j].0 == k);
                    assert(false);
                }
            }
            let _p = st.intern_opaque_cont(k);
            i2 = i2 + 1;
        }
        let mut i3: usize = 0;
        while i3 < n
            invariant
                self.wf(),
                st.wf(),
                n == self.expr_rows@.len(),
                m == self.cont_rows@.len(),
                0 <= i3 <= n,
                st.exprs@.len() >= n,
                st.conts@.len() >= m,
                forall|j: int|
                    0 <= j < n ==> (#[trigger] st.expr_addrs@[j]) == self.expr_model_rows()[j].0,
                forall|j: int|
                    0 <= j < m ==> (#[trigger] st.cont_addrs@[j]) == self.cont_rows@[j].0,
                forall|j: int| i3 <= j < st.exprs@.len() ==> (#[trigger] st.exprs@[j]) is Opaque,
                forall|j: int| 0 <= j < st.conts@.len() ==> (#[trigger] st.conts@[j]) is Opaque,
                forall|j: int|
                    0 <= j < i3 ==> match (#[trigger] self.expr_model_rows()[j]).1 {
                        Some(pm) => st.payload_model_at(j) == Some(pm),
                        None => st.exprs@[j] is Opaque,
                    },
            decreases n - i3,
        {
            let ghost st_at_entry = st;
            let row = &self.expr_rows[i3];
            let k = row.0;
            proof {
                assert(self.expr_model_rows()[i3 as int].0 == k);
                assert(self.expr_model_rows()[i3 as int].1 == opt_model(
                    self.expr_rows@[i3 as int].1,
                ));
            }
            let node_opt: Option<crate::store::ExprNode> = match &row.1 {
                None => None,
                Some(e) => Some(
                    match e {
                        ScalarExpression::Nil => crate::store::ExprNode::Nil,
                        ScalarExpression::Cons(a, b) => {
                            let pa = st.intern_opaque_expr(*a);
                            let pb = st.intern_opaque_expr(*b);
                            crate::store::ExprNode::Cons(pa, pb)
                        },
                        ScalarExpression::Comm(secret, p) => {
                            let pp = st.intern_opaque_expr(*p);
                            crate::store::ExprNode::Comm(*secret, pp)
                        },
                        ScalarExpression::Sym(sv) => crate::store::ExprNode::Sym(sv.clone()),
                        ScalarExpression::Fun { arg, body, closed_env } => {
                            let pa = st.intern_opaque_expr(*arg);
                            let pb = st.intern_opaque_expr(*body);
                            let pe = st.intern_opaque_expr(*closed_env);
                            crate::store::ExprNode::Fun { arg: pa, body: pb, closed_env: pe }
                        },
                        ScalarExpression::Num(x) => crate::store::ExprNode::Num(*x),
                        ScalarExpression::Str(sv) => crate::store::ExprNode::Str(sv.clone()),
                        ScalarExpression::Thunk(t) => {
                            let pv = st.intern_opaque_expr(t.value);
                            let pc = st.intern_opaque_cont(t.continuation);
                            crate::store::ExprNode::Thunk { value: pv, continuation: pc }
                        },
                        ScalarExpression::Char(c) => crate::store::ExprNode::Char(*c),
                    },
                ),
            };
            match node_opt {
                Some(node) => {
                    proof {
                        assert(st.expr_addrs@[i3 as int] == k);
                    }
                    st.resolve_expr(crate::store::Ptr { idx: i3 }, node);
                },
                None => {},
            }
            proof {
                assert forall|j: int|
                    0 <= j < i3 + 1 implies match (#[trigger] self.expr_model_rows()[j]).1 {
                    Some(pm) => st.payload_model_at(j) == Some(pm),
                    None => st.exprs@[j] is Opaque,
                } by {
                    if j < i3 {
                        assert(match self.expr_model_rows()[j].1 {
                            Some(pm) => st_at_entry.payload_model_at(j) == Some(pm),
                            None => st_at_entry.exprs@[j] is Opaque,
                        });
                        assert(st.exprs@[j] == st_at_entry.exprs@[j]);
                        assert forall|x: int|
                            0 <= x < st_at_entry.expr_addrs@.len() implies st.expr_addrs@[x]
                            == st_at_entry.expr_addrs@[x] by {}
                    }
                }
            }
            i3 = i3 + 1;
        }
        let mut i4: usize = 0;
        while i4 < m
            invariant
                self.wf(),
                st.wf(),
                n == self.expr_rows@.len(),
                m == self.cont_rows@.len(),
                0 <= i4 <= m,
                st.exprs@.len() >= n,
                st.conts@.len() >= m,
                forall|j: int|
                    0 <= j < n ==> (#[trigger] st.expr_addrs@[j]) == self.expr_model_rows()[j].0,
                forall|j: int|
                    0 <= j < m ==> (#[trigger] st.cont_addrs@[j]) == self.cont_rows@[j].0,
                forall|j: int| i4 <= j < m ==> (#[trigger] st.conts@[j]) is Opaque,
                forall|j: int|
                    0 <= j < n ==> match (#[trigger] self.expr_model_rows()[j]).1 {
                        Some(pm) => st.payload_model_at(j) == Some(pm),
                        None => st.exprs@[j] is Opaque,
                    },
            decreases m - i4,
        {
            let ghost st_at_entry = st;
            let (k, v) = self.cont_rows[i4];
            match v {
                Some(c) => {
                    proof {
                        assert(st.cont_addrs@[i4 as int] == k);
                        assert(self.cont_rows@[i4 as int].1 == Some(c));
                    }
                    st.resolve_cont(crate::store::ContPtr { idx: i4 }, c);
                },
                None => {},
            }
            i4 = i4 + 1;
        }
        proof {
            assert forall|k: ScalarPtr| #[trigger]
                self.expr_map().contains_key(k) implies st.knows_expr(k) && match self.expr_map()[k] {
                Some(pm) => st.expected_payload(k) == Some(pm),
                None => st.expected_payload(k) is None,
            } by {
                lemma_rows_map_contains(self.expr_model_rows(), k);
                let j = choose|j: int|
                    0 <= j < self.expr_model_rows().len() && (#[trigger] self.expr_model_rows()[j]).0
                        == k;
                assert(st.expr_addrs@[j] == k);
                assert(st.knows_expr(k));
                assert forall|x: int|
                    0 <= x < st.expr_addrs@.len() && st.expr_addrs@[x] == k implies x == j by {
                    if x != j {
                        assert(st.expr_addrs@[x] != st.expr_addrs@[j]);
                    }
                }
                assert(st.expr_index_of(k) == j);
                self.lemma_expr_distinct();
                lemma_rows_map_index(self.expr_model_rows(), j);
                assert(self.expr_map()[k] == self.expr_model_rows()[j].1);
            }
            assert forall|k: ScalarContPtr| #[trigger]
                self.cont_map().contains_key(k) implies st.knows_cont(k) by {
                lemma_rows_map_contains(self.cont_rows@, k);
                let j = choose|j: int|
                    0 <= j < self.cont_rows@.len() && (#[trigger] self.cont_rows@[j]).0 == k;
                assert(st.cont_addrs@[j] == k);
            }
        }
        st
    }

    /// Reconstructs a live host store from the snapshot: every address of
    /// both maps is interned, opaque entries as opaque leaves.  Total over
    /// any well-formed graph.
    pub fn to_store(&self) -> (r: Option<Store>)
        requires
            self.wf(),
        ensures
            r is Some,
            match r {
                Some(st) => {
                    &&& st.wf()
                    &&& forall|k: ScalarPtr| #[trigger]
                        self.expr_map().contains_key(k) ==> st.knows_expr(k)
                    &&& forall|k: ScalarContPtr| #[trigger]
                        self.cont_map().contains_key(k) ==> st.knows_cont(k)
                    &&& forall|k: ScalarPtr| #[trigger]
                        self.expr_map().contains_key(k) ==> match self.expr_map()[k] {
                            Some(m) => st.expected_payload(k) == Some(m),
                            None => st.expected_payload(k) is None,
                        }
                },
                None => false,
            },
    {
        Some(self.build_store())
    }

    /// Reconstructs a live host store and returns the live value of `ptr`
    /// alongside it; yields nothing exactly when `ptr` is not a key of the
    /// graph.
    pub fn to_store_with_expr(&self, ptr: &ScalarPtr) -> (r: Option<(Store, Ptr)>)
        requires
            self.wf(),
        ensures
            r is Some <==> self.expr_map().contains_key(*ptr),
            match r {
                Some((st, live)) => {
                    &&& st.wf()
                    &&& live.idx < st.exprs@.len()
                    &&& st.expr_addrs@[live.idx as int] == *ptr
                    &&& forall|k: ScalarPtr| #[trigger]
                        self.expr_map().contains_key(k) ==> st.knows_expr(k)
                    &&& forall|k: ScalarContPtr| #[trigger]
                        self.cont_map().contains_key(k) ==> st.knows_cont(k)
                    &&& forall|k: ScalarPtr| #[trigger]
                        self.expr_map().contains_key(k) ==> match self.expr_map()[k] {
                            Some(m) => st.expected_payload(k) == Some(m),
                            None => st.expected_payload(k) is None,
                        }
                },
                None => true,
            },
    {
        match self.expr_find(ptr) {
            None => None,
            Some(_) => {
                let st = self.build_store();
                match st.ptr_for_addr(ptr) {
                    Some(live) => Some((st, live)),
                    None => None,
                }
            },
        }
    }
}

/// The flat field encoding of one expression entry: key tag and digest,
/// then a one-valued presence field followed by the payload's fields, or a
/// single zero sentinel when opaque.  The marker keeps the sentinel
/// distinguishable from every resolved payload (a bare `Num(0)` or the nul
/// character would otherwise also flatten to one zero field).
pub open spec fn flat_entry_expr(k: ScalarPtr, v: Option<ExprModel>) -> Seq<u64> {
    seq![k.tag, k.digest] + match v {
        Some(m) => seq![1u64] + crate::payload::expr_flat(m),
        None => seq![0u64],
    }
}

/// The flat field encoding of one continuation entry, marked like
/// [`flat_entry_expr`].
pub open spec fn flat_entry_cont(k: ScalarContPtr, v: Option<ScalarContinuation>) -> Seq<u64> {
    seq![k.tag, k.digest] + match v {
        Some(c) => seq![1u64] + crate::payload::cont_flat(c),
        None => seq![0u64],
    }
}

/// The flat canonical sequence of a snapshot: both halves merged into one
/// ascending order on the unified `(tag, digest)` key; where the same
/// unified key appears in both halves the continuation entry stands.
pub open spec fn flat_merge(
    e: Seq<(ScalarPtr, Option<ExprModel>)>,
    c: Seq<(ScalarContPtr, Option<ScalarContinuation>)>,
) -> Seq<u64>
    decreases e.len() + c.len(),
{
    if e.len() == 0 && c.len() == 0 {
        Seq::empty()
    } else if c.len() == 0 || (e.len() > 0 && crate::ptrs::pair_lt(
        e[0].0.tag,
        e[0].0.digest,
        c[0].0.tag,
        c[0].0.digest,
    )) {
        flat_entry_expr(e[0].0, e[0].1) + flat_merge(e.skip(1), c)
    } else if e.len() == 0 || crate::ptrs::pair_lt(
        c[0].0.tag,
        c[0].0.digest,
        e[0].0.tag,
        e[0].0.digest,
    ) {
        flat_entry_cont(c[0].0, c[0].1) + flat_merge(e, c.skip(1))
    } else {
        flat_entry_cont(c[0].0, c[0].1) + flat_merge(e.skip(1), c.skip(1))
    }
}

impl ScalarStore {
    /// Every resolved payload has a defined flat encoding.
    pub open spec fn all_flat_encodable(self) -> bool {
        &&& forall|i: int|
            0 <= i < self.expr_model_rows().len() ==> match (#[trigger] self.expr_model_rows()[i]).1 {
                Some(m) => crate::payload::expr_flat_encodable(m),
                None => true,
            }
        &&& forall|i: int|
            0 <= i < self.cont_rows@.len() ==> match (#[trigger] self.cont_rows@[i]).1 {
                Some(c) => crate::payload::cont_flat_encodable(c),
                None => true,
            }
    }

    /// Flattens the snapshot into the single deterministic sequence of field
    /// elements given by [`flat_merge`]: entries of both maps in ascending
    /// unified key order, each as its key pair followed by a one-valued
    /// presence field and the payload fields, or by one zero field for an
    /// opaque entry, so an opaque payload is never mistaken for a resolved
    /// one.
    pub fn ser_f(self) -> (r: Vec<u64>)
        requires
            self.wf(),
            self.all_flat_encodable(),
        ensures
            r@ == flat_merge(self.expr_model_rows(), self.cont_rows@),
    {
        let ghost e0 = self.expr_model_rows();
        let ghost c0 = self.cont_rows@;
        let mut g = self;
        let mut r: Vec<u64> = Vec::new();
        proof {
            assert(r@ + flat_merge(g.expr_model_rows(), g.cont_rows@) =~= flat_merge(e0, c0));
        }
        while g.expr_rows.len() > 0 || g.cont_rows.len() > 0
            invariant
                forall|i: int|
                    0 <= i < g.expr_model_rows().len() ==> match (
                    #[trigger] g.expr_model_rows()[i]).1 {
                        Some(m) => crate::payload::expr_flat_encodable(m),
                        None => true,
                    },
                forall|i: int|
                    0 <= i < g.cont_rows@.len() ==> match (#[trigger] g.cont_rows@[i]).1 {
                        Some(c) => crate::payload::cont_flat_encodable(c),
                        None => true,
                    },
                r@ + flat_merge(g.expr_model_rows(), g.cont_rows@) == flat_merge(e0, c0),
            decreases g.expr_rows@.len() + g.cont_rows@.len(),
        {
            let ghost ge = g.expr_model_rows();
            let ghost gc = g.cont_rows@;
            let ghost r_before = r@;
            let take_expr = if g.cont_rows.len() == 0 {
                true
            } else if g.expr_rows.len() == 0 {
                false
            } else {
                let ek = g.expr_rows[0].0;
                let ck = g.cont_rows[0].0;
                ek.tag < ck.tag || (ek.tag == ck.tag && ek.digest < ck.digest)
            };
            if take_expr {
                let (k, v) = g.expr_rows.remove(0);
                r.push(k.tag);
                r.push(k.digest);
                match v {
                    Some(e) => {
                        proof {
                            assert(ge[0].1 == Some(e.model()));
                        }
                        r.push(1u64);
                        let mut fields = e.ser_f();
                        r.append(&mut fields);
                    },
                    None => {
                        r.push(0u64);
                    },
                }
                proof {
                    assert(g.expr_model_rows() =~= ge.skip(1));
                    assert(flat_merge(ge, gc) == flat_entry_expr(ge[0].0, ge[0].1) + flat_merge(
                        ge.skip(1),
                        gc,
                    ));
                    assert(r@ =~= r_before + flat_entry_expr(ge[0].0, ge[0].1));
                    assert(r@ + flat_merge(g.expr_model_rows(), g.cont_rows@) =~= flat_merge(
                        e0,
                        c0,
                    ));
                }
            } else {
                let equal_key = if g.expr_rows.len() == 0 {
                    false
                } else {
                    let ek = g.expr_rows[0].0;
                    let ck = g.cont_rows[0].0;
                    ek.tag == ck.tag && ek.digest == ck.digest
                };
                if equal_key {
                    let _dropped = g.expr_rows.remove(0);
                    proof {
                        assert(g.expr_model_rows() =~= ge.skip(1));
                    }
                }
                let (k, v) = g.cont_rows.remove(0);
                r.push(k.tag);
                r.push(k.digest);
                match v {
                    Some(c) => {
                        r.push(1u64);
                        let mut fields = c.ser_f();
                        r.append(&mut fields);
                    },
                    None => {
                        r.push(0u64);
                    },
                }
                proof {
                    if equal_key {
                        assert(flat_merge(ge, gc) == flat_entry_cont(gc[0].0, gc[0].1)
                            + flat_merge(ge.skip(1), gc.skip(1)));
                    } else {
                        assert(flat_merge(ge, gc) == flat_entry_cont(gc[0].0, gc[0].1)
                            + flat_merge(ge, gc.skip(1)));
                    }
                    assert(r@ =~= r_before + flat_entry_cont(gc[0].0, gc[0].1));
                    assert(r@ + flat_merge(g.expr_model_rows(), g.cont_rows@) =~= flat_merge(
                        e0,
                        c0,
                    ));
                }
            }
        }
        proof {
            assert(g.expr_model_rows() =~= Seq::<(ScalarPtr, Option<ExprModel>)>::empty());
            assert(r@ =~= flat_merge(e0, c0));
        }
        r
    }
}

/// The flat canonical sequence is a function of the graph's contents alone:
/// two snapshots holding the same key-to-payload maps flatten identically,
/// whatever order their entries were built in.
pub proof fn lemma_flat_canonical_deterministic(s1: ScalarStore, s2: ScalarStore)
    requires
        s1.wf(),
        s2.wf(),
        s1.expr_map() == s2.expr_map(),
        s1.cont_map() == s2.cont_map(),
    ensures
        flat_merge(s1.expr_model_rows(), s1.cont_rows@) == flat_merge(
            s2.expr_model_rows(),
            s2.cont_rows@,
        ),
{
    crate::rows::lemma_sorted_rows_canonical(
        s1.expr_model_rows(),
        s2.expr_model_rows(),
        |a: ScalarPtr, b: ScalarPtr| expr_key_lt(a, b),
    );
    crate::rows::lemma_sorted_rows_canonical(
        s1.cont_rows@,
        s2.cont_rows@,
        |a: ScalarContPtr, b: ScalarContPtr| cont_key_lt(a, b),
    );
}

/// In a closed graph whose entries agree with the store, every address the
/// store can reach from a key of the graph is itself a key: completeness
/// of the traversal, stated over reachability.
pub proof fn lemma_reach_in_dom(
    g: ScalarStore,
    store: Store,
    root: ScalarPtr,
    a: ScalarPtr,
    n: nat,
)
    requires
        g.complete(),
        g.consistent_with(store),
        g.expr_map().contains_key(root),
        store.reaches_n(root, a, n),
    ensures
        g.expr_map().contains_key(a),
    decreases n,
{
    if n == 0 {
    } else if a == root {
    } else {
        let b = choose|b: ScalarPtr|
            store.reaches_n(root, b, (n - 1) as nat) && #[trigger] store.reach_step(b, a);
        lemma_reach_in_dom(g, store, root, b, (n - 1) as nat);
        assert(g.expr_map()[b] == store.expected_payload(b));
        assert(opt_children(g.expr_map()[b]).contains(a));
    }
}

/// Whatever a seed of root-reachable addresses expands to stays reachable
/// from the root.
proof fn lemma_expand_reachable(
    g0: ScalarStore,
    store: Store,
    seed: Seq<ScalarPtr>,
    root: ScalarPtr,
    a: ScalarPtr,
    n: nat,
)
    requires
        forall|c: ScalarPtr| #[trigger] seed.contains(c) ==> store.reachable(root, c),
        expand_from(g0, store, seed, a, n),
    ensures
        store.reachable(root, a),
    decreases n,
{
    if seed.contains(a) {
    } else {
        let b = choose|b: ScalarPtr|
            expand_from(g0, store, seed, b, (n - 1) as nat) && !(g0.expr_map().contains_key(b)
                && g0.expr_map()[b] is Some) && #[trigger] store.reach_step(b, a);
        lemma_expand_reachable(g0, store, seed, root, b, (n - 1) as nat);
        let nb = choose|m: nat| store.reaches_n(root, b, m);
        assert(store.reach_step(b, a));
        assert(store.reaches_n(root, a, nb + 1));
    }
}

/// Nothing expands from an empty seed.
proof fn lemma_expand_empty(
    g0: ScalarStore,
    store: Store,
    seed: Seq<ScalarPtr>,
    a: ScalarPtr,
    n: nat,
)
    requires
        seed.len() == 0,
    ensures
        !expand_from(g0, store, seed, a, n),
    decreases n,
{
    assert(!seed.contains(a));
    if n > 0 {
        assert forall|b: ScalarPtr|
            !(expand_from(g0, store, seed, b, (n - 1) as nat) && !(g0.expr_map().contains_key(b)
                && g0.expr_map()[b] is Some) && #[trigger] store.reach_step(b, a)) by {
            lemma_expand_empty(g0, store, seed, b, (n - 1) as nat);
        }
    }
}

} // verus!
