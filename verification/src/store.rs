//! A minimal host object store.
//!
//! The store owns the live heap: expression nodes whose children are live
//! indices, and continuation nodes.  Every node carries a content address
//! assigned when it is interned; structural hashing is the store's own
//! business, so a fresh digest is simply the next unused scalar, while
//! interning by a given address (an opaque intern, or rehydration from a
//! snapshot) keeps the address it was handed.  Addresses are unique per kind,
//! which is what makes the address-to-node lookup a function.

use crate::payload::{
    cont_tag, expr_children, ExprModel, ScalarContinuation, ScalarExpression, ScalarThunk,
};
use crate::ptrs::{
    ScalarContPtr, ScalarPtr, F, TAG_CHAR, TAG_COMM, TAG_CONS, TAG_FUN, TAG_NIL, TAG_NUM, TAG_STR,
    TAG_SYM, TAG_THUNK,
};
use vstd::prelude::*;

verus! {

/// A live pointer to an expression node of a [`Store`].
#[derive(Debug, Clone, Copy, PartialEq, Eq, Hash, Structural)]
pub struct Ptr {
    pub idx: usize,
}

/// A live pointer to a continuation node of a [`Store`].
#[derive(Debug, Clone, Copy, PartialEq, Eq, Hash, Structural)]
pub struct ContPtr {
    pub idx: usize,
}

/// A live expression node.  `Opaque` stands for a node whose address is
/// known but whose preimage the store does not hold.
#[derive(Debug, Clone, PartialEq, Eq)]
pub enum ExprNode {
    Nil,
    Cons(Ptr, Ptr),
    Comm(F, Ptr),
    Sym(String),
    Fun { arg: Ptr, body: Ptr, closed_env: Ptr },
    Num(F),
    Str(String),
    Thunk { value: Ptr, continuation: ContPtr },
    Char(char),
    Opaque,
}

/// A live continuation node.
#[derive(Debug, Clone, Copy, PartialEq, Eq, Structural)]
pub enum ContNode {
    Opaque,
    Known(ScalarContinuation),
}

/// The host store: parallel vectors of nodes and their content addresses,
/// plus the next unused fresh digest.
#[derive(Debug, Clone, PartialEq, Eq)]
pub struct Store {
    pub exprs: Vec<ExprNode>,
    pub expr_addrs: Vec<ScalarPtr>,
    pub conts: Vec<ContNode>,
    pub cont_addrs: Vec<ScalarContPtr>,
    pub next_digest: F,
}

/// Key equality on nodes: structural, with strings compared by contents.
pub open spec fn node_key_eq(x: ExprNode, y: ExprNode) -> bool {
    match (x, y) {
        (ExprNode::Nil, ExprNode::Nil) => true,
        (ExprNode::Cons(a1, b1), ExprNode::Cons(a2, b2)) => a1 == a2 && b1 == b2,
        (ExprNode::Comm(s1, p1), ExprNode::Comm(s2, p2)) => s1 == s2 && p1 == p2,
        (ExprNode::Sym(s1), ExprNode::Sym(s2)) => s1@ == s2@,
        (
            ExprNode::Fun { arg: a1, body: b1, closed_env: e1 },
            ExprNode::Fun { arg: a2, body: b2, closed_env: e2 },
        ) => a1 == a2 && b1 == b2 && e1 == e2,
        (ExprNode::Num(x1), ExprNode::Num(x2)) => x1 == x2,
        (ExprNode::Str(s1), ExprNode::Str(s2)) => s1@ == s2@,
        (
            ExprNode::Thunk { value: v1, continuation: k1 },
            ExprNode::Thunk { value: v2, continuation: k2 },
        ) => v1 == v2 && k1 == k2,
        (ExprNode::Char(c1), ExprNode::Char(c2)) => c1 == c2,
        (ExprNode::Opaque, ExprNode::Opaque) => true,
        _ => false,
    }
}

impl Store {
    /// Children of a node are valid indices.
    pub open spec fn node_wf(self, n: ExprNode) -> bool {
        match n {
            ExprNode::Cons(a, b) => a.idx < self.exprs@.len() && b.idx < self.exprs@.len(),
            ExprNode::Comm(_, p) => p.idx < self.exprs@.len(),
            ExprNode::Fun { arg, body, closed_env } => arg.idx < self.exprs@.len() && body.idx
                < self.exprs@.len() && closed_env.idx < self.exprs@.len(),
            ExprNode::Thunk { value, continuation } => value.idx < self.exprs@.len()
                && continuation.idx < self.conts@.len(),
            _ => true,
        }
    }

    /// The tag a node's address must carry.
    pub open spec fn addr_tag_ok(n: ExprNode, t: F) -> bool {
        match n {
            ExprNode::Nil => t == TAG_NIL,
            ExprNode::Cons(..) => t == TAG_CONS,
            ExprNode::Comm(..) => t == TAG_COMM,
            ExprNode::Sym(..) => t == TAG_SYM,
            ExprNode::Fun { .. } => t == TAG_FUN,
            ExprNode::Num(..) => t == TAG_NUM,
            ExprNode::Str(..) => t == TAG_STR,
            ExprNode::Thunk { .. } => t == TAG_THUNK,
            ExprNode::Char(..) => t == TAG_CHAR,
            ExprNode::Opaque => true,
        }
    }

    pub open spec fn cont_addr_tag_ok(n: ContNode, t: F) -> bool {
        match n {
            ContNode::Opaque => true,
            ContNode::Known(c) => t == cont_tag(c),
        }
    }

    /// A digest already in use stays below the fresh counter, except the
    /// largest scalar, after which no fresh digest can be guaranteed unused.
    pub open spec fn digest_ok(self, d: F) -> bool {
        d < self.next_digest || d == u64::MAX
    }

    pub open spec fn wf(self) -> bool {
        &&& self.exprs@.len() == self.expr_addrs@.len()
        &&& self.conts@.len() == self.cont_addrs@.len()
        &&& forall|i: int|
            0 <= i < self.exprs@.len() ==> self.node_wf(#[trigger] self.exprs@[i])
        &&& forall|i: int|
            0 <= i < self.exprs@.len() ==> Self::addr_tag_ok(
                self.exprs@[i],
                (#[trigger] self.expr_addrs@[i]).tag,
            )
        &&& forall|i: int|
            0 <= i < self.conts@.len() ==> Self::cont_addr_tag_ok(
                self.conts@[i],
                (#[trigger] self.cont_addrs@[i]).tag,
            )
        &&& forall|i: int, j: int|
            0 <= i < j < self.expr_addrs@.len() ==> (#[trigger] self.expr_addrs@[i]) != (
            #[trigger] self.expr_addrs@[j])
        &&& forall|i: int, j: int|
            0 <= i < j < self.cont_addrs@.len() ==> (#[trigger] self.cont_addrs@[i]) != (
            #[trigger] self.cont_addrs@[j])
        &&& forall|i: int|
            0 <= i < self.expr_addrs@.len() ==> self.digest_ok(
                (#[trigger] self.expr_addrs@[i]).digest,
            )
        &&& forall|i: int|
            0 <= i < self.cont_addrs@.len() ==> self.digest_ok(
                (#[trigger] self.cont_addrs@[i]).digest,
            )
    }

    /// A fresh digest can still be assigned.
    pub open spec fn fresh_ok(self) -> bool {
        self.next_digest < u64::MAX
    }

    pub open spec fn has_node(self, n: ExprNode) -> bool {
        exists|i: int| 0 <= i < self.exprs@.len() && node_key_eq(#[trigger] self.exprs@[i], n)
    }

    pub open spec fn knows_expr(self, a: ScalarPtr) -> bool {
        exists|i: int| 0 <= i < self.expr_addrs@.len() && (#[trigger] self.expr_addrs@[i]) == a
    }

    pub open spec fn expr_index_of(self, a: ScalarPtr) -> int {
        choose|i: int| 0 <= i < self.expr_addrs@.len() && (#[trigger] self.expr_addrs@[i]) == a
    }

    pub open spec fn knows_cont(self, a: ScalarContPtr) -> bool {
        exists|i: int| 0 <= i < self.cont_addrs@.len() && (#[trigger] self.cont_addrs@[i]) == a
    }

    /// The payload the node at index `i` materializes to, built from its
    /// children's content addresses; `None` when the preimage is withheld.
    pub open spec fn payload_model_at(self, i: int) -> Option<ExprModel> {
        match self.exprs@[i] {
            ExprNode::Nil => Some(ExprModel::Nil),
            ExprNode::Cons(a, b) => Some(
                ExprModel::Cons(self.expr_addrs@[a.idx as int], self.expr_addrs@[b.idx as int]),
            ),
            ExprNode::Comm(s, p) => Some(ExprModel::Comm(s, self.expr_addrs@[p.idx as int])),
            ExprNode::Sym(s) => Some(ExprModel::Sym(s@)),
            ExprNode::Fun { arg, body, closed_env } => Some(
                ExprModel::Fun {
                    arg: self.expr_addrs@[arg.idx as int],
                    body: self.expr_addrs@[body.idx as int],
                    closed_env: self.expr_addrs@[closed_env.idx as int],
                },
            ),
            ExprNode::Num(x) => Some(ExprModel::Num(x)),
            ExprNode::Str(s) => Some(ExprModel::Str(s@)),
            ExprNode::Thunk { value, continuation } => Some(
                ExprModel::Thunk(
                    ScalarThunk {
                        value: self.expr_addrs@[value.idx as int],
                        continuation: self.cont_addrs@[continuation.idx as int],
                    },
                ),
            ),
            ExprNode::Char(c) => Some(ExprModel::Char(c)),
            ExprNode::Opaque => None,
        }
    }

    /// The store holds no live thunk node.  Materializing a thunk is an
    /// unimplemented gap: the expression-only traversal has no way to enqueue
    /// its continuation child, so rather than emit a payload whose sub-graph
    /// it cannot close, materialization excludes such stores outright.
    pub open spec fn no_live_thunks(self) -> bool {
        forall|i: int| 0 <= i < self.exprs@.len() ==> !((#[trigger] self.exprs@[i]) is Thunk)
    }

    /// Some symbol node holds exactly the characters `s`.
    pub open spec fn has_sym(self, s: Seq<char>) -> bool {
        exists|i: int|
            0 <= i < self.exprs@.len() && (#[trigger] self.exprs@[i]) is Sym
                && self.exprs@[i]->Sym_0@ == s
    }

    /// Some string node holds exactly the characters `s`.
    pub open spec fn has_str(self, s: Seq<char>) -> bool {
        exists|i: int|
            0 <= i < self.exprs@.len() && (#[trigger] self.exprs@[i]) is Str
                && self.exprs@[i]->Str_0@ == s
    }

    /// What materializing the address `a` against this store yields: the
    /// payload of the node carrying `a`, or opacity when the store does not
    /// know the address.
    pub open spec fn expected_payload(self, a: ScalarPtr) -> Option<ExprModel> {
        if self.knows_expr(a) {
            self.payload_model_at(self.expr_index_of(a))
        } else {
            None
        }
    }

    /// The set of expression addresses the store knows.
    pub open spec fn expr_addr_set(self) -> Set<ScalarPtr> {
        self.expr_addrs@.to_set()
    }

    /// `a` is a child of what `b` materializes to.
    pub open spec fn reach_step(self, b: ScalarPtr, a: ScalarPtr) -> bool {
        match self.expected_payload(b) {
            Some(m) => expr_children(m).contains(a),
            None => false,
        }
    }

    /// `a` is reachable from `root` through materialized payloads in at most
    /// `n` steps.
    pub open spec fn reaches_n(self, root: ScalarPtr, a: ScalarPtr, n: nat) -> bool
        decreases n,
    {
        if n == 0 {
            a == root
        } else {
            a == root || exists|b: ScalarPtr|
                self.reaches_n(root, b, (n - 1) as nat) && #[trigger] self.reach_step(b, a)
        }
    }

    pub open spec fn reachable(self, root: ScalarPtr, a: ScalarPtr) -> bool {
        exists|n: nat| self.reaches_n(root, a, n)
    }

    /// The reachable closure of a root address.
    pub open spec fn reach_set(self, root: ScalarPtr) -> Set<ScalarPtr> {
        Set::new(|a: ScalarPtr| self.reachable(root, a))
    }

    pub fn new() -> (s: Store)
        ensures
            s.wf(),
            s.exprs@.len() == 0,
            s.conts@.len() == 0,
            s.next_digest == 0,
    {
        Store {
            exprs: Vec::new(),
            expr_addrs: Vec::new(),
            conts: Vec::new(),
            cont_addrs: Vec::new(),
            next_digest: 0,
        }
    }

    /// Exec counterpart of [`node_key_eq`].
    fn node_eq(x: &ExprNode, y: &ExprNode) -> (r: bool)
        ensures
            r == node_key_eq(*x, *y),
    {
        match (x, y) {
            (ExprNode::Nil, ExprNode::Nil) => true,
            (ExprNode::Cons(a1, b1), ExprNode::Cons(a2, b2)) => a1 == a2 && b1 == b2,
            (ExprNode::Comm(s1, p1), ExprNode::Comm(s2, p2)) => s1 == s2 && p1 == p2,
            (ExprNode::Sym(s1), ExprNode::Sym(s2)) => *s1 == *s2,
            (
                ExprNode::Fun { arg: a1, body: b1, closed_env: e1 },
                ExprNode::Fun { arg: a2, body: b2, closed_env: e2 },
            ) => a1 == a2 && b1 == b2 && e1 == e2,
            (ExprNode::Num(x1), ExprNode::Num(x2)) => x1 == x2,
            (ExprNode::Str(s1), ExprNode::Str(s2)) => *s1 == *s2,
            (
                ExprNode::Thunk { value: v1, continuation: k1 },
                ExprNode::Thunk { value: v2, continuation: k2 },
            ) => v1 == v2 && k1 == k2,
            (ExprNode::Char(c1), ExprNode::Char(c2)) => c1 == c2,
            (ExprNode::Opaque, ExprNode::Opaque) => true,
            _ => false,
        }
    }

    /// Index of a node equal (by key equality) to `n`, if any.
    fn find_node(&self, n: &ExprNode) -> (r: Option<usize>)
        ensures
            match r {
                Some(i) => i < self.exprs@.len() && node_key_eq(self.exprs@[i as int], *n),
                None => !self.has_node(*n),
            },
    {
        let mut i: usize = 0;
        while i < self.exprs.len()
            invariant
                0 <= i <= self.exprs@.len(),
                forall|j: int| 0 <= j < i ==> !node_key_eq(#[trigger] self.exprs@[j], *n),
            decreases self.exprs@.len() - i,
        {
            if Self::node_eq(&self.exprs[i], n) {
                return Some(i);
            }
            i = i + 1;
        }
        None
    }

    /// Interns a node that is not yet present, assigning it a fresh address.
    fn push_fresh(&mut self, n: ExprNode, tag: F) -> (r: Ptr)
        requires
            old(self).wf(),
            old(self).fresh_ok(),
            old(self).node_wf(n),
            Store::addr_tag_ok(n, tag),
            !(n is Opaque),
        ensures
            final(self).wf(),
            r.idx == old(self).exprs@.len(),
            final(self).exprs@ == old(self).exprs@.push(n),
            final(self).expr_addrs@ == old(self).expr_addrs@.push(
                ScalarPtr { tag, digest: old(self).next_digest },
            ),
            final(self).conts@ == old(self).conts@,
            final(self).cont_addrs@ == old(self).cont_addrs@,
            final(self).next_digest == old(self).next_digest + 1,
    {
        let r = Ptr { idx: self.exprs.len() };
        let a = ScalarPtr { tag, digest: self.next_digest };
        self.exprs.push(n);
        self.expr_addrs.push(a);
        self.next_digest = self.next_digest + 1;
        proof {
            assert forall|i: int, j: int|
                0 <= i < j < self.expr_addrs@.len() implies (#[trigger] self.expr_addrs@[i]) != (
            #[trigger] self.expr_addrs@[j]) by {
                if j == self.expr_addrs@.len() - 1 {
                    assert(old(self).digest_ok(self.expr_addrs@[i].digest));
                }
            }
            assert forall|i: int| 0 <= i < self.exprs@.len() implies self.node_wf(
                #[trigger] self.exprs@[i],
            ) by {
                if i < self.exprs@.len() - 1 {
                    assert(old(self).node_wf(old(self).exprs@[i]));
                }
            }
        }
        r
    }

    /// Interns a node, reusing an existing structurally equal node if one is
    /// present (hash-consing), else appending it with a fresh address.
    fn intern_node(&mut self, n: ExprNode, tag: F) -> (r: Ptr)
        requires
            old(self).wf(),
            old(self).fresh_ok(),
            old(self).node_wf(n),
            Store::addr_tag_ok(n, tag),
            !(n is Opaque),
        ensures
            final(self).wf(),
            r.idx < final(self).exprs@.len(),
            node_key_eq(final(self).exprs@[r.idx as int], n),
            old(self).has_node(n) ==> *final(self) == *old(self),
            !old(self).has_node(n) ==> {
                &&& r.idx == old(self).exprs@.len()
                &&& final(self).exprs@ == old(self).exprs@.push(n)
                &&& final(self).expr_addrs@ == old(self).expr_addrs@.push(
                    ScalarPtr { tag, digest: old(self).next_digest },
                )
                &&& final(self).next_digest == old(self).next_digest + 1
            },
            final(self).conts@ == old(self).conts@,
            final(self).cont_addrs@ == old(self).cont_addrs@,
    {
        match self.find_node(&n) {
            Some(i) => Ptr { idx: i },
            None => self.push_fresh(n, tag),
        }
    }

    pub fn intern_nil(&mut self) -> (r: Ptr)
        requires
            old(self).wf(),
            old(self).fresh_ok(),
        ensures
            final(self).wf(),
            r.idx < final(self).exprs@.len(),
            final(self).exprs@[r.idx as int] == ExprNode::Nil,
            final(self).payload_model_at(r.idx as int) == Some(ExprModel::Nil),
            old(self).has_node(ExprNode::Nil) ==> *final(self) == *old(self),
            !old(self).has_node(ExprNode::Nil) ==> r.idx == old(self).exprs@.len() && final(self).exprs@ == old(self).exprs@.push(ExprNode::Nil) && final(self).expr_addrs@ == old(self).expr_addrs@.push(ScalarPtr { tag: TAG_NIL, digest: old(self).next_digest }) && final(self).next_digest == old(self).next_digest + 1,
            final(self).conts@ == old(self).conts@,
            final(self).cont_addrs@ == old(self).cont_addrs@,
    {
        self.intern_node(ExprNode::Nil, TAG_NIL)
    }

    pub fn intern_num(&mut self, x: F) -> (r: Ptr)
        requires
            old(self).wf(),
            old(self).fresh_ok(),
        ensures
            final(self).wf(),
            r.idx < final(self).exprs@.len(),
            final(self).exprs@[r.idx as int] == ExprNode::Num(x),
            final(self).payload_model_at(r.idx as int) == Some(ExprModel::Num(x)),
            old(self).has_node(ExprNode::Num(x)) ==> *final(self) == *old(self),
            !old(self).has_node(ExprNode::Num(x)) ==> r.idx == old(self).exprs@.len() && final(self).exprs@ == old(self).exprs@.push(ExprNode::Num(x)) && final(self).expr_addrs@ == old(self).expr_addrs@.push(ScalarPtr { tag: TAG_NUM, digest: old(self).next_digest }) && final(self).next_digest == old(self).next_digest + 1,
            final(self).conts@ == old(self).conts@,
            final(self).cont_addrs@ == old(self).cont_addrs@,
    {
        self.intern_node(ExprNode::Num(x), TAG_NUM)
    }

    pub fn intern_char(&mut self, c: char) -> (r: Ptr)
        requires
            old(self).wf(),
            old(self).fresh_ok(),
        ensures
            final(self).wf(),
            r.idx < final(self).exprs@.len(),
            final(self).exprs@[r.idx as int] == ExprNode::Char(c),
            final(self).payload_model_at(r.idx as int) == Some(ExprModel::Char(c)),
            old(self).has_node(ExprNode::Char(c)) ==> *final(self) == *old(self),
            !old(self).has_node(ExprNode::Char(c)) ==> r.idx == old(self).exprs@.len() && final(self).exprs@ == old(self).exprs@.push(ExprNode::Char(c)) && final(self).expr_addrs@ == old(self).expr_addrs@.push(ScalarPtr { tag: TAG_CHAR, digest: old(self).next_digest })
                && final(self).next_digest == old(self).next_digest + 1,
            final(self).conts@ == old(self).conts@,
            final(self).cont_addrs@ == old(self).cont_addrs@,
    {
        self.intern_node(ExprNode::Char(c), TAG_CHAR)
    }

    pub fn intern_sym(&mut self, name: &str) -> (r: Ptr)
        requires
            old(self).wf(),
            old(self).fresh_ok(),
        ensures
            final(self).wf(),
            r.idx < final(self).exprs@.len(),
            final(self).exprs@[r.idx as int] is Sym,
            final(self).payload_model_at(r.idx as int) == Some(ExprModel::Sym(name@)),
            old(self).has_sym(name@) ==> *final(self) == *old(self),
            !old(self).has_sym(name@) ==> r.idx == old(self).exprs@.len() && final(self).exprs@.len() == old(self).exprs@.len() + 1 && (forall|j: int|
                0 <= j < old(self).exprs@.len() ==> final(self).exprs@[j] == old(self).exprs@[j])
                && final(self).expr_addrs@ == old(self).expr_addrs@.push(
                ScalarPtr { tag: TAG_SYM, digest: old(self).next_digest },
            ) && final(self).next_digest == old(self).next_digest + 1,
            final(self).conts@ == old(self).conts@,
            final(self).cont_addrs@ == old(self).cont_addrs@,
    {
        let n = ExprNode::Sym(name.to_owned());
        proof {
            assert forall|i: int|
                0 <= i < self.exprs@.len() implies (node_key_eq(#[trigger] self.exprs@[i], n)
                <==> (self.exprs@[i] is Sym && self.exprs@[i]->Sym_0@ == name@)) by {}
        }
        self.intern_node(n, TAG_SYM)
    }

    pub fn intern_str(&mut self, sval: &str) -> (r: Ptr)
        requires
            old(self).wf(),
            old(self).fresh_ok(),
        ensures
            final(self).wf(),
            r.idx < final(self).exprs@.len(),
            final(self).exprs@[r.idx as int] is Str,
            final(self).payload_model_at(r.idx as int) == Some(ExprModel::Str(sval@)),
            old(self).has_str(sval@) ==> *final(self) == *old(self),
            !old(self).has_str(sval@) ==> r.idx == old(self).exprs@.len() && final(self).exprs@.len() == old(self).exprs@.len() + 1 && (forall|j: int|
                0 <= j < old(self).exprs@.len() ==> final(self).exprs@[j] == old(self).exprs@[j])
                && final(self).expr_addrs@ == old(self).expr_addrs@.push(
                ScalarPtr { tag: TAG_STR, digest: old(self).next_digest },
            ) && final(self).next_digest == old(self).next_digest + 1,
            final(self).conts@ == old(self).conts@,
            final(self).cont_addrs@ == old(self).cont_addrs@,
    {
        let n = ExprNode::Str(sval.to_owned());
        proof {
            assert forall|i: int|
                0 <= i < self.exprs@.len() implies (node_key_eq(#[trigger] self.exprs@[i], n)
                <==> (self.exprs@[i] is Str && self.exprs@[i]->Str_0@ == sval@)) by {}
        }
        self.intern_node(n, TAG_STR)
    }

    pub fn intern_cons(&mut self, car: Ptr, cdr: Ptr) -> (r: Ptr)
        requires
            old(self).wf(),
            old(self).fresh_ok(),
            car.idx < old(self).exprs@.len(),
            cdr.idx < old(self).exprs@.len(),
        ensures
            final(self).wf(),
            r.idx < final(self).exprs@.len(),
            final(self).exprs@[r.idx as int] == ExprNode::Cons(car, cdr),
            old(self).has_node(ExprNode::Cons(car, cdr)) ==> *final(self) == *old(self),
            !old(self).has_node(ExprNode::Cons(car, cdr)) ==> r.idx == old(self).exprs@.len()
                && final(self).exprs@ == old(self).exprs@.push(ExprNode::Cons(car, cdr)) && final(self).expr_addrs@ == old(self).expr_addrs@.push(
                ScalarPtr { tag: TAG_CONS, digest: old(self).next_digest },
            ) && final(self).next_digest == old(self).next_digest + 1,
            final(self).conts@ == old(self).conts@,
            final(self).cont_addrs@ == old(self).cont_addrs@,
    {
        self.intern_node(ExprNode::Cons(car, cdr), TAG_CONS)
    }

    pub fn intern_fun(&mut self, arg: Ptr, body: Ptr, closed_env: Ptr) -> (r: Ptr)
        requires
            old(self).wf(),
            old(self).fresh_ok(),
            arg.idx < old(self).exprs@.len(),
            body.idx < old(self).exprs@.len(),
            closed_env.idx < old(self).exprs@.len(),
        ensures
            final(self).wf(),
            r.idx < final(self).exprs@.len(),
            final(self).exprs@[r.idx as int] == (ExprNode::Fun { arg, body, closed_env }),
            old(self).has_node(ExprNode::Fun { arg, body, closed_env }) ==> *final(self) == *old(self),
            !old(self).has_node(ExprNode::Fun { arg, body, closed_env }) ==> r.idx == old(self).exprs@.len() && final(self).exprs@ == old(self).exprs@.push(
                ExprNode::Fun { arg, body, closed_env },
            ) && final(self).expr_addrs@ == old(self).expr_addrs@.push(
                ScalarPtr { tag: TAG_FUN, digest: old(self).next_digest },
            ) && final(self).next_digest == old(self).next_digest + 1,
            final(self).conts@ == old(self).conts@,
            final(self).cont_addrs@ == old(self).cont_addrs@,
    {
        self.intern_node(ExprNode::Fun { arg, body, closed_env }, TAG_FUN)
    }

    pub fn intern_comm(&mut self, secret: F, payload: Ptr) -> (r: Ptr)
        requires
            old(self).wf(),
            old(self).fresh_ok(),
            payload.idx < old(self).exprs@.len(),
        ensures
            final(self).wf(),
            r.idx < final(self).exprs@.len(),
            final(self).exprs@[r.idx as int] == ExprNode::Comm(secret, payload),
            old(self).has_node(ExprNode::Comm(secret, payload)) ==> *final(self) == *old(self),
            !old(self).has_node(ExprNode::Comm(secret, payload)) ==> r.idx == old(self).exprs@.len() && final(self).exprs@ == old(self).exprs@.push(
                ExprNode::Comm(secret, payload),
            ) && final(self).expr_addrs@ == old(self).expr_addrs@.push(
                ScalarPtr { tag: TAG_COMM, digest: old(self).next_digest },
            ) && final(self).next_digest == old(self).next_digest + 1,
            final(self).conts@ == old(self).conts@,
            final(self).cont_addrs@ == old(self).cont_addrs@,
    {
        self.intern_node(ExprNode::Comm(secret, payload), TAG_COMM)
    }

    /// The content address of a live pointer; total for valid pointers.
    pub fn get_expr_hash(&self, e: &Ptr) -> (r: Option<ScalarPtr>)
        ensures
            r == if e.idx < self.expr_addrs@.len() {
                Some(self.expr_addrs@[e.idx as int])
            } else {
                Option::<ScalarPtr>::None
            },
    {
        if e.idx < self.expr_addrs.len() {
            Some(self.expr_addrs[e.idx])
        } else {
            None
        }
    }

    /// Alias of [`Store::get_expr_hash`] under the host store's public name.
    pub fn hash_expr(&self, e: &Ptr) -> (r: Option<ScalarPtr>)
        ensures
            r == if e.idx < self.expr_addrs@.len() {
                Some(self.expr_addrs@[e.idx as int])
            } else {
                Option::<ScalarPtr>::None
            },
    {
        self.get_expr_hash(e)
    }

    /// The live pointer carrying a content address, if the store knows it.
    pub fn ptr_for_addr(&self, a: &ScalarPtr) -> (r: Option<Ptr>)
        requires
            self.wf(),
        ensures
            r is Some <==> self.knows_expr(*a),
            match r {
                Some(p) => p.idx < self.exprs@.len() && self.expr_addrs@[p.idx as int] == *a
                    && self.expr_index_of(*a) == p.idx,
                None => true,
            },
    {
        let mut i: usize = 0;
        while i < self.expr_addrs.len()
            invariant
                self.wf(),
                0 <= i <= self.expr_addrs@.len(),
                forall|j: int| 0 <= j < i ==> (#[trigger] self.expr_addrs@[j]) != *a,
            decreases self.expr_addrs@.len() - i,
        {
            if self.expr_addrs[i].tag == a.tag && self.expr_addrs[i].digest == a.digest {
                proof {
                    assert(self.expr_addrs@[i as int] == *a);
                    assert forall|k: int|
                        0 <= k < self.expr_addrs@.len() && self.expr_addrs@[k] == *a implies k
                        == i by {
                        if k != i {
                            assert(self.expr_addrs@[k] != self.expr_addrs@[i as int]);
                        }
                    }
                }
                return Some(Ptr { idx: i });
            }
            i = i + 1;
        }
        None
    }

    fn bump_digest(&mut self, d: F)
        ensures
            final(self).next_digest >= old(self).next_digest,
            final(self).next_digest > d || d == u64::MAX,
            final(self).exprs@ == old(self).exprs@,
            final(self).expr_addrs@ == old(self).expr_addrs@,
            final(self).conts@ == old(self).conts@,
            final(self).cont_addrs@ == old(self).cont_addrs@,
    {
        if d >= self.next_digest && d < u64::MAX {
            self.next_digest = d + 1;
        }
    }

    /// Interns the expression address `a` as an opaque node, unless a node
    /// (opaque or not) already carries `a`, in which case that node is
    /// returned: a non-opaque witness interned earlier keeps its preimage.
    pub fn intern_opaque_expr(&mut self, a: ScalarPtr) -> (r: Ptr)
        requires
            old(self).wf(),
        ensures
            final(self).wf(),
            r.idx < final(self).exprs@.len(),
            final(self).expr_addrs@[r.idx as int] == a,
            final(self).knows_expr(a),
            old(self).knows_expr(a) ==> *final(self) == *old(self),
            !old(self).knows_expr(a) ==> {
                &&& final(self).exprs@ == old(self).exprs@.push(ExprNode::Opaque)
                &&& final(self).expr_addrs@ == old(self).expr_addrs@.push(a)
                &&& final(self).payload_model_at(r.idx as int) == Option::<ExprModel>::None
            },
            final(self).conts@ == old(self).conts@,
            final(self).cont_addrs@ == old(self).cont_addrs@,
            final(self).exprs@.len() <= old(self).exprs@.len() + 1,
    {
        match self.ptr_for_addr(&a) {
            Some(p) => p,
            None => {
                let r = Ptr { idx: self.exprs.len() };
                self.exprs.push(ExprNode::Opaque);
                self.expr_addrs.push(a);
                self.bump_digest(a.digest);
                proof {
                    assert(self.expr_addrs@[r.idx as int] == a);
                    assert(self.knows_expr(a));
                    assert forall|i: int, j: int|
                        0 <= i < j < self.expr_addrs@.len() implies (
                    #[trigger] self.expr_addrs@[i]) != (#[trigger] self.expr_addrs@[j]) by {
                        if j == self.expr_addrs@.len() - 1 {
                            assert(old(self).expr_addrs@[i] == self.expr_addrs@[i]);
                        }
                    }
                    assert forall|i: int| 0 <= i < self.exprs@.len() implies self.node_wf(
                        #[trigger] self.exprs@[i],
                    ) by {
                        if i < self.exprs@.len() - 1 {
                            assert(old(self).node_wf(old(self).exprs@[i]));
                        }
                    }
                    assert forall|i: int|
                        0 <= i < self.expr_addrs@.len() implies self.digest_ok(
                        (#[trigger] self.expr_addrs@[i]).digest,
                    ) by {
                        if i < self.expr_addrs@.len() - 1 {
                            assert(old(self).digest_ok(old(self).expr_addrs@[i].digest));
                        }
                    }
                    assert forall|i: int|
                        0 <= i < self.cont_addrs@.len() implies self.digest_ok(
                        (#[trigger] self.cont_addrs@[i]).digest,
                    ) by {
                        assert(old(self).digest_ok(old(self).cont_addrs@[i].digest));
                    }
                }
                r
            },
        }
    }

    /// Interns an address whose digest is known but whose preimage may not
    /// be: returns the already-interned node when one carries the address.
    pub fn intern_maybe_opaque_cons(&mut self, digest: F) -> (r: Ptr)
        requires
            old(self).wf(),
        ensures
            final(self).wf(),
            r.idx < final(self).exprs@.len(),
            final(self).expr_addrs@[r.idx as int] == (ScalarPtr { tag: TAG_CONS, digest }),
            final(self).knows_expr(ScalarPtr { tag: TAG_CONS, digest }),
            old(self).knows_expr(ScalarPtr { tag: TAG_CONS, digest }) ==> *final(self)
                == *old(self),
            !old(self).knows_expr(ScalarPtr { tag: TAG_CONS, digest }) ==> final(self).exprs@ == old(self).exprs@.push(ExprNode::Opaque) && final(self).expr_addrs@ == old(self).expr_addrs@.push(ScalarPtr { tag: TAG_CONS, digest }) && final(self).payload_model_at(r.idx as int) is None,
            final(self).conts@ == old(self).conts@,
            final(self).cont_addrs@ == old(self).cont_addrs@,
    {
        self.intern_opaque_expr(ScalarPtr { tag: TAG_CONS, digest })
    }

    pub fn intern_maybe_opaque_fun(&mut self, digest: F) -> (r: Ptr)
        requires
            old(self).wf(),
        ensures
            final(self).wf(),
            r.idx < final(self).exprs@.len(),
            final(self).expr_addrs@[r.idx as int] == (ScalarPtr { tag: TAG_FUN, digest }),
            final(self).knows_expr(ScalarPtr { tag: TAG_FUN, digest }),
            old(self).knows_expr(ScalarPtr { tag: TAG_FUN, digest }) ==> *final(self)
                == *old(self),
            !old(self).knows_expr(ScalarPtr { tag: TAG_FUN, digest }) ==> final(self).exprs@ == old(self).exprs@.push(ExprNode::Opaque) && final(self).expr_addrs@ == old(self).expr_addrs@.push(ScalarPtr { tag: TAG_FUN, digest }) && final(self).payload_model_at(r.idx as int) is None,
            final(self).conts@ == old(self).conts@,
            final(self).cont_addrs@ == old(self).cont_addrs@,
    {
        self.intern_opaque_expr(ScalarPtr { tag: TAG_FUN, digest })
    }

    pub fn intern_maybe_opaque_sym(&mut self, digest: F) -> (r: Ptr)
        requires
            old(self).wf(),
        ensures
            final(self).wf(),
            r.idx < final(self).exprs@.len(),
            final(self).expr_addrs@[r.idx as int] == (ScalarPtr { tag: TAG_SYM, digest }),
            final(self).knows_expr(ScalarPtr { tag: TAG_SYM, digest }),
            old(self).knows_expr(ScalarPtr { tag: TAG_SYM, digest }) ==> *final(self)
                == *old(self),
            !old(self).knows_expr(ScalarPtr { tag: TAG_SYM, digest }) ==> final(self).exprs@ == old(self).exprs@.push(ExprNode::Opaque) && final(self).expr_addrs@ == old(self).expr_addrs@.push(ScalarPtr { tag: TAG_SYM, digest }) && final(self).payload_model_at(r.idx as int) is None,
            final(self).conts@ == old(self).conts@,
            final(self).cont_addrs@ == old(self).cont_addrs@,
    {
        self.intern_opaque_expr(ScalarPtr { tag: TAG_SYM, digest })
    }

    pub fn intern_maybe_opaque_comm(&mut self, digest: F) -> (r: Ptr)
        requires
            old(self).wf(),
        ensures
            final(self).wf(),
            r.idx < final(self).exprs@.len(),
            final(self).expr_addrs@[r.idx as int] == (ScalarPtr { tag: TAG_COMM, digest }),
            final(self).knows_expr(ScalarPtr { tag: TAG_COMM, digest }),
            old(self).knows_expr(ScalarPtr { tag: TAG_COMM, digest }) ==> *final(self)
                == *old(self),
            !old(self).knows_expr(ScalarPtr { tag: TAG_COMM, digest }) ==> final(self).exprs@ == old(self).exprs@.push(ExprNode::Opaque) && final(self).expr_addrs@ == old(self).expr_addrs@.push(ScalarPtr { tag: TAG_COMM, digest }) && final(self).payload_model_at(r.idx as int) is None,
            final(self).conts@ == old(self).conts@,
            final(self).cont_addrs@ == old(self).cont_addrs@,
    {
        self.intern_opaque_expr(ScalarPtr { tag: TAG_COMM, digest })
    }

    /// Replaces an opaque expression node by its discovered preimage.
    pub fn resolve_expr(&mut self, p: Ptr, n: ExprNode)
        requires
            old(self).wf(),
            p.idx < old(self).exprs@.len(),
            old(self).exprs@[p.idx as int] is Opaque,
            old(self).node_wf(n),
            Store::addr_tag_ok(n, old(self).expr_addrs@[p.idx as int].tag),
        ensures
            final(self).wf(),
            final(self).exprs@ == old(self).exprs@.update(p.idx as int, n),
            final(self).expr_addrs@ == old(self).expr_addrs@,
            final(self).conts@ == old(self).conts@,
            final(self).cont_addrs@ == old(self).cont_addrs@,
            final(self).next_digest == old(self).next_digest,
    {
        self.exprs.set(p.idx, n);
        proof {
            assert forall|i: int| 0 <= i < self.exprs@.len() implies self.node_wf(
                #[trigger] self.exprs@[i],
            ) by {
                if i != p.idx {
                    assert(old(self).node_wf(old(self).exprs@[i]));
                }
            }
        }
    }

    /// Interns the continuation address `a` as an opaque node, unless a node
    /// already carries `a`.
    pub fn intern_opaque_cont(&mut self, a: ScalarContPtr) -> (r: ContPtr)
        requires
            old(self).wf(),
        ensures
            final(self).wf(),
            r.idx < final(self).conts@.len(),
            final(self).cont_addrs@[r.idx as int] == a,
            final(self).knows_cont(a),
            old(self).knows_cont(a) ==> *final(self) == *old(self),
            !old(self).knows_cont(a) ==> final(self).conts@ == old(self).conts@.push(
                ContNode::Opaque,
            ) && final(self).cont_addrs@ == old(self).cont_addrs@.push(a),
            final(self).exprs@ == old(self).exprs@,
            final(self).expr_addrs@ == old(self).expr_addrs@,
    {
        let mut i: usize = 0;
        while i < self.cont_addrs.len()
            invariant
                self.wf(),
                0 <= i <= self.cont_addrs@.len(),
                forall|j: int| 0 <= j < i ==> (#[trigger] self.cont_addrs@[j]) != a,
            decreases self.cont_addrs@.len() - i,
        {
            if self.cont_addrs[i].tag == a.tag && self.cont_addrs[i].digest == a.digest {
                return ContPtr { idx: i };
            }
            i = i + 1;
        }
        let r = ContPtr { idx: self.conts.len() };
        self.conts.push(ContNode::Opaque);
        self.cont_addrs.push(a);
        self.bump_digest(a.digest);
        proof {
            assert forall|i: int, j: int|
                0 <= i < j < self.cont_addrs@.len() implies (#[trigger] self.cont_addrs@[i]) != (
            #[trigger] self.cont_addrs@[j]) by {
                if j == self.cont_addrs@.len() - 1 {
                    assert(old(self).cont_addrs@[i] == self.cont_addrs@[i]);
                }
            }
            assert forall|i: int| 0 <= i < self.exprs@.len() implies self.node_wf(
                #[trigger] self.exprs@[i],
            ) by {
                assert(old(self).node_wf(old(self).exprs@[i]));
            }
            assert forall|i: int|
                0 <= i < self.expr_addrs@.len() implies self.digest_ok(
                (#[trigger] self.expr_addrs@[i]).digest,
            ) by {
                assert(old(self).digest_ok(old(self).expr_addrs@[i].digest));
            }
            assert forall|i: int|
                0 <= i < self.cont_addrs@.len() implies self.digest_ok(
                (#[trigger] self.cont_addrs@[i]).digest,
            ) by {
                if i < self.cont_addrs@.len() - 1 {
                    assert(old(self).digest_ok(old(self).cont_addrs@[i].digest));
                }
            }
        }
        r
    }

    /// Replaces an opaque continuation node by its payload.
    pub fn resolve_cont(&mut self, p: ContPtr, c: ScalarContinuation)
        requires
            old(self).wf(),
            p.idx < old(self).conts@.len(),
            old(self).conts@[p.idx as int] is Opaque,
            cont_tag(c) == old(self).cont_addrs@[p.idx as int].tag,
        ensures
            final(self).wf(),
            final(self).conts@ == old(self).conts@.update(p.idx as int, ContNode::Known(c)),
            final(self).exprs@ == old(self).exprs@,
            final(self).expr_addrs@ == old(self).expr_addrs@,
            final(self).cont_addrs@ == old(self).cont_addrs@,
    {
        self.conts.set(p.idx, ContNode::Known(c));
        proof {
            assert forall|i: int| 0 <= i < self.exprs@.len() implies self.node_wf(
                #[trigger] self.exprs@[i],
            ) by {
                assert(old(self).node_wf(old(self).exprs@[i]));
            }
        }
    }
}

impl ScalarExpression {
    /// Builds the payload of the live node at `ptr` from its children's
    /// content addresses.  Returns `None` exactly when the node's preimage
    /// is withheld (an opaque node).  Materializing a live thunk is an
    /// unimplemented gap that must fail fast, so thunk nodes are excluded.
    pub fn from_ptr(store: &Store, ptr: &Ptr) -> (r: Option<ScalarExpression>)
        requires
            store.wf(),
            ptr.idx < store.exprs@.len(),
            !(store.exprs@[ptr.idx as int] is Thunk),
        ensures
            crate::payload::opt_model(r) == store.payload_model_at(ptr.idx as int),
    {
        match &store.exprs[ptr.idx] {
            ExprNode::Nil => Some(ScalarExpression::Nil),
            ExprNode::Cons(a, b) => Some(
                ScalarExpression::Cons(store.expr_addrs[a.idx], store.expr_addrs[b.idx]),
            ),
            ExprNode::Comm(s, p) => Some(ScalarExpression::Comm(*s, store.expr_addrs[p.idx])),
            ExprNode::Sym(s) => Some(ScalarExpression::Sym(s.clone())),
            ExprNode::Fun { arg, body, closed_env } => Some(
                ScalarExpression::Fun {
                    arg: store.expr_addrs[arg.idx],
                    body: store.expr_addrs[body.idx],
                    closed_env: store.expr_addrs[closed_env.idx],
                },
            ),
            ExprNode::Num(x) => Some(ScalarExpression::Num(*x)),
            ExprNode::Str(s) => Some(ScalarExpression::Str(s.clone())),
            ExprNode::Thunk { .. } => None,
            ExprNode::Char(c) => Some(ScalarExpression::Char(*c)),
            ExprNode::Opaque => None,
        }
    }
}

} // verus!
