//! Content addresses: ordered `(tag, digest)` pairs of field elements.
//!
//! Two disjoint kinds of address exist, one for expressions and one for
//! continuations.  They share the same pair layout and ordering rule but are
//! kept as distinct nominal types so that the two can never be compared or
//! stored in the same map.  [`UPtr`] is the unified pair used when entries of
//! both kinds must be merged into a single total order.

use vstd::prelude::*;

verus! {

/// The field element type supplied by the field arithmetic provider.  The
/// snapshot core never performs field arithmetic: it only stores, orders and
/// transports field elements, so they are modelled as 64-bit scalars whose
/// canonical byte encoding is their big-endian representation.
pub type F = u64;

/// Strict total order on `(tag, digest)` pairs: lexicographic by tag, then
/// digest.  Because a field element's canonical encoding is its big-endian
/// byte string, this coincides with the lexicographic order on the
/// concatenated canonical encodings of the two components.
pub open spec fn pair_lt(t1: F, d1: F, t2: F, d2: F) -> bool {
    t1 < t2 || (t1 == t2 && d1 < d2)
}

/// A content address for an expression value.
#[derive(Debug, Clone, Copy, PartialEq, Eq, Hash, PartialOrd, Ord, Structural)]
pub struct ScalarPtr {
    pub tag: F,
    pub digest: F,
}

/// A content address for a continuation.
#[derive(Debug, Clone, Copy, PartialEq, Eq, Hash, PartialOrd, Ord, Structural)]
pub struct ScalarContPtr {
    pub tag: F,
    pub digest: F,
}

impl ScalarPtr {
    pub open spec fn spec_lt(self, other: Self) -> bool {
        pair_lt(self.tag, self.digest, other.tag, other.digest)
    }

    pub fn from_parts(tag: F, digest: F) -> (r: Self)
        ensures
            r == (ScalarPtr { tag, digest }),
    {
        ScalarPtr { tag, digest }
    }

    pub fn tag(&self) -> (r: &F)
        ensures
            *r == self.tag,
    {
        &self.tag
    }

    pub fn value(&self) -> (r: &F)
        ensures
            *r == self.digest,
    {
        &self.digest
    }

    /// Exec counterpart of [`ScalarPtr::spec_lt`].
    pub fn lt(&self, other: &Self) -> (r: bool)
        ensures
            r == self.spec_lt(*other),
    {
        self.tag < other.tag || (self.tag == other.tag && self.digest < other.digest)
    }
}

impl ScalarContPtr {
    pub open spec fn spec_lt(self, other: Self) -> bool {
        pair_lt(self.tag, self.digest, other.tag, other.digest)
    }

    pub fn from_parts(tag: F, digest: F) -> (r: Self)
        ensures
            r == (ScalarContPtr { tag, digest }),
    {
        ScalarContPtr { tag, digest }
    }

    pub fn tag(&self) -> (r: &F)
        ensures
            *r == self.tag,
    {
        &self.tag
    }

    pub fn value(&self) -> (r: &F)
        ensures
            *r == self.digest,
    {
        &self.digest
    }

    /// Exec counterpart of [`ScalarContPtr::spec_lt`].
    pub fn lt(&self, other: &Self) -> (r: bool)
        ensures
            r == self.spec_lt(*other),
    {
        self.tag < other.tag || (self.tag == other.tag && self.digest < other.digest)
    }
}

/// The unified `(tag, digest)` pair: both kinds of content address map into
/// it when the two ordered maps of a snapshot are merged into one totally
/// ordered sequence.  Ordering and hashing are derived from the canonical
/// encoding of the two components, so the merge order is stable across field
/// implementations.
#[derive(Debug, Clone, Copy, PartialEq, Eq, Hash, PartialOrd, Ord, Structural)]
pub struct UPtr(pub F, pub F);

impl UPtr {
    pub open spec fn spec_lt(self, other: Self) -> bool {
        pair_lt(self.0, self.1, other.0, other.1)
    }

    pub fn from_parts(tag: F, value: F) -> (r: Self)
        ensures
            r == UPtr(tag, value),
    {
        UPtr(tag, value)
    }

    pub fn tag(&self) -> (r: &F)
        ensures
            *r == self.0,
    {
        &self.0
    }

    pub fn value(&self) -> (r: &F)
        ensures
            *r == self.1,
    {
        &self.1
    }

    /// Exec counterpart of [`UPtr::spec_lt`].
    pub fn lt(&self, other: &Self) -> (r: bool)
        ensures
            r == self.spec_lt(*other),
    {
        self.0 < other.0 || (self.0 == other.0 && self.1 < other.1)
    }
}

impl From<ScalarPtr> for UPtr {
    fn from(x: ScalarPtr) -> (r: Self) {
        UPtr(x.tag, x.digest)
    }
}

impl vstd::std_specs::convert::FromSpecImpl<ScalarPtr> for UPtr {
    open spec fn obeys_from_spec() -> bool {
        true
    }

    open spec fn from_spec(x: ScalarPtr) -> Self {
        UPtr(x.tag, x.digest)
    }
}

impl From<ScalarContPtr> for UPtr {
    fn from(x: ScalarContPtr) -> (r: Self) {
        UPtr(x.tag, x.digest)
    }
}

impl vstd::std_specs::convert::FromSpecImpl<ScalarContPtr> for UPtr {
    open spec fn obeys_from_spec() -> bool {
        true
    }

    open spec fn from_spec(x: ScalarContPtr) -> Self {
        UPtr(x.tag, x.digest)
    }
}

/// Tag value of an expression address for each payload variant.
pub const TAG_NIL: F = 0;

pub const TAG_CONS: F = 1;

pub const TAG_SYM: F = 2;

pub const TAG_FUN: F = 3;

pub const TAG_NUM: F = 4;

pub const TAG_THUNK: F = 5;

pub const TAG_STR: F = 6;

pub const TAG_CHAR: F = 7;

pub const TAG_COMM: F = 8;

/// Tag values of continuation addresses occupy a disjoint range so that the
/// merged order of a snapshot never confuses the two kinds.
pub const TAG_OUTERMOST: F = 4096;

pub const TAG_CALL: F = 4097;

pub const TAG_CALL2: F = 4098;

pub const TAG_TAIL: F = 4099;

pub const TAG_ERROR: F = 4100;

pub const TAG_LOOKUP: F = 4101;

pub const TAG_UNOP: F = 4102;

pub const TAG_BINOP: F = 4103;

pub const TAG_BINOP2: F = 4104;

pub const TAG_RELOP: F = 4105;

pub const TAG_RELOP2: F = 4106;

pub const TAG_IF: F = 4107;

pub const TAG_LET: F = 4108;

pub const TAG_LETREC: F = 4109;

pub const TAG_EMIT: F = 4110;

pub const TAG_DUMMY: F = 4111;

pub const TAG_TERMINAL: F = 4112;

} // verus!
