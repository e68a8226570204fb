//! A content-addressed snapshot store for a graph of interpreter values.
//!
//! Live values held by a host object store are materialized into a
//! [`scalar_store::ScalarStore`]: a pair of ordered maps from content
//! addresses (tag/digest pairs of field elements) to optional payloads, where
//! an absent payload marks an opaque entry whose preimage is withheld.  The
//! snapshot can be flattened to a canonical sequence of field elements,
//! encoded to and decoded from a byte interchange form with full fidelity,
//! and rehydrated back into a host store.

pub mod codec;
pub mod payload;
pub mod ptrs;
pub mod rows;
pub mod scalar_store;
pub mod store;
