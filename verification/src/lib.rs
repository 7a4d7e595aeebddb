//! A reference-counted, interface-negotiated object model.
//!
//! Objects expose one function table (vtable) per supported interface
//! contract, all facets of one object share a single reference counter, and
//! callers discover further interfaces at run time by querying for a 128-bit
//! interface identifier.  Interface contracts form single-inheritance chains
//! terminating at the identity/lifetime contract, and a derived contract's
//! vtable always begins with an exact copy of its base contract's vtable, so
//! a facet may be reinterpreted as any ancestor facet without a new query.

pub mod registry;
pub mod runtime;
pub mod factory;
pub mod laws;
