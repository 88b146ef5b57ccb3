//! Identities: what tells a mounted component from every other.
//!
//! The identity of a component is derived from where it stands in the tree
//! that declares it: every container on the way down stirs a fixed salt
//! into a running hash, and the component adds its kind and, where it has
//! one, its key. A component that is declared at the same place in the next
//! frame is thereby found again.

use std::collections::hash_map::DefaultHasher;
use std::hash::Hasher;

use vstd::bytes::{spec_u64_to_le_bytes, u64_to_le_bytes};
use vstd::prelude::*;
use vstd::std_specs::hash::DefaultHasherAdditionalSpecFns;
use vstd::string::StringSliceAdditionalSpecFns;

verus! {

/// The salt that a container stirs into the position of what it holds.
pub const CONTAINER_HASH: u64 = 0x5aa2d5349a05cde8;

/// A key that the application gives to a component, to tell it from its
/// siblings of the same kind.
#[derive(Clone, Copy, Debug, PartialEq, Eq, Hash, Structural)]
pub struct ComponentKey(pub usize);

/// The key that a text stands for: the hash of its bytes.
pub open spec fn text_key(text: Seq<u8>) -> usize {
    DefaultHasher::spec_finish(seq![text, seq![0xffu8]]) as usize
}

impl ComponentKey {
    /// The key with the given number.
    pub fn from_usize(key: usize) -> (made: Self)
        ensures
            made == ComponentKey(key),
    {
        ComponentKey(key)
    }

    /// The key that a text stands for.
    pub fn from_text(key: &str) -> (made: Self)
        ensures
            made == ComponentKey(text_key(key.spec_bytes())),
    {
        let mut hasher = DefaultHasher::new();
        hasher.write(key.as_bytes());
        let mut mark: Vec<u8> = Vec::new();
        mark.push(0xffu8);
        hasher.write(mark.as_slice());
        assert(hasher@ =~= seq![key.spec_bytes(), seq![0xffu8]]);
        let hash = hasher.finish();
        ComponentKey(
            #[verifier::truncate]
            (hash as usize),
        )
    }

    /// The number of the key.
    pub fn value(&self) -> (key: usize)
        ensures
            key == self.0,
    {
        self.0
    }
}

/// The identity of a mounted component: its kind and the hash of its place
/// in the tree.
#[derive(Clone, Copy, Debug, PartialEq, Eq, Hash, Structural)]
pub struct ComponentId {
    pub kind: u64,
    pub id: u64,
}

/// The position that a container hands down to what it holds.
pub open spec fn container_position(position: u64) -> u64 {
    DefaultHasher::spec_finish(
        seq![spec_u64_to_le_bytes(position), spec_u64_to_le_bytes(CONTAINER_HASH)],
    )
}

/// The position of a component of the given kind and key that is declared
/// at `position`.
pub open spec fn component_position(position: u64, kind: u64, key: Option<ComponentKey>) -> u64 {
    match key {
        Some(key) => DefaultHasher::spec_finish(
            seq![
                spec_u64_to_le_bytes(position),
                spec_u64_to_le_bytes(kind),
                spec_u64_to_le_bytes(key.0 as u64),
            ],
        ),
        None => DefaultHasher::spec_finish(
            seq![spec_u64_to_le_bytes(position), spec_u64_to_le_bytes(kind)],
        ),
    }
}

/// The identity of a component of the given kind and key that is declared at
/// `position`.
pub open spec fn identity(position: u64, kind: u64, key: Option<ComponentKey>) -> ComponentId {
    ComponentId { kind, id: component_position(position, kind, key) }
}

/// Computes the position that a container hands down to what it holds.
pub fn hash_container(position: u64) -> (hash: u64)
    ensures
        hash == container_position(position),
{
    let mut hasher = DefaultHasher::new();
    hasher.write(u64_to_le_bytes(position).as_slice());
    hasher.write(u64_to_le_bytes(CONTAINER_HASH).as_slice());
    assert(hasher@ =~= seq![
        spec_u64_to_le_bytes(position),
        spec_u64_to_le_bytes(CONTAINER_HASH),
    ]);
    hasher.finish()
}

impl ComponentId {
    /// Computes the identity of a component of the given kind and key that
    /// is declared at `position`.
    pub fn generate(position: u64, kind: u64, key: Option<ComponentKey>) -> (made: Self)
        ensures
            made == identity(position, kind, key),
    {
        let mut hasher = DefaultHasher::new();
        hasher.write(u64_to_le_bytes(position).as_slice());
        hasher.write(u64_to_le_bytes(kind).as_slice());
        match key {
            Some(key) => {
                hasher.write(u64_to_le_bytes(key.0 as u64).as_slice());
                assert(hasher@ =~= seq![
                    spec_u64_to_le_bytes(position),
                    spec_u64_to_le_bytes(kind),
                    spec_u64_to_le_bytes(key.0 as u64),
                ]);
            },
            None => {
                assert(hasher@ =~= seq![
                    spec_u64_to_le_bytes(position),
                    spec_u64_to_le_bytes(kind),
                ]);
            },
        }
        ComponentId { kind, id: hasher.finish() }
    }

    /// The kind of the component.
    pub fn kind(&self) -> (kind: u64)
        ensures
            kind == self.kind,
    {
        self.kind
    }

    /// The position that the component hands down to what it renders.
    pub fn position(&self) -> (position: u64)
        ensures
            position == self.id,
    {
        self.id
    }
}

impl From<usize> for ComponentKey {
    fn from(key: usize) -> (made: Self) {
        ComponentKey(key)
    }
}

impl vstd::std_specs::convert::FromSpecImpl<usize> for ComponentKey {
    open spec fn obeys_from_spec() -> bool {
        true
    }

    open spec fn from_spec(key: usize) -> Self {
        ComponentKey(key)
    }
}

impl<'a> From<&'a str> for ComponentKey {
    fn from(key: &'a str) -> (made: Self) {
        ComponentKey::from_text(key)
    }
}

impl<'a> vstd::std_specs::convert::FromSpecImpl<&'a str> for ComponentKey {
    open spec fn obeys_from_spec() -> bool {
        true
    }

    open spec fn from_spec(key: &'a str) -> Self {
        ComponentKey(text_key(key.spec_bytes()))
    }
}

} // verus!
