//! Type descriptors: stable per-type metadata used for ordering and
//! type-erased dispatch.

use vstd::prelude::*;

verus! {

/// Stable metadata for one member type of a bundle: an identity token that is
/// unique to the type within the process, the type's alignment, and a token
/// naming the type's finalizer (resolved once, at descriptor-creation time,
/// by whichever registry produced the descriptor).
///
/// Descriptors are immutable values; the provider that creates them must hand
/// out the same identity, alignment and finalizer for the same concrete type
/// for the whole life of the process.
#[derive(Clone, Copy, Debug)]
pub struct TypeDesc {
    pub identity: u64,
    pub alignment: u64,
    pub finalizer: u64,
}

impl PartialEq for TypeDesc {
    /// Two descriptors are equal exactly when their identities match.
    fn eq(&self, other: &TypeDesc) -> (r: bool)
        ensures
            r == (self.identity == other.identity),
    {
        self.identity == other.identity
    }
}

impl vstd::std_specs::cmp::PartialEqSpecImpl for TypeDesc {
    open spec fn obeys_eq_spec() -> bool {
        true
    }

    open spec fn eq_spec(&self, other: &TypeDesc) -> bool {
        self.identity == other.identity
    }
}

/// Strict precedence in the canonical order: higher alignment first, ties
/// broken by ascending identity.
pub open spec fn desc_precedes(a: TypeDesc, b: TypeDesc) -> bool {
    a.alignment > b.alignment || (a.alignment == b.alignment && a.identity < b.identity)
}

/// Non-strict form of the canonical precedence relation: `a` precedes `b`,
/// or the two sort keys coincide.
pub open spec fn desc_le(a: TypeDesc, b: TypeDesc) -> bool {
    desc_precedes(a, b) || (a.alignment == b.alignment && a.identity == b.identity)
}

/// Executable decision procedure for [`desc_le`].
pub fn desc_le_exec(a: &TypeDesc, b: &TypeDesc) -> (r: bool)
    ensures
        r == desc_le(*a, *b),
{
    a.alignment > b.alignment || (a.alignment == b.alignment && a.identity <= b.identity)
}

/// Whether some descriptor in `s` carries the identity `id`.
pub open spec fn has_id(s: Seq<TypeDesc>, id: u64) -> bool {
    exists|i: int| 0 <= i < s.len() && s[i].identity == id
}

/// Whether the descriptors in `s` carry pairwise distinct identities, i.e.
/// the member types of the aggregate are distinct.
pub open spec fn distinct_ids(s: Seq<TypeDesc>) -> bool {
    forall|i: int, j: int| 0 <= i < j < s.len() ==> s[i].identity != s[j].identity
}

} // verus!
