//! Bundle definitions: the definition-time gate that admits an aggregate
//! into the protocol, and the per-definition canonical-order cache.
//!
//! Only record-like aggregates with pairwise distinct member types are
//! accepted; a tagged or untagged union, or a duplicate member type, is
//! rejected here, at definition time, so the transfer operations never see
//! such a shape.

use vstd::prelude::*;

use crate::descriptor::{distinct_ids, TypeDesc};
use crate::order::{canonical_order, canonical_spec, copy_descs};

verus! {

/// The shape a would-be bundle declaration presents: a record (named or
/// positional fields, possibly none), or one of the unsupported shapes.
#[derive(Clone, Copy, Debug, PartialEq, Eq, Structural)]
pub enum ShapeKind {
    Record,
    TaggedUnion,
    UntaggedUnion,
}

/// The definition-time error: the only errors this protocol ever raises
/// besides the missing-component fault of composition.
#[derive(Clone, Copy, Debug, PartialEq, Eq, Structural)]
pub enum DefineError {
    /// The declaration is not a record-like aggregate.
    UnsupportedShape,
    /// Two members share one member type; duplicates are rejected at
    /// definition time rather than given first- or last-match meaning.
    DuplicateMemberType,
}

/// An accepted bundle definition: the member descriptors in declaration
/// order, whether the aggregate still has open type parameters, a grouping
/// key for the definition itself, and the canonical-order cache.
#[derive(Debug)]
pub struct BundleDef {
    /// Member type descriptors, in declaration order.
    pub members: Vec<TypeDesc>,
    /// Whether the aggregate has open (generic) type parameters. An open
    /// definition's canonical order is recomputed on every request and never
    /// cached, since each instantiation has its own member-type set.
    pub open_params: bool,
    /// Identity token for the bundle type itself, used as the grouping key
    /// of closed definitions.
    pub bundle_identity: u64,
    /// Write-once cache for the canonical order of a closed definition.
    pub cached: Option<Vec<TypeDesc>>,
}

impl BundleDef {
    /// Well-formedness: member types are distinct, and the cache, once
    /// initialized, holds exactly the canonical order of the members (and
    /// exists only for closed definitions).
    pub open spec fn wf(self) -> bool {
        &&& distinct_ids(self.members@)
        &&& (self.cached is Some ==> !self.open_params && self.cached->0@ == canonical_spec(
            self.members@,
        ))
    }

    /// The process-wide grouping key: present exactly when the definition is
    /// closed (no open type parameters), so the storage engine can recognize
    /// the same bundle type again without recomputing its layout.
    pub fn key(&self) -> (r: Option<u64>)
        ensures
            r is Some <==> !self.open_params,
            r is Some ==> r->0 == self.bundle_identity,
    {
        if self.open_params {
            None
        } else {
            Some(self.bundle_identity)
        }
    }

    /// The member descriptors in declaration order.
    pub fn declared_members(&self) -> (r: &Vec<TypeDesc>)
        ensures
            r@ == self.members@,
    {
        &self.members
    }

    /// The full list of member Type Descriptors, in canonical order;
    /// computed fresh on every request.
    pub fn descriptor_list(&self) -> (r: Vec<TypeDesc>)
        ensures
            r@ == canonical_spec(self.members@),
    {
        canonical_order(&self.members)
    }

    /// Install a freshly computed canonical order into the cache of a closed
    /// definition. Models the single-initialization race resolution: the
    /// first writer wins; a later writer's candidate is discarded, and every
    /// subsequent read observes the winner's value.
    pub fn try_install(&mut self, candidate: Vec<TypeDesc>)
        requires
            old(self).wf(),
            !old(self).open_params,
            candidate@ == canonical_spec(old(self).members@),
        ensures
            final(self).wf(),
            final(self).members@ == old(self).members@,
            final(self).open_params == old(self).open_params,
            final(self).bundle_identity == old(self).bundle_identity,
            old(self).cached is Some ==> final(self).cached == old(self).cached,
            final(self).cached is Some,
            final(self).cached->0@ == canonical_spec(old(self).members@),
    {
        if self.cached.is_none() {
            self.cached = Some(candidate);
        }
    }

    /// The Canonical Order accessor. For a closed definition the order is
    /// computed once and memoized; every later call returns the cached
    /// value. For an open definition it is recomputed on every request and
    /// the cache stays untouched.
    pub fn canonical_order(&mut self) -> (r: Vec<TypeDesc>)
        requires
            old(self).wf(),
        ensures
            final(self).wf(),
            r@ == canonical_spec(old(self).members@),
            final(self).members@ == old(self).members@,
            final(self).open_params == old(self).open_params,
            final(self).bundle_identity == old(self).bundle_identity,
            old(self).cached is Some ==> final(self).cached == old(self).cached,
            !old(self).open_params ==> final(self).cached is Some,
    {
        if self.open_params {
            return canonical_order(&self.members);
        }
        if let Some(v) = &self.cached {
            return copy_descs(v);
        }
        let computed = canonical_order(&self.members);
        let r = copy_descs(&computed);
        self.try_install(computed);
        r
    }
}

/// Definition-time gate: admit an aggregate into the protocol. Accepts only
/// record-like shapes whose member types are pairwise distinct; says exactly
/// which error comes back otherwise. An accepted definition starts with an
/// empty canonical-order cache.
pub fn define_bundle(
    shape: ShapeKind,
    members: Vec<TypeDesc>,
    open_params: bool,
    bundle_identity: u64,
) -> (r: Result<BundleDef, DefineError>)
    ensures
        r is Ok <==> shape is Record && distinct_ids(members@),
        r is Ok ==> {
            let def = r->Ok_0;
            &&& def.wf()
            &&& def.members@ == members@
            &&& def.open_params == open_params
            &&& def.bundle_identity == bundle_identity
            &&& def.cached is None
        },
        r is Err ==> (r->Err_0 is UnsupportedShape <==> !(shape is Record)),
{
    let is_record = match shape {
        ShapeKind::Record => true,
        ShapeKind::TaggedUnion => false,
        ShapeKind::UntaggedUnion => false,
    };
    if !is_record {
        return Err(DefineError::UnsupportedShape);
    }
    let n = members.len();
    let mut i: usize = 0;
    while i < n
        invariant
            shape is Record,
            n == members@.len(),
            i <= n,
            forall|p: int, q: int|
                0 <= p < q < members@.len() && p < i ==> members@[p].identity
                    != members@[q].identity,
        decreases n - i,
    {
        let mut j: usize = i + 1;
        while j < n
            invariant
                shape is Record,
                n == members@.len(),
                i < n,
                i < j <= n,
                forall|q: int| i < q < j ==> members@[i as int].identity != members@[q].identity,
            decreases n - j,
        {
            if members[i].identity == members[j].identity {
                return Err(DefineError::DuplicateMemberType);
            }
            j += 1;
        }
        i += 1;
    }
    Ok(BundleDef { members, open_params, bundle_identity, cached: None })
}

} // verus!
