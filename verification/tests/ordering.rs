use bundle_protocol::definition::{define_bundle, DefineError, ShapeKind};
use bundle_protocol::descriptor::TypeDesc;
use bundle_protocol::order::canonical_order;

fn td(identity: u64, alignment: u64) -> TypeDesc {
    TypeDesc { identity, alignment, finalizer: 0 }
}

fn same_desc(a: &TypeDesc, b: &TypeDesc) -> bool {
    a.identity == b.identity && a.alignment == b.alignment && a.finalizer == b.finalizer
}

#[test]
fn concrete_scenario_order() {
    // Members of alignments 4, 8, 4 with identities X < Z: canonical order
    // puts the alignment-8 member first, then X, then Z.
    let x = td(1, 4);
    let y = td(2, 8);
    let z = td(3, 4);
    let members = vec![x, y, z];
    let order = canonical_order(&members);
    assert_eq!(order.len(), 3);
    assert!(same_desc(&order[0], &y));
    assert!(same_desc(&order[1], &x));
    assert!(same_desc(&order[2], &z));
}

#[test]
fn repeated_derivations_are_identical() {
    let members = vec![td(9, 1), td(4, 16), td(7, 2), td(2, 16), td(5, 8)];
    let first = canonical_order(&members);
    let second = canonical_order(&members);
    assert_eq!(first.len(), second.len());
    for i in 0..first.len() {
        assert!(same_desc(&first[i], &second[i]));
    }
}

#[test]
fn ordering_law_holds_pairwise() {
    let members = vec![td(9, 1), td(4, 16), td(7, 2), td(2, 16), td(5, 8)];
    let order = canonical_order(&members);
    for i in 0..order.len() {
        for j in 0..order.len() {
            if i == j {
                continue;
            }
            let a = &order[i];
            let b = &order[j];
            let precedes = a.alignment > b.alignment
                || (a.alignment == b.alignment && a.identity < b.identity);
            assert_eq!(i < j, precedes);
        }
    }
}

#[test]
fn zero_member_order_is_empty() {
    let members: Vec<TypeDesc> = Vec::new();
    let order = canonical_order(&members);
    assert!(order.is_empty());
}

#[test]
fn unions_are_rejected_at_definition_time() {
    let members = vec![td(1, 4)];
    let tagged = define_bundle(ShapeKind::TaggedUnion, members.clone(), false, 10);
    assert!(matches!(tagged, Err(DefineError::UnsupportedShape)));
    let untagged = define_bundle(ShapeKind::UntaggedUnion, members, false, 10);
    assert!(matches!(untagged, Err(DefineError::UnsupportedShape)));
}

#[test]
fn duplicate_member_types_are_rejected_at_definition_time() {
    let members = vec![td(1, 4), td(2, 8), td(1, 4)];
    let r = define_bundle(ShapeKind::Record, members, false, 10);
    assert!(matches!(r, Err(DefineError::DuplicateMemberType)));
}

#[test]
fn closed_definition_has_grouping_key() {
    let def = define_bundle(ShapeKind::Record, vec![td(1, 4), td(2, 8)], false, 77).unwrap();
    assert_eq!(def.key(), Some(77));
}

#[test]
fn open_definition_has_no_grouping_key() {
    let def = define_bundle(ShapeKind::Record, vec![td(1, 4), td(2, 8)], true, 77).unwrap();
    assert_eq!(def.key(), None);
}

#[test]
fn zero_member_record_is_accepted() {
    let def = define_bundle(ShapeKind::Record, Vec::new(), false, 3).unwrap();
    assert_eq!(def.descriptor_list().len(), 0);
}

#[test]
fn cached_reads_converge_on_one_value() {
    let mut def =
        define_bundle(ShapeKind::Record, vec![td(1, 4), td(2, 8), td(3, 4)], false, 5).unwrap();
    assert!(def.cached.is_none());
    let first = def.canonical_order();
    assert!(def.cached.is_some());
    // A redundant late writer is discarded: the winner's value keeps being read.
    let candidate = canonical_order(def.declared_members());
    def.try_install(candidate);
    let second = def.canonical_order();
    assert_eq!(first.len(), second.len());
    for i in 0..first.len() {
        assert!(same_desc(&first[i], &second[i]));
    }
}

#[test]
fn open_definition_is_never_cached() {
    let mut def =
        define_bundle(ShapeKind::Record, vec![td(1, 4), td(2, 8)], true, 5).unwrap();
    let first = def.canonical_order();
    assert!(def.cached.is_none());
    let second = def.canonical_order();
    assert!(def.cached.is_none());
    for i in 0..first.len() {
        assert!(same_desc(&first[i], &second[i]));
    }
}

#[test]
fn descriptor_list_is_in_canonical_order() {
    let members = vec![td(1, 4), td(2, 8), td(3, 4)];
    let def = define_bundle(ShapeKind::Record, members.clone(), false, 5).unwrap();
    let listed = def.descriptor_list();
    let order = canonical_order(&members);
    assert_eq!(listed.len(), order.len());
    for i in 0..listed.len() {
        assert!(same_desc(&listed[i], &order[i]));
    }
}

#[test]
fn accepted_definition_keeps_declaration_order() {
    let members = vec![td(1, 4), td(2, 8), td(3, 4)];
    let def = define_bundle(ShapeKind::Record, members.clone(), false, 5).unwrap();
    let declared = def.declared_members();
    assert_eq!(declared.len(), 3);
    for i in 0..members.len() {
        assert!(same_desc(&declared[i], &members[i]));
    }
}

#[test]
fn descriptor_equality_is_identity_only() {
    // Descriptors compare equal exactly when their identities match.
    assert!(td(1, 4) == td(1, 8));
    assert!(td(1, 4) != td(2, 4));
}
