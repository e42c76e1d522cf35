use bundle_protocol::descriptor::TypeDesc;
use bundle_protocol::transfer::{
    compose, decompose, descriptors_of, round_trip, store_from_members, Bundle, Member, Slot,
};

fn td(identity: u64, alignment: u64) -> TypeDesc {
    TypeDesc { identity, alignment, finalizer: 0 }
}

fn member(identity: u64, alignment: u64, bytes: &[u8]) -> Member {
    Member { desc: td(identity, alignment), bytes: bytes.to_vec() }
}

fn three_member_bundle() -> Bundle {
    // Declaration order X, Y, Z with alignments 4, 8, 4: canonical order
    // differs from declaration order, which must not matter here.
    Bundle {
        members: vec![member(1, 4, b"xx"), member(2, 8, b"yyyy"), member(3, 4, b"zz")],
    }
}

#[test]
fn decompose_visits_members_in_declaration_order() {
    let bundle = three_member_bundle();
    let mut sink: Vec<Member> = Vec::new();
    decompose(bundle, &mut sink);
    assert_eq!(sink.len(), 3);
    assert_eq!(sink[0].desc.identity, 1);
    assert_eq!(sink[0].bytes, b"xx".to_vec());
    assert_eq!(sink[1].desc.identity, 2);
    assert_eq!(sink[1].bytes, b"yyyy".to_vec());
    assert_eq!(sink[2].desc.identity, 3);
    assert_eq!(sink[2].bytes, b"zz".to_vec());
}

#[test]
fn decompose_appends_after_existing_sink_contents() {
    let bundle = Bundle { members: vec![member(7, 1, b"q")] };
    let mut sink = vec![member(9, 1, b"old")];
    decompose(bundle, &mut sink);
    assert_eq!(sink.len(), 2);
    assert_eq!(sink[0].desc.identity, 9);
    assert_eq!(sink[1].desc.identity, 7);
}

#[test]
fn decompose_zero_member_bundle_invokes_sink_zero_times() {
    let bundle = Bundle { members: Vec::new() };
    let mut sink: Vec<Member> = Vec::new();
    decompose(bundle, &mut sink);
    assert!(sink.is_empty());
}

#[test]
fn round_trip_reconstructs_the_original_values() {
    let bundle = three_member_bundle();
    let back = round_trip(bundle);
    assert_eq!(back.members.len(), 3);
    assert_eq!(back.members[0].desc.identity, 1);
    assert_eq!(back.members[0].bytes, b"xx".to_vec());
    assert_eq!(back.members[1].desc.identity, 2);
    assert_eq!(back.members[1].bytes, b"yyyy".to_vec());
    assert_eq!(back.members[2].desc.identity, 3);
    assert_eq!(back.members[2].bytes, b"zz".to_vec());
}

#[test]
fn round_trip_moves_each_value_out_exactly_once() {
    let bundle = three_member_bundle();
    let decl = descriptors_of(&bundle);
    let mut sink: Vec<Member> = Vec::new();
    decompose(bundle, &mut sink);
    let mut store = store_from_members(sink);
    let composed = compose(&decl, &mut store).unwrap();
    assert_eq!(composed.members.len(), 3);
    // Every slot was drained: each value now lives only in the new aggregate.
    for slot in &store {
        assert!(slot.value.is_none());
    }
}

#[test]
fn compose_fails_naming_the_missing_member_type() {
    // A supply missing only Y's type: composition fails naming Y, even
    // though X and Z are present.
    let decl = vec![td(1, 4), td(2, 8), td(3, 4)];
    let mut store = vec![
        Slot { desc: td(1, 4), value: Some(b"xx".to_vec()) },
        Slot { desc: td(3, 4), value: Some(b"zz".to_vec()) },
    ];
    let fault = compose(&decl, &mut store).unwrap_err();
    assert_eq!(fault.desc.identity, 2);
    // Fail-fast, no partial read: the supply is left untouched.
    assert_eq!(store.len(), 2);
    assert_eq!(store[0].value.as_ref().unwrap(), &b"xx".to_vec());
    assert_eq!(store[1].value.as_ref().unwrap(), &b"zz".to_vec());
}

#[test]
fn compose_names_the_first_missing_type_in_declaration_order() {
    let decl = vec![td(1, 4), td(2, 8), td(3, 4)];
    let mut store = vec![Slot { desc: td(2, 8), value: Some(b"yyyy".to_vec()) }];
    let fault = compose(&decl, &mut store).unwrap_err();
    assert_eq!(fault.desc.identity, 1);
    assert_eq!(store.len(), 1);
    assert!(store[0].value.is_some());
}

#[test]
fn compose_treats_a_drained_slot_as_absent() {
    let decl = vec![td(1, 4)];
    let mut store = vec![Slot { desc: td(1, 4), value: None }];
    let fault = compose(&decl, &mut store).unwrap_err();
    assert_eq!(fault.desc.identity, 1);
}

#[test]
fn compose_zero_member_always_succeeds() {
    let decl: Vec<TypeDesc> = Vec::new();
    let mut store = vec![Slot { desc: td(5, 2), value: Some(b"w".to_vec()) }];
    let composed = compose(&decl, &mut store).unwrap();
    assert!(composed.members.is_empty());
    // Nothing was read or moved.
    assert!(store[0].value.is_some());
}

#[test]
fn compose_leaves_unrelated_slots_untouched() {
    let decl = vec![td(1, 4)];
    let mut store = vec![
        Slot { desc: td(8, 2), value: Some(b"other".to_vec()) },
        Slot { desc: td(1, 4), value: Some(b"xx".to_vec()) },
    ];
    let composed = compose(&decl, &mut store).unwrap();
    assert_eq!(composed.members.len(), 1);
    assert_eq!(composed.members[0].bytes, b"xx".to_vec());
    assert_eq!(store[0].value.as_ref().unwrap(), &b"other".to_vec());
    assert!(store[1].value.is_none());
}

#[test]
fn compose_resolves_to_the_first_matching_slot() {
    let decl = vec![td(1, 4)];
    let mut store = vec![
        Slot { desc: td(1, 4), value: Some(b"first".to_vec()) },
        Slot { desc: td(1, 4), value: Some(b"second".to_vec()) },
    ];
    let composed = compose(&decl, &mut store).unwrap();
    assert_eq!(composed.members[0].bytes, b"first".to_vec());
    assert!(store[0].value.is_none());
    assert_eq!(store[1].value.as_ref().unwrap(), &b"second".to_vec());
}

#[test]
fn round_trip_of_the_zero_member_bundle() {
    let bundle = Bundle { members: Vec::new() };
    let back = round_trip(bundle);
    assert!(back.members.is_empty());
}

#[test]
fn descriptors_of_reports_declaration_order() {
    let bundle = three_member_bundle();
    let decl = descriptors_of(&bundle);
    assert_eq!(decl.len(), 3);
    assert_eq!(decl[0].identity, 1);
    assert_eq!(decl[1].identity, 2);
    assert_eq!(decl[2].identity, 3);
}
