//! The two ownership-transferring operations of the protocol: decomposition
//! (move every member of an aggregate out to caller-supplied destinations,
//! without finalizing any of them) and composition (reconstruct an aggregate
//! from a type-indexed supply of stored values, failing cleanly — before any
//! value is moved — when a member type is missing).

use vstd::prelude::*;

use crate::descriptor::{distinct_ids, TypeDesc};

verus! {

/// One member value in type-erased form: its descriptor and the bytes of the
/// value it carries.
#[derive(Debug)]
pub struct Member {
    pub desc: TypeDesc,
    pub bytes: Vec<u8>,
}

/// Equality of members as values: same descriptor, same value bytes.
pub open spec fn member_eq(a: Member, b: Member) -> bool {
    a.desc == b.desc && a.bytes@ == b.bytes@
}

/// Elementwise [`member_eq`] over two member sequences.
pub open spec fn members_eq(a: Seq<Member>, b: Seq<Member>) -> bool {
    a.len() == b.len() && forall|i: int| 0 <= i < a.len() ==> member_eq(a[i], b[i])
}

/// An aggregate value: its members, in declaration order.
#[derive(Debug)]
pub struct Bundle {
    pub members: Vec<Member>,
}

impl Bundle {
    /// The member descriptors, in declaration order.
    pub open spec fn descs(self) -> Seq<TypeDesc> {
        self.members@.map_values(|m: Member| m.desc)
    }

    /// A well-formed aggregate has pairwise distinct member types.
    pub open spec fn wf(self) -> bool {
        distinct_ids(self.descs())
    }
}

/// The member descriptors of an aggregate, in declaration order.
pub fn descriptors_of(bundle: &Bundle) -> (r: Vec<TypeDesc>)
    ensures
        r@ == bundle.descs(),
{
    let mut out: Vec<TypeDesc> = Vec::new();
    let mut i: usize = 0;
    while i < bundle.members.len()
        invariant
            i <= bundle.members@.len(),
            out@ == bundle.descs().take(i as int),
        decreases bundle.members@.len() - i,
    {
        out.push(bundle.members[i].desc);
        proof {
            assert(bundle.descs().take(i as int + 1) =~= bundle.descs().take(i as int).push(
                bundle.descs()[i as int],
            ));
        }
        i += 1;
    }
    proof {
        assert(bundle.descs().take(bundle.descs().len() as int) =~= bundle.descs());
    }
    out
}

/// Decomposition: walk the aggregate's members in declaration order (not
/// canonical order) and hand each one — value bytes together with its Type
/// Descriptor — to the caller-supplied sink, transferring ownership. The
/// aggregate is consumed whole; after the call its members live only in the
/// sink's destinations, so the aggregate's own finalization can never run on
/// them again. Total: there is no failure path.
pub fn decompose(bundle: Bundle, sink: &mut Vec<Member>)
    ensures
        final(sink)@ == old(sink)@ + bundle.members@,
{
    let ghost all = bundle.members@;
    let mut rest = bundle.members;
    while rest.len() > 0
        invariant
            rest@.len() <= all.len(),
            rest@ == all.skip(all.len() - rest@.len()),
            sink@ == old(sink)@ + all.take(all.len() - rest@.len()),
        decreases rest@.len(),
    {
        let ghost k = all.len() - rest@.len();
        let m = rest.remove(0);
        proof {
            assert(m == all[k]);
            assert(rest@ =~= all.skip(k + 1));
            assert((old(sink)@ + all.take(k)).push(all[k]) =~= old(sink)@ + all.take(k + 1));
        }
        sink.push(m);
    }
    proof {
        assert(all.take(all.len() as int) =~= all);
    }
}

/// The Missing-Component Fault: identifies exactly one Type Descriptor — the
/// first member type, in declaration order, that a composition attempt could
/// not resolve.
#[derive(Debug)]
pub struct MissingComponent {
    pub desc: TypeDesc,
}

/// One slot of a type-indexed supply: storage for a value of the slot's
/// type. `value` is `None` when the slot is logically uninitialized — never
/// filled, or already moved out.
#[derive(Debug)]
pub struct Slot {
    pub desc: TypeDesc,
    pub value: Option<Vec<u8>>,
}

/// The slot currently holds a value of the member type with identity `id`.
pub open spec fn slot_matches(s: Slot, id: u64) -> bool {
    s.desc.identity == id && s.value is Some
}

/// Index of the first slot holding a value of identity `id`, or -1 when the
/// supply cannot resolve that member type.
pub open spec fn find_slot(s: Seq<Slot>, id: u64) -> int
    decreases s.len(),
{
    if s.len() == 0 {
        -1
    } else if slot_matches(s[0], id) {
        0
    } else {
        let r = find_slot(s.drop_first(), id);
        if r < 0 {
            -1
        } else {
            r + 1
        }
    }
}

/// Position of the first declared member type that the supply cannot
/// resolve, or `decl.len()` when every member type is available.
pub open spec fn first_absent(decl: Seq<TypeDesc>, s: Seq<Slot>) -> int
    decreases decl.len(),
{
    if decl.len() == 0 {
        0
    } else if find_slot(s, decl[0].identity) < 0 {
        0
    } else {
        1 + first_absent(decl.drop_first(), s)
    }
}

/// Slot `j` is where the supply `s` resolves one of the declared member
/// types, i.e. the slot a successful composition moves a value out of.
pub open spec fn resolves_to(decl: Seq<TypeDesc>, s: Seq<Slot>, j: int) -> bool {
    exists|i: int| 0 <= i < decl.len() && find_slot(s, decl[i].identity) == j
}

/// [`find_slot`] finds exactly the first matching filled slot: `j` is the
/// result when no slot before `j` matches and slot `j` does (or none does at
/// all, when `j` is the length).
proof fn lemma_find_slot_at(s: Seq<Slot>, id: u64, j: int)
    requires
        0 <= j <= s.len(),
        forall|k: int| 0 <= k < j ==> !slot_matches(s[k], id),
        j < s.len() ==> slot_matches(s[j], id),
    ensures
        j < s.len() ==> find_slot(s, id) == j,
        j == s.len() ==> find_slot(s, id) == -1,
    decreases j + 1, s.len(),
{
    if s.len() == 0 {
    } else if j == 0 {
        if j == s.len() {
        }
    } else {
        let t = s.drop_first();
        assert forall|k: int| 0 <= k < j - 1 implies !slot_matches(t[k], id) by {
            assert(t[k] == s[k + 1]);
        }
        if j - 1 < t.len() {
            assert(t[j - 1] == s[j]);
        }
        lemma_find_slot_at(t, id, j - 1);
    }
}

/// What a non-negative [`find_slot`] result means: a filled slot of that
/// identity at that index, with no earlier match.
pub proof fn lemma_find_slot_props(s: Seq<Slot>, id: u64)
    ensures
        find_slot(s, id) >= 0 ==> {
            let j = find_slot(s, id);
            &&& 0 <= j < s.len()
            &&& slot_matches(s[j], id)
            &&& forall|k: int| 0 <= k < j ==> !slot_matches(s[k], id)
        },
        find_slot(s, id) < 0 ==> forall|k: int| 0 <= k < s.len() ==> !slot_matches(s[k], id),
    decreases s.len(),
{
    if s.len() == 0 {
    } else if slot_matches(s[0], id) {
    } else {
        let t = s.drop_first();
        lemma_find_slot_props(t, id);
        assert forall|k: int| 0 <= k < t.len() implies t[k] == s[k + 1] by {}
        if find_slot(s, id) >= 0 {
            let j = find_slot(s, id);
            assert(j == find_slot(t, id) + 1);
            assert forall|k: int| 0 <= k < j implies !slot_matches(s[k], id) by {
                if k > 0 {
                    assert(s[k] == t[k - 1]);
                }
            }
        } else {
            assert forall|k: int| 0 <= k < s.len() implies !slot_matches(s[k], id) by {
                if k > 0 {
                    assert(s[k] == t[k - 1]);
                }
            }
        }
    }
}

/// [`first_absent`] finds exactly the first unresolved declared member type:
/// `k` is the result when every earlier member type resolves and the one at
/// `k` does not (or all resolve, when `k` is the length).
proof fn lemma_first_absent_at(decl: Seq<TypeDesc>, s: Seq<Slot>, k: int)
    requires
        0 <= k <= decl.len(),
        forall|t: int| 0 <= t < k ==> find_slot(s, decl[t].identity) >= 0,
        k < decl.len() ==> find_slot(s, decl[k].identity) < 0,
    ensures
        first_absent(decl, s) == k,
    decreases decl.len(),
{
    if decl.len() == 0 {
    } else if k == 0 {
    } else {
        let d = decl.drop_first();
        assert forall|t: int| 0 <= t < k - 1 implies find_slot(s, d[t].identity) >= 0 by {
            assert(d[t] == decl[t + 1]);
        }
        if k - 1 < d.len() {
            assert(d[k - 1] == decl[k]);
        }
        lemma_first_absent_at(d, s, k - 1);
    }
}

/// Find the first filled slot of identity `id` in the supply.
fn find_filled(store: &Vec<Slot>, id: u64) -> (r: Option<usize>)
    ensures
        r is Some ==> find_slot(store@, id) == r->0 as int,
        r is None ==> find_slot(store@, id) == -1,
{
    let mut j: usize = 0;
    while j < store.len()
        invariant
            j <= store@.len(),
            forall|k: int| 0 <= k < j ==> !slot_matches(store@[k], id),
        decreases store@.len() - j,
    {
        if store[j].desc.identity == id && store[j].value.is_some() {
            proof {
                lemma_find_slot_at(store@, id, j as int);
            }
            return Some(j);
        }
        j += 1;
    }
    proof {
        lemma_find_slot_at(store@, id, store@.len() as int);
    }
    None
}

/// Composition: visit the declared member types in declaration order, asking
/// the supply for each; either every member type resolves — and only then is
/// each resolved value moved out of its slot (the slot is left logically
/// uninitialized, so the value is owned by exactly one place) into the new
/// aggregate — or composition fails naming the first unresolved member type
/// in declaration order, and the supply is left untouched: no value is read
/// or moved on the failure path.
pub fn compose(decl: &Vec<TypeDesc>, store: &mut Vec<Slot>) -> (r: Result<
    Bundle,
    MissingComponent,
>)
    requires
        distinct_ids(decl@),
    ensures
        r is Ok <==> first_absent(decl@, old(store)@) == decl@.len(),
        r is Err ==> {
            &&& final(store)@ == old(store)@
            &&& 0 <= first_absent(decl@, old(store)@) < decl@.len()
            &&& r->Err_0.desc == decl@[first_absent(decl@, old(store)@)]
        },
        r is Ok ==> {
            let b = r->Ok_0;
            &&& b.wf()
            &&& b.members@.len() == decl@.len()
            &&& forall|i: int|
                0 <= i < decl@.len() ==> b.members@[i].desc == decl@[i]
                    && b.members@[i].bytes@ == old(store)@[find_slot(
                    old(store)@,
                    decl@[i].identity,
                )].value->0@
            &&& final(store)@.len() == old(store)@.len()
            &&& forall|j: int|
                0 <= j < old(store)@.len() && resolves_to(decl@, old(store)@, j)
                    ==> final(store)@[j].desc == old(store)@[j].desc
                    && final(store)@[j].value is None
            &&& forall|j: int|
                0 <= j < old(store)@.len() && !resolves_to(decl@, old(store)@, j)
                    ==> final(store)@[j] == old(store)@[j]
        },
{
    let n = decl.len();
    let mut idxs: Vec<usize> = Vec::new();
    let mut k: usize = 0;
    while k < n
        invariant
            n == decl@.len(),
            k <= n,
            store@ == old(store)@,
            idxs@.len() == k,
            forall|t: int|
                0 <= t < k ==> find_slot(store@, decl@[t].identity) == idxs@[t] as int,
        decreases n - k,
    {
        match find_filled(store, decl[k].identity) {
            Some(j) => {
                idxs.push(j);
            },
            None => {
                proof {
                    assert forall|t: int| 0 <= t < k implies find_slot(
                        store@,
                        #[trigger] decl@[t].identity,
                    ) >= 0 by {
                        assert(find_slot(store@, decl@[t].identity) == idxs@[t] as int);
                    }
                    lemma_first_absent_at(decl@, store@, k as int);
                }
                return Err(MissingComponent { desc: decl[k] });
            },
        }
        k += 1;
    }
    proof {
        assert forall|t: int| 0 <= t < n implies find_slot(
            store@,
            #[trigger] decl@[t].identity,
        ) >= 0 by {
            assert(find_slot(store@, decl@[t].identity) == idxs@[t] as int);
        }
        lemma_first_absent_at(decl@, store@, n as int);
        assert forall|t: int| 0 <= t < n implies 0 <= #[trigger] idxs@[t] as int
            && (idxs@[t] as int) < store@.len()
            && slot_matches(store@[idxs@[t] as int], decl@[t].identity) by {
            assert(find_slot(store@, decl@[t].identity) == idxs@[t] as int);
            lemma_find_slot_props(store@, decl@[t].identity);
        }
    }
    let ghost s0 = store@;
    let mut out: Vec<Member> = Vec::new();
    let mut i: usize = 0;
    while i < n
        invariant
            n == decl@.len(),
            distinct_ids(decl@),
            s0 == old(store)@,
            idxs@.len() == n,
            i <= n,
            forall|t: int|
                0 <= t < n ==> find_slot(s0, #[trigger] decl@[t].identity) == idxs@[t] as int,
            forall|t: int|
                0 <= t < n ==> 0 <= #[trigger] idxs@[t] as int && (idxs@[t] as int) < s0.len()
                    && slot_matches(s0[idxs@[t] as int], decl@[t].identity),
            store@.len() == s0.len(),
            forall|jj: int|
                #![trigger store@[jj]]
                0 <= jj < s0.len() ==> if (exists|t: int| 0 <= t < i && idxs@[t] as int == jj) {
                    store@[jj].desc == s0[jj].desc && store@[jj].value is None
                } else {
                    store@[jj] == s0[jj]
                },
            out@.len() == i,
            forall|t: int|
                #![trigger out@[t]]
                0 <= t < i ==> out@[t].desc == decl@[t]
                    && out@[t].bytes@ == s0[idxs@[t] as int].value->0@,
        decreases n - i,
    {
        let ghost s_pre = store@;
        let j = idxs[i];
        proof {
            assert(slot_matches(s0[idxs@[i as int] as int], decl@[i as int].identity));
            assert forall|t: int| 0 <= t < i implies idxs@[t] as int != j as int by {
                assert(slot_matches(s0[idxs@[t] as int], decl@[t].identity));
                assert(decl@[t].identity != decl@[i as int].identity);
            }
            assert(!(exists|t: int| 0 <= t < i && idxs@[t] as int == j as int));
            assert(s_pre[j as int] == s0[j as int]);
        }
        let slot = &mut store[j];
        let mut taken: Option<Vec<u8>> = None;
        core::mem::swap(&mut slot.value, &mut taken);
        let bytes = match taken {
            Some(b) => b,
            None => vstd::pervasive::unreached(),
        };
        out.push(Member { desc: decl[i], bytes });
        proof {
            assert(store@.len() == s_pre.len());
            assert(store@[j as int].desc == s0[j as int].desc);
            assert(store@[j as int].value is None);
            assert(out@[i as int].desc == decl@[i as int]);
            assert(out@[i as int].bytes@ == s0[j as int].value->0@);
        }
        i += 1;
        proof {
            assert forall|jj: int| 0 <= jj < s0.len() implies if (exists|t: int|
                0 <= t < i && idxs@[t] as int == jj) {
                store@[jj].desc == s0[jj].desc && store@[jj].value is None
            } else {
                store@[jj] == s0[jj]
            } by {
                if exists|t: int| 0 <= t < i && idxs@[t] as int == jj {
                    let t = choose|t: int| 0 <= t < i && idxs@[t] as int == jj;
                    if t == i - 1 {
                        assert(jj == j as int);
                    } else {
                        assert(0 <= t < i - 1 && idxs@[t] as int == jj);
                        assert(exists|t2: int| 0 <= t2 < i - 1 && idxs@[t2] as int == jj);
                        assert(s_pre[jj].desc == s0[jj].desc && s_pre[jj].value is None);
                        assert(jj != j as int);
                        assert(store@[jj] == s_pre[jj]);
                    }
                } else {
                    assert(!(exists|t2: int| 0 <= t2 < i - 1 && idxs@[t2] as int == jj));
                    assert(jj != j as int);
                    assert(store@[jj] == s_pre[jj]);
                    assert(s_pre[jj] == s0[jj]);
                }
            }
        }
    }
    let b = Bundle { members: out };
    proof {
        assert forall|p: int, q: int| 0 <= p < q < b.descs().len() implies b.descs()[p].identity
            != b.descs()[q].identity by {
            assert(b.descs()[p] == decl@[p]);
            assert(b.descs()[q] == decl@[q]);
        }
        assert forall|j: int|
            0 <= j < s0.len() && resolves_to(decl@, s0, j) implies (exists|t: int|
            0 <= t < n && idxs@[t] as int == j) by {
            let t = choose|t: int| 0 <= t < decl@.len() && find_slot(s0, decl@[t].identity) == j;
            assert(idxs@[t] as int == j);
        }
        assert forall|j: int|
            0 <= j < s0.len() && (exists|t: int| 0 <= t < n && idxs@[t] as int == j)
                implies resolves_to(decl@, s0, j) by {
            let t = choose|t: int| 0 <= t < n && idxs@[t] as int == j;
            assert(find_slot(s0, decl@[t].identity) == j);
        }
    }
    Ok(b)
}

/// Round trip: a supply whose slots hold, position by position, the members
/// of a well-formed aggregate resolves every declared member type at its own
/// position — so composition succeeds and moves back exactly the original
/// member values, each read out of the one slot that holds it.
pub proof fn lemma_round_trip(descs: Seq<TypeDesc>, slots: Seq<Slot>)
    requires
        distinct_ids(descs),
        slots.len() == descs.len(),
        forall|i: int|
            #![trigger slots[i]]
            0 <= i < slots.len() ==> slots[i].desc == descs[i] && slots[i].value is Some,
    ensures
        first_absent(descs, slots) == descs.len(),
        forall|i: int| 0 <= i < descs.len() ==> find_slot(slots, #[trigger] descs[i].identity)
            == i,
{
    assert forall|i: int| 0 <= i < descs.len() implies find_slot(
        slots,
        #[trigger] descs[i].identity,
    ) == i by {
        assert forall|k: int| 0 <= k < i implies !slot_matches(slots[k], descs[i].identity) by {
            assert(slots[k].desc == descs[k]);
        }
        assert(slot_matches(slots[i], descs[i].identity));
        lemma_find_slot_at(slots, descs[i].identity, i);
    }
    lemma_first_absent_at(descs, slots, descs.len() as int);
}

/// Build a type-indexed supply from decomposed members: one filled slot per
/// member, in the order the sink received them.
pub fn store_from_members(members: Vec<Member>) -> (r: Vec<Slot>)
    ensures
        r@.len() == members@.len(),
        forall|i: int|
            0 <= i < members@.len() ==> #[trigger] r@[i].desc == members@[i].desc
                && r@[i].value is Some && r@[i].value->0@ == members@[i].bytes@,
{
    let ghost all = members@;
    let mut rest = members;
    let mut out: Vec<Slot> = Vec::new();
    while rest.len() > 0
        invariant
            rest@.len() <= all.len(),
            rest@ == all.skip(all.len() - rest@.len()),
            out@.len() == all.len() - rest@.len(),
            forall|i: int|
                0 <= i < out@.len() ==> #[trigger] out@[i].desc == all[i].desc
                    && out@[i].value is Some && out@[i].value->0@ == all[i].bytes@,
        decreases rest@.len(),
    {
        let ghost k = all.len() - rest@.len();
        let m = rest.remove(0);
        proof {
            assert(m == all[k]);
            assert(rest@ =~= all.skip(k + 1));
        }
        out.push(Slot { desc: m.desc, value: Some(m.bytes) });
    }
    out
}

/// The zero-member aggregate is degenerate everywhere: its canonical order
/// is empty, decomposition hands the sink nothing (see [`decompose`], whose
/// contract appends exactly the member sequence), and composition succeeds
/// against any supply, producing the empty aggregate and touching nothing.
pub proof fn lemma_zero_member(s: Seq<Slot>)
    ensures
        crate::order::canonical_spec(Seq::<TypeDesc>::empty()) == Seq::<TypeDesc>::empty(),
        first_absent(Seq::<TypeDesc>::empty(), s) == 0,
        forall|j: int| !resolves_to(Seq::<TypeDesc>::empty(), s, j),
{
}

/// The round-trip law, executable form: decomposing a well-formed aggregate
/// into a fresh supply and composing from that supply reconstructs the
/// aggregate — the same member values in the same declaration order, each
/// moved out of its slot exactly once.
pub fn round_trip(bundle: Bundle) -> (r: Bundle)
    requires
        bundle.wf(),
    ensures
        r.wf(),
        members_eq(r.members@, bundle.members@),
{
    let ghost orig = bundle.members@;
    let decl = descriptors_of(&bundle);
    let mut sink: Vec<Member> = Vec::new();
    decompose(bundle, &mut sink);
    let mut store = store_from_members(sink);
    proof {
        assert forall|i: int| 0 <= i < store@.len() implies #[trigger] store@[i].desc == decl@[i]
            && store@[i].value is Some by {
            assert(store@[i].desc == sink@[i].desc);
        }
        lemma_round_trip(decl@, store@);
    }
    let ghost supply = store@;
    let composed = compose(&decl, &mut store);
    match composed {
        Ok(b) => {
            proof {
                assert forall|i: int| 0 <= i < orig.len() implies member_eq(
                    b.members@[i],
                    orig[i],
                ) by {
                    assert(find_slot(supply, decl@[i].identity) == i);
                }
            }
            b
        },
        Err(_) => vstd::pervasive::unreached(),
    }
}

} // verus!
