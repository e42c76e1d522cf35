//! Canonical ordering engine: derives the stable total order over the
//! member-type descriptors of one aggregate.
//!
//! The ordering rule sorts primarily by alignment, descending (a packing
//! heuristic: higher-alignment members first minimizes padding in a
//! contiguous type-erased layout), with ties broken by identity, ascending,
//! so that repeated derivations of the same type set always agree.

use vstd::prelude::*;

use crate::descriptor::{desc_le, desc_le_exec, desc_precedes, distinct_ids, has_id, TypeDesc};

verus! {

/// Where `d` lands when inserted into the already-ordered sequence `s`.
pub open spec fn insert_ordered(d: TypeDesc, s: Seq<TypeDesc>) -> Seq<TypeDesc>
    decreases s.len(),
{
    if s.len() == 0 {
        seq![d]
    } else if desc_le(d, s[0]) {
        seq![d] + s
    } else {
        seq![s[0]] + insert_ordered(d, s.drop_first())
    }
}

/// The canonical order of a member-type sequence: an insertion sort by
/// [`desc_le`]. Being a function of the member sequence alone, repeated
/// derivations are identical by construction.
pub open spec fn canonical_spec(s: Seq<TypeDesc>) -> Seq<TypeDesc>
    decreases s.len(),
{
    if s.len() == 0 {
        Seq::empty()
    } else {
        insert_ordered(s.last(), canonical_spec(s.drop_last()))
    }
}

/// The sequence is sorted by the canonical precedence relation.
pub open spec fn canonically_sorted(s: Seq<TypeDesc>) -> bool {
    forall|i: int, j: int| 0 <= i < j < s.len() ==> desc_le(s[i], s[j])
}

/// What insertion does: it adds `d`, keeps every element of `s`, keeps
/// sortedness, and keeps identities distinct when `d`'s identity is new.
pub proof fn lemma_insert_ordered_props(d: TypeDesc, s: Seq<TypeDesc>)
    ensures
        insert_ordered(d, s).len() == s.len() + 1,
        forall|x: TypeDesc| #[trigger] insert_ordered(d, s).contains(x) <==> (x == d || s.contains(x)),
        forall|id: u64| #[trigger] has_id(insert_ordered(d, s), id) <==> (id == d.identity || has_id(s, id)),
        canonically_sorted(s) ==> canonically_sorted(insert_ordered(d, s)),
        distinct_ids(s) && !has_id(s, d.identity) ==> distinct_ids(insert_ordered(d, s)),
    decreases s.len(),
{
    let r = insert_ordered(d, s);
    if s.len() == 0 {
        assert forall|x: TypeDesc| r.contains(x) <==> (x == d || s.contains(x)) by {
            assert(r[0] == d);
        }
        assert forall|id: u64| has_id(r, id) <==> (id == d.identity || has_id(s, id)) by {
            assert(r[0] == d);
        }
    } else if desc_le(d, s[0]) {
        assert forall|x: TypeDesc| r.contains(x) <==> (x == d || s.contains(x)) by {
            assert(r[0] == d);
            if r.contains(x) {
                let i = choose|i: int| 0 <= i < r.len() && r[i] == x;
                if i > 0 {
                    assert(s[i - 1] == x);
                }
            }
            if s.contains(x) {
                let i = choose|i: int| 0 <= i < s.len() && s[i] == x;
                assert(r[i + 1] == x);
            }
        }
        assert forall|id: u64| has_id(r, id) <==> (id == d.identity || has_id(s, id)) by {
            assert(r[0] == d);
            if has_id(r, id) {
                let i = choose|i: int| 0 <= i < r.len() && r[i].identity == id;
                if i > 0 {
                    assert(s[i - 1].identity == id);
                }
            }
            if has_id(s, id) {
                let i = choose|i: int| 0 <= i < s.len() && s[i].identity == id;
                assert(r[i + 1].identity == id);
            }
        }
        if canonically_sorted(s) {
            assert forall|i: int, j: int| 0 <= i < j < r.len() implies desc_le(r[i], r[j]) by {
                if i == 0 {
                    assert(r[j] == s[j - 1]);
                    if j > 1 {
                        assert(desc_le(s[0], s[j - 1]));
                    }
                } else {
                    assert(r[i] == s[i - 1] && r[j] == s[j - 1]);
                }
            }
        }
        if distinct_ids(s) && !has_id(s, d.identity) {
            assert forall|i: int, j: int| 0 <= i < j < r.len() implies r[i].identity
                != r[j].identity by {
                if i == 0 {
                    assert(r[j] == s[j - 1]);
                    assert(!(s[j - 1].identity == d.identity));
                } else {
                    assert(r[i] == s[i - 1] && r[j] == s[j - 1]);
                }
            }
        }
    } else {
        let t = s.drop_first();
        lemma_insert_ordered_props(d, t);
        let rt = insert_ordered(d, t);
        assert(r == seq![s[0]] + rt);
        assert(r[0] == s[0]);
        assert forall|k: int| 0 <= k < rt.len() implies r[k + 1] == rt[k] by {}
        assert forall|x: TypeDesc| r.contains(x) <==> (x == d || s.contains(x)) by {
            if r.contains(x) {
                let i = choose|i: int| 0 <= i < r.len() && r[i] == x;
                if i == 0 {
                    assert(s[0] == x);
                } else {
                    assert(rt[i - 1] == x);
                    assert(rt.contains(x));
                    if x != d {
                        assert(t.contains(x));
                        let j = choose|j: int| 0 <= j < t.len() && t[j] == x;
                        assert(s[j + 1] == x);
                    }
                }
            }
            if x == d {
                assert(rt.contains(x));
                let i = choose|i: int| 0 <= i < rt.len() && rt[i] == x;
                assert(r[i + 1] == x);
            }
            if s.contains(x) {
                let i = choose|i: int| 0 <= i < s.len() && s[i] == x;
                if i == 0 {
                    assert(r[0] == x);
                } else {
                    assert(t[i - 1] == x);
                    assert(t.contains(x));
                    assert(rt.contains(x));
                    let j = choose|j: int| 0 <= j < rt.len() && rt[j] == x;
                    assert(r[j + 1] == x);
                }
            }
        }
        assert forall|id: u64| has_id(r, id) <==> (id == d.identity || has_id(s, id)) by {
            if has_id(r, id) {
                let i = choose|i: int| 0 <= i < r.len() && r[i].identity == id;
                if i == 0 {
                    assert(s[0].identity == id);
                } else {
                    assert(rt[i - 1].identity == id);
                    assert(has_id(rt, id));
                    if id != d.identity {
                        assert(has_id(t, id));
                        let j = choose|j: int| 0 <= j < t.len() && t[j].identity == id;
                        assert(s[j + 1].identity == id);
                    }
                }
            }
            if id == d.identity {
                assert(has_id(rt, id));
                let i = choose|i: int| 0 <= i < rt.len() && rt[i].identity == id;
                assert(r[i + 1].identity == id);
            }
            if has_id(s, id) {
                let i = choose|i: int| 0 <= i < s.len() && s[i].identity == id;
                if i == 0 {
                    assert(r[0].identity == id);
                } else {
                    assert(t[i - 1].identity == id);
                    assert(has_id(t, id));
                    assert(has_id(rt, id));
                    let j = choose|j: int| 0 <= j < rt.len() && rt[j].identity == id;
                    assert(r[j + 1].identity == id);
                }
            }
        }
        if canonically_sorted(s) {
            assert forall|i: int, j: int| 0 <= i < j < t.len() implies desc_le(t[i], t[j]) by {
                assert(t[i] == s[i + 1] && t[j] == s[j + 1]);
            }
            assert(canonically_sorted(t));
            assert forall|i: int, j: int| 0 <= i < j < r.len() implies desc_le(r[i], r[j]) by {
                if i == 0 {
                    assert(r[j] == rt[j - 1]);
                    assert(rt.contains(rt[j - 1]));
                    if rt[j - 1] == d {
                        assert(!desc_le(d, s[0]));
                        assert(desc_le(s[0], d));
                    } else {
                        assert(t.contains(rt[j - 1]));
                        let k = choose|k: int| 0 <= k < t.len() && t[k] == rt[j - 1];
                        assert(s[k + 1] == rt[j - 1]);
                        assert(desc_le(s[0], s[k + 1]));
                    }
                } else {
                    assert(r[i] == rt[i - 1] && r[j] == rt[j - 1]);
                }
            }
        }
        if distinct_ids(s) && !has_id(s, d.identity) {
            assert forall|i: int, j: int| 0 <= i < j < t.len() implies t[i].identity
                != t[j].identity by {
                assert(t[i] == s[i + 1] && t[j] == s[j + 1]);
            }
            assert(distinct_ids(t));
            assert forall|id: u64| has_id(t, id) implies has_id(s, id) by {
                let i = choose|i: int| 0 <= i < t.len() && t[i].identity == id;
                assert(s[i + 1].identity == id);
            }
            assert(!has_id(t, d.identity));
            assert forall|i: int, j: int| 0 <= i < j < r.len() implies r[i].identity
                != r[j].identity by {
                if i == 0 {
                    assert(r[j] == rt[j - 1]);
                    assert(has_id(rt, rt[j - 1].identity));
                    if rt[j - 1].identity == s[0].identity {
                        if rt[j - 1].identity == d.identity {
                            assert(has_id(s, s[0].identity));
                        } else {
                            assert(has_id(t, s[0].identity));
                            let k = choose|k: int|
                                0 <= k < t.len() && t[k].identity == s[0].identity;
                            assert(s[k + 1].identity == s[0].identity);
                        }
                    }
                } else {
                    assert(r[i] == rt[i - 1] && r[j] == rt[j - 1]);
                }
            }
        }
    }
}

/// What the canonical order is: the same descriptors as the member sequence
/// (same length, same elements, same identity set, distinctness kept),
/// arranged in sorted order.
pub proof fn lemma_canonical_props(s: Seq<TypeDesc>)
    ensures
        canonical_spec(s).len() == s.len(),
        forall|x: TypeDesc| #[trigger] canonical_spec(s).contains(x) <==> s.contains(x),
        forall|id: u64| #[trigger] has_id(canonical_spec(s), id) <==> has_id(s, id),
        canonically_sorted(canonical_spec(s)),
        distinct_ids(s) ==> distinct_ids(canonical_spec(s)),
    decreases s.len(),
{
    if s.len() == 0 {
    } else {
        let p = s.drop_last();
        lemma_canonical_props(p);
        lemma_insert_ordered_props(s.last(), canonical_spec(p));
        assert forall|x: TypeDesc| s.contains(x) <==> (x == s.last() || p.contains(x)) by {
            if s.contains(x) {
                let i = choose|i: int| 0 <= i < s.len() && s[i] == x;
                if i < s.len() - 1 {
                    assert(p[i] == x);
                }
            }
            if p.contains(x) {
                let i = choose|i: int| 0 <= i < p.len() && p[i] == x;
                assert(s[i] == x);
            }
        }
        assert forall|id: u64| has_id(s, id) <==> (id == s.last().identity || has_id(p, id)) by {
            if has_id(s, id) {
                let i = choose|i: int| 0 <= i < s.len() && s[i].identity == id;
                if i < s.len() - 1 {
                    assert(p[i].identity == id);
                }
            }
            if has_id(p, id) {
                let i = choose|i: int| 0 <= i < p.len() && p[i].identity == id;
                assert(s[i].identity == id);
            }
        }
        if distinct_ids(s) {
            assert forall|i: int, j: int| 0 <= i < j < p.len() implies p[i].identity
                != p[j].identity by {
                assert(p[i] == s[i] && p[j] == s[j]);
            }
            assert(distinct_ids(p));
            assert(!has_id(p, s.last().identity)) by {
                if has_id(p, s.last().identity) {
                    let i = choose|i: int|
                        0 <= i < p.len() && p[i].identity == s.last().identity;
                    assert(s[i].identity == s[s.len() - 1].identity);
                }
            }
        }
    }
}

/// Inserting `d` at the first position whose element `d` non-strictly
/// precedes is exactly what [`insert_ordered`] denotes.
proof fn lemma_insert_ordered_at(d: TypeDesc, s: Seq<TypeDesc>, j: int)
    requires
        0 <= j <= s.len(),
        forall|k: int| 0 <= k < j ==> !desc_le(d, s[k]),
        j < s.len() ==> desc_le(d, s[j]),
    ensures
        insert_ordered(d, s) == s.insert(j, d),
    decreases j,
{
    s.insert_ensures(j, d);
    if s.len() == 0 {
        assert(insert_ordered(d, s) =~= s.insert(0, d));
    } else if j == 0 {
        assert(insert_ordered(d, s) =~= s.insert(0, d));
    } else {
        let t = s.drop_first();
        assert(!desc_le(d, s[0]));
        assert forall|k: int| 0 <= k < j - 1 implies !desc_le(d, t[k]) by {
            assert(t[k] == s[k + 1]);
        }
        lemma_insert_ordered_at(d, t, j - 1);
        t.insert_ensures(j - 1, d);
        assert forall|k: int| 0 <= k < s.insert(j, d).len() implies (seq![s[0]] + t.insert(
            j - 1,
            d,
        ))[k] == s.insert(j, d)[k] by {
            if k > 0 {
                if k - 1 < j - 1 {
                    assert(t.insert(j - 1, d)[k - 1] == t[k - 1]);
                    assert(t[k - 1] == s[k]);
                } else if k - 1 == j - 1 {
                    assert(t.insert(j - 1, d)[k - 1] == d);
                } else {
                    assert(t.insert(j - 1, d)[(k - 2) + 1] == t[k - 2]);
                    assert(t[k - 2] == s[k - 1]);
                }
            }
        }
        assert(insert_ordered(d, s) =~= s.insert(j, d));
    }
}

/// One insertion step of the sort: place `d` into the already-ordered `out`.
fn insert_canonical(out: &mut Vec<TypeDesc>, d: TypeDesc)
    ensures
        final(out)@ == insert_ordered(d, old(out)@),
{
    let mut j: usize = 0;
    while j < out.len() && !desc_le_exec(&d, &out[j])
        invariant
            j <= out@.len(),
            out@ == old(out)@,
            forall|k: int| 0 <= k < j ==> !desc_le(d, out@[k]),
        decreases out@.len() - j,
    {
        j += 1;
    }
    proof {
        lemma_insert_ordered_at(d, out@, j as int);
    }
    out.insert(j, d);
}

/// Derive the canonical order of `members`: sort by alignment descending,
/// ties broken by identity ascending. A pure function of the member
/// sequence, so repeated derivations agree (see
/// [`lemma_canonical_deterministic`]).
pub fn canonical_order(members: &Vec<TypeDesc>) -> (r: Vec<TypeDesc>)
    ensures
        r@ == canonical_spec(members@),
{
    let mut out: Vec<TypeDesc> = Vec::new();
    let mut i: usize = 0;
    while i < members.len()
        invariant
            i <= members@.len(),
            out@ == canonical_spec(members@.take(i as int)),
        decreases members@.len() - i,
    {
        insert_canonical(&mut out, members[i]);
        proof {
            assert(members@.take(i as int + 1).drop_last() =~= members@.take(i as int));
            assert(members@.take(i as int + 1).last() == members@[i as int]);
        }
        i += 1;
    }
    proof {
        assert(members@.take(members@.len() as int) =~= members@);
    }
    out
}

/// Determinism: the canonical order is a function of the member sequence
/// alone, so any two derivations for the same member set are identical
/// sequences (same descriptors, same positions).
pub proof fn lemma_canonical_deterministic(s: Seq<TypeDesc>, r1: Seq<TypeDesc>, r2: Seq<TypeDesc>)
    requires
        r1 == canonical_spec(s),
        r2 == canonical_spec(s),
    ensures
        r1 == r2,
{
}

/// Ordering law: for member types at two distinct positions of the canonical
/// order of a member set with distinct identities, the one at the lower
/// position strictly precedes the other exactly when its alignment is higher,
/// or the alignments are equal and its identity is lower.
pub proof fn lemma_ordering_law(s: Seq<TypeDesc>, i: int, j: int)
    requires
        distinct_ids(s),
        0 <= i < canonical_spec(s).len(),
        0 <= j < canonical_spec(s).len(),
        i != j,
    ensures
        i < j <==> desc_precedes(canonical_spec(s)[i], canonical_spec(s)[j]),
{
    lemma_canonical_props(s);
    let c = canonical_spec(s);
    if i < j {
        assert(desc_le(c[i], c[j]));
        assert(c[i].identity != c[j].identity);
    } else {
        assert(desc_le(c[j], c[i]));
        assert(c[j].identity != c[i].identity);
    }
}

/// Copy a descriptor sequence (descriptors are plain `Copy` data).
pub(crate) fn copy_descs(v: &Vec<TypeDesc>) -> (r: Vec<TypeDesc>)
    ensures
        r@ == v@,
{
    let mut out: Vec<TypeDesc> = Vec::new();
    let mut i: usize = 0;
    while i < v.len()
        invariant
            i <= v@.len(),
            out@ == v@.take(i as int),
        decreases v@.len() - i,
    {
        out.push(v[i]);
        proof {
            assert(v@.take(i as int + 1) =~= v@.take(i as int).push(v@[i as int]));
        }
        i += 1;
    }
    proof {
        assert(v@.take(v@.len() as int) =~= v@);
    }
    out
}

} // verus!
