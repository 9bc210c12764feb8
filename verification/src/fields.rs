//! The field gap synthesizer: completes a register's declared bitfields into
//! a full, non-overlapping partition of the fixed 32-bit register width by
//! synthesizing reserved fields for every gap, ordered most significant
//! first.

use vstd::prelude::*;
use vstd::seq_lib::lemma_multiset_commutative;
use vstd::multiset::Multiset;
use crate::ident::{lower_of, lowercase, spec_dec};
use crate::rdf::{Field, FieldV};
use crate::svd;
use crate::svd::{ma_info, MaybeArray};

verus! {

/// The fixed register width in bits.
pub const REG_WIDTH: u32 = 32;

/// The view of one declared bitfield once adopted into the output: name
/// lower-cased, reset fixed to zero, missing access or description defaulted
/// to the empty string.
pub open spec fn field_view(f: svd::Field) -> FieldV {
    FieldV {
        name: lower_of(f.name@),
        lsb: f.lsb as int,
        nbits: f.nbits as int,
        access: match f.access {
            Some(a) => a@,
            None => Seq::empty(),
        },
        reset: 0,
        doc: match f.description {
            Some(d) => d@,
            None => Seq::empty(),
        },
    }
}

/// The adopted views of a register's declared fields, in declaration order.
pub open spec fn reg_field_views(r: svd::Register) -> Seq<FieldV> {
    r.fields@.map_values(|m: MaybeArray<svd::Field>| field_view(ma_info(m)))
}

/// One past the most significant bit of a field.
pub open spec fn field_end(f: FieldV) -> int {
    f.lsb + f.nbits
}

/// A field lies within the register width and is at least one bit wide.
pub open spec fn field_info_ok(f: FieldV) -> bool {
    0 <= f.lsb && 1 <= f.nbits && field_end(f) <= REG_WIDTH
}

/// Two fields occupy disjoint bit ranges.
pub open spec fn fields_disjoint(a: FieldV, b: FieldV) -> bool {
    field_end(a) <= b.lsb || field_end(b) <= a.lsb
}

/// A well-formed declared field list: every field within the register width,
/// pairwise non-overlapping.
pub open spec fn fields_v_wf(s: Seq<FieldV>) -> bool {
    &&& forall|i: int| 0 <= i < s.len() ==> field_info_ok(#[trigger] s[i])
    &&& forall|i: int, j: int|
        0 <= i < s.len() && 0 <= j < s.len() && i != j ==> fields_disjoint(
            #[trigger] s[i],
            #[trigger] s[j],
        )
}

/// Ascending by least significant bit, allowing ties.
pub open spec fn sorted_by_lsb(s: Seq<FieldV>) -> bool {
    forall|i: int, j: int| 0 <= i < j < s.len() ==> (#[trigger] s[i]).lsb <= (#[trigger] s[j]).lsb
}

/// Inserts a field in front of the first present field with an equal or
/// greater least significant bit.
pub open spec fn insert_by_lsb(f: FieldV, s: Seq<FieldV>) -> Seq<FieldV>
    decreases s.len(),
{
    if s.len() == 0 {
        seq![f]
    } else if f.lsb <= s[0].lsb {
        seq![f] + s
    } else {
        seq![s[0]] + insert_by_lsb(f, s.drop_first())
    }
}

/// The declared field list sorted ascending by least significant bit.
pub open spec fn sort_by_lsb(s: Seq<FieldV>) -> Seq<FieldV>
    decreases s.len(),
{
    if s.len() == 0 {
        Seq::empty()
    } else {
        insert_by_lsb(s[0], sort_by_lsb(s.drop_first()))
    }
}

/// Where a field lands when inserted: in front of the first field with an
/// equal or greater least significant bit.
pub proof fn lemma_insert_by_lsb_at(f: FieldV, s: Seq<FieldV>, j: int)
    requires
        0 <= j <= s.len(),
        forall|k: int| 0 <= k < j ==> (#[trigger] s[k]).lsb < f.lsb,
        j < s.len() ==> f.lsb <= s[j].lsb,
    ensures
        insert_by_lsb(f, s) == s.insert(j, f),
    decreases s.len(),
{
    if s.len() == 0 {
        assert(insert_by_lsb(f, s) =~= s.insert(0, f));
    } else if f.lsb <= s[0].lsb {
        assert(j == 0);
        assert(seq![f] + s =~= s.insert(0, f));
    } else {
        assert(s[0].lsb < f.lsb);
        assert(j >= 1);
        let t = s.drop_first();
        assert(forall|k: int| 0 <= k < j - 1 ==> (#[trigger] t[k]).lsb < f.lsb) by {
            assert(forall|k: int| 0 <= k < j - 1 ==> t[k] == s[k + 1]);
        }
        lemma_insert_by_lsb_at(f, t, j - 1);
        assert(seq![s[0]] + t.insert(j - 1, f) =~= s.insert(j, f));
    }
}

/// Insertion preserves the multiset of fields.
pub proof fn lemma_insert_by_lsb_multiset(f: FieldV, s: Seq<FieldV>)
    ensures
        insert_by_lsb(f, s).to_multiset() =~= s.to_multiset().insert(f),
    decreases s.len(),
{
    broadcast use vstd::seq_lib::group_to_multiset_ensures;

    if s.len() == 0 {
        assert(seq![f] =~= Seq::<FieldV>::empty().push(f));
        assert(Seq::<FieldV>::empty().push(f).to_multiset() =~= Seq::<
            FieldV,
        >::empty().to_multiset().insert(f));
        assert(Seq::<FieldV>::empty().to_multiset() =~= Multiset::<FieldV>::empty()) by {
            assert(Seq::<FieldV>::empty().to_multiset().len() == 0);
        }
        assert(s.to_multiset() =~= Multiset::<FieldV>::empty());
    } else if f.lsb <= s[0].lsb {
        lemma_multiset_commutative(seq![f], s);
        assert(seq![f] =~= Seq::<FieldV>::empty().push(f));
        assert(seq![f].to_multiset() =~= Multiset::<FieldV>::empty().insert(f)) by {
            assert(Seq::<FieldV>::empty().to_multiset() =~= Multiset::<FieldV>::empty()) by {
                assert(Seq::<FieldV>::empty().to_multiset().len() == 0);
            }
        }
    } else {
        let t = s.drop_first();
        lemma_insert_by_lsb_multiset(f, t);
        lemma_multiset_commutative(seq![s[0]], insert_by_lsb(f, t));
        lemma_multiset_commutative(seq![s[0]], t);
        assert(seq![s[0]] + t =~= s);
    }
}

/// Insertion keeps the list sorted.
pub proof fn lemma_insert_by_lsb_sorted(f: FieldV, s: Seq<FieldV>)
    requires
        sorted_by_lsb(s),
    ensures
        sorted_by_lsb(insert_by_lsb(f, s)),
    decreases s.len(),
{
    if s.len() == 0 {
    } else if f.lsb <= s[0].lsb {
        let r = seq![f] + s;
        assert forall|i: int, j: int| 0 <= i < j < r.len() implies (#[trigger] r[i]).lsb <= (
        #[trigger] r[j]).lsb by {
            if i == 0 {
                assert(r[j] == s[j - 1]);
                if j > 1 {
                    assert(s[0].lsb <= s[j - 1].lsb);
                }
            } else {
                assert(r[i] == s[i - 1]);
                assert(r[j] == s[j - 1]);
            }
        }
    } else {
        let t = s.drop_first();
        assert(sorted_by_lsb(t)) by {
            assert(forall|i: int| 0 <= i < t.len() ==> t[i] == s[i + 1]);
        }
        lemma_insert_by_lsb_sorted(f, t);
        let u = insert_by_lsb(f, t);
        let r = seq![s[0]] + u;
        assert(u.to_multiset() =~= t.to_multiset().insert(f)) by {
            lemma_insert_by_lsb_multiset(f, t);
        }
        assert forall|i: int, j: int| 0 <= i < j < r.len() implies (#[trigger] r[i]).lsb <= (
        #[trigger] r[j]).lsb by {
            if i == 0 {
                assert(r[j] == u[j - 1]);
                assert(u.to_multiset().contains(u[j - 1])) by {
                    broadcast use vstd::seq_lib::group_to_multiset_ensures;

                    assert(u.contains(u[j - 1]));
                }
                assert(u[j - 1] == f || t.contains(u[j - 1])) by {
                    broadcast use vstd::seq_lib::group_to_multiset_ensures;

                    if u[j - 1] != f {
                        assert(t.to_multiset().count(u[j - 1]) > 0);
                    }
                }
                if u[j - 1] == f {
                    assert(s[0].lsb < f.lsb);
                } else {
                    let k = choose|k: int| 0 <= k < t.len() && t[k] == u[j - 1];
                    assert(t[k] == s[k + 1]);
                    assert(s[0].lsb <= s[k + 1].lsb);
                }
            } else {
                assert(r[i] == u[i - 1]);
                assert(r[j] == u[j - 1]);
            }
        }
    }
}

/// Sorting preserves the multiset of fields.
pub proof fn lemma_sort_by_lsb_multiset(s: Seq<FieldV>)
    ensures
        sort_by_lsb(s).to_multiset() =~= s.to_multiset(),
    decreases s.len(),
{
    broadcast use vstd::seq_lib::group_to_multiset_ensures;

    if s.len() > 0 {
        let t = s.drop_first();
        lemma_sort_by_lsb_multiset(t);
        lemma_insert_by_lsb_multiset(s[0], sort_by_lsb(t));
        assert(seq![s[0]] + t =~= s);
        lemma_multiset_commutative(seq![s[0]], t);
        assert(seq![s[0]] =~= Seq::<FieldV>::empty().push(s[0]));
        assert(Seq::<FieldV>::empty().to_multiset() =~= Multiset::<FieldV>::empty()) by {
            assert(Seq::<FieldV>::empty().to_multiset().len() == 0);
        }
        assert(seq![s[0]].to_multiset() =~= Multiset::<FieldV>::empty().insert(s[0]));
        broadcast use vstd::multiset::group_multiset_axioms;

        assert(sort_by_lsb(s).to_multiset() =~= s.to_multiset());
    }
}

/// The sorted list is sorted.
pub proof fn lemma_sort_by_lsb_sorted(s: Seq<FieldV>)
    ensures
        sorted_by_lsb(sort_by_lsb(s)),
    decreases s.len(),
{
    if s.len() > 0 {
        lemma_sort_by_lsb_sorted(s.drop_first());
        lemma_insert_by_lsb_sorted(s[0], sort_by_lsb(s.drop_first()));
    }
}

/// A well-formed field list has no duplicate fields: a field would overlap
/// itself.
pub proof fn lemma_wf_no_duplicates(s: Seq<FieldV>)
    requires
        fields_v_wf(s),
    ensures
        s.no_duplicates(),
{
    assert forall|i: int, j: int|
        0 <= i < s.len() && 0 <= j < s.len() && i != j implies s[i] != s[j] by {
        assert(fields_disjoint(s[i], s[j]));
        assert(field_info_ok(s[i]));
    }
}

/// Sorting a well-formed list yields a well-formed, strictly ascending list
/// of the same length.
pub proof fn lemma_sort_by_lsb_wf(s: Seq<FieldV>)
    requires
        fields_v_wf(s),
    ensures
        fields_v_wf(sort_by_lsb(s)),
        sorted_by_lsb(sort_by_lsb(s)),
        sort_by_lsb(s).len() == s.len(),
        forall|i: int, j: int|
            0 <= i < j < sort_by_lsb(s).len() ==> (#[trigger] sort_by_lsb(s)[i]).lsb < (
            #[trigger] sort_by_lsb(s)[j]).lsb,
        forall|i: int| 0 <= i < sort_by_lsb(s).len() ==> s.contains(#[trigger] sort_by_lsb(s)[i]),
{
    broadcast use vstd::seq_lib::group_to_multiset_ensures;

    let t = sort_by_lsb(s);
    lemma_sort_by_lsb_multiset(s);
    lemma_sort_by_lsb_sorted(s);
    assert(t.len() == s.len()) by {
        assert(t.to_multiset().len() == t.len());
        assert(s.to_multiset().len() == s.len());
    }
    assert forall|i: int| 0 <= i < t.len() implies s.contains(#[trigger] t[i]) by {
        assert(t.contains(t[i]));
        assert(t.to_multiset().count(t[i]) > 0);
        assert(s.to_multiset().count(t[i]) > 0);
    }
    lemma_wf_no_duplicates(s);
    s.lemma_multiset_has_no_duplicates();
    assert(forall|x: FieldV| t.to_multiset().contains(x) ==> t.to_multiset().count(x) == 1);
    t.lemma_multiset_has_no_duplicates_conv();
    assert forall|i: int, j: int|
        0 <= i < t.len() && 0 <= j < t.len() && i != j implies fields_disjoint(
        #[trigger] t[i],
        #[trigger] t[j],
    ) by {
        assert(s.contains(t[i]));
        assert(s.contains(t[j]));
        let p = choose|p: int| 0 <= p < s.len() && s[p] == t[i];
        let q = choose|q: int| 0 <= q < s.len() && s[q] == t[j];
        assert(t[i] != t[j]);
        assert(p != q);
        assert(fields_disjoint(s[p], s[q]));
    }
    assert forall|i: int| 0 <= i < t.len() implies field_info_ok(#[trigger] t[i]) by {
        assert(s.contains(t[i]));
        let p = choose|p: int| 0 <= p < s.len() && s[p] == t[i];
        assert(field_info_ok(s[p]));
    }
    assert forall|i: int, j: int| 0 <= i < j < t.len() implies (#[trigger] t[i]).lsb < (
    #[trigger] t[j]).lsb by {
        assert(t[i].lsb <= t[j].lsb);
        assert(fields_disjoint(t[i], t[j]));
        assert(field_info_ok(t[i]));
        assert(field_info_ok(t[j]));
    }
}

/// How many gaps lie between consecutive fields of a sorted list.
pub open spec fn num_gaps(s: Seq<FieldV>) -> int
    decreases s.len(),
{
    if s.len() <= 1 {
        0
    } else {
        (if field_end(s[0]) < s[1].lsb {
            1int
        } else {
            0int
        }) + num_gaps(s.drop_first())
    }
}

/// The name of the reserved field synthesized for the gap discovered at
/// position `k`.
pub open spec fn rsvd_name(k: int) -> Seq<char> {
    "rsvd"@ + spec_dec(k as nat)
}

/// The reserved field synthesized for the gap `[lsb, msb]`, discovered at
/// position `k`.
pub open spec fn rsvd_field(k: int, lsb: int, msb: int) -> FieldV {
    FieldV {
        name: rsvd_name(k),
        lsb,
        nbits: msb - lsb + 1,
        access: "reserved"@,
        reset: 0,
        doc: "Reserved"@,
    }
}

/// The single full-width field synthesized for a register without declared
/// fields.
pub open spec fn inferred_field() -> FieldV {
    FieldV {
        name: "inferred"@,
        lsb: 0,
        nbits: REG_WIDTH as int,
        access: "inferred"@,
        reset: 0,
        doc: "inferred"@,
    }
}

/// The sorted fields interleaved with the reserved fields for their interior
/// gaps, ascending; interior gaps are numbered from `k` upward in ascending
/// position order.
pub open spec fn weave(s: Seq<FieldV>, k: int) -> Seq<FieldV>
    decreases s.len(),
{
    if s.len() <= 1 {
        s
    } else if field_end(s[0]) < s[1].lsb {
        seq![s[0], rsvd_field(k, field_end(s[0]), s[1].lsb - 1)] + weave(s.drop_first(), k + 1)
    } else {
        seq![s[0]] + weave(s.drop_first(), k)
    }
}

/// The completed field list of a register, most significant field first:
/// the declared fields sorted ascending, interleaved with one reserved field
/// per gap — interior gaps first, then a leading gap, then a trailing gap, in
/// discovery order — and finally reversed; a register without declared
/// fields yields the single full-width inferred field.
pub open spec fn spec_collect_fields(s: Seq<FieldV>) -> Seq<FieldV> {
    if s.len() == 0 {
        seq![inferred_field()]
    } else {
        let t = sort_by_lsb(s);
        let m = num_gaps(t);
        let lead = if t[0].lsb > 0 {
            seq![rsvd_field(m, 0, t[0].lsb - 1)]
        } else {
            Seq::<FieldV>::empty()
        };
        let e = field_end(t.last());
        let trail = if e < REG_WIDTH {
            seq![rsvd_field(m + lead.len(), e, REG_WIDTH - 1)]
        } else {
            Seq::<FieldV>::empty()
        };
        (lead + weave(t, 0) + trail).reverse()
    }
}

/// The fields of `fs` tile the bit range `[lo, hi)` exactly, in ascending
/// order without gap or overlap.
pub open spec fn tiles(fs: Seq<FieldV>, lo: int, hi: int) -> bool
    decreases fs.len(),
{
    if fs.len() == 0 {
        lo == hi
    } else {
        &&& fs[0].lsb == lo
        &&& fs[0].nbits >= 1
        &&& tiles(fs.drop_first(), lo + fs[0].nbits, hi)
    }
}

/// Tilings concatenate.
pub proof fn lemma_tiles_concat(a: Seq<FieldV>, b: Seq<FieldV>, lo: int, mid: int, hi: int)
    requires
        tiles(a, lo, mid),
        tiles(b, mid, hi),
    ensures
        tiles(a + b, lo, hi),
    decreases a.len(),
{
    if a.len() == 0 {
        assert(a + b =~= b);
    } else {
        lemma_tiles_concat(a.drop_first(), b, lo + a[0].nbits, mid, hi);
        assert((a + b).drop_first() =~= a.drop_first() + b);
    }
}

/// The interleaving of a strictly sorted, pairwise disjoint field list with
/// its interior reserved fields tiles the range from the first field's least
/// significant bit to one past the last field's most significant bit.
pub proof fn lemma_weave_tiles(s: Seq<FieldV>, k: int)
    requires
        s.len() > 0,
        fields_v_wf(s),
        forall|i: int, j: int|
            0 <= i < j < s.len() ==> (#[trigger] s[i]).lsb < (#[trigger] s[j]).lsb,
    ensures
        tiles(weave(s, k), s[0].lsb, field_end(s.last())),
    decreases s.len(),
{
    assert(field_info_ok(s[0]));
    if s.len() == 1 {
        assert(tiles(weave(s, k).drop_first(), field_end(s[0]), field_end(s.last())));
    } else {
        let t = s.drop_first();
        assert(forall|i: int| 0 <= i < t.len() ==> t[i] == s[i + 1]);
        assert(fields_v_wf(t));
        assert(forall|i: int, j: int|
            0 <= i < j < t.len() ==> (#[trigger] t[i]).lsb < (#[trigger] t[j]).lsb);
        assert(t.last() == s.last());
        assert(field_end(s[0]) <= s[1].lsb) by {
            assert(fields_disjoint(s[0], s[1]));
            assert(s[0].lsb < s[1].lsb);
            assert(field_info_ok(s[1]));
        }
        if field_end(s[0]) < s[1].lsb {
            lemma_weave_tiles(t, k + 1);
            let g = rsvd_field(k, field_end(s[0]), s[1].lsb - 1);
            let a = seq![s[0], g];
            assert(tiles(a, s[0].lsb, s[1].lsb)) by {
                reveal_with_fuel(tiles, 4);
                assert(a.drop_first() =~= seq![g]);
                assert(seq![g].drop_first() =~= Seq::<FieldV>::empty());
                assert(g.lsb == field_end(s[0]));
                assert(g.nbits == s[1].lsb - field_end(s[0]));
            }
            assert(t[0] == s[1]);
            lemma_tiles_concat(a, weave(t, k + 1), s[0].lsb, s[1].lsb, field_end(s.last()));
        } else {
            lemma_weave_tiles(t, k);
            let a = seq![s[0]];
            assert(tiles(a, s[0].lsb, field_end(s[0]))) by {
                reveal_with_fuel(tiles, 4);
                assert(a.drop_first() =~= Seq::<FieldV>::empty());
            }
            assert(t[0] == s[1]);
            assert(field_end(s[0]) == s[1].lsb);
            lemma_tiles_concat(a, weave(t, k), s[0].lsb, field_end(s[0]), field_end(s.last()));
        }
    }
}

/// Whether a field covers bit position `b`.
pub open spec fn covers(f: FieldV, b: int) -> bool {
    f.lsb <= b < f.lsb + f.nbits
}

/// Whether some field of `fs` covers bit position `b`.
pub open spec fn bit_covered(fs: Seq<FieldV>, b: int) -> bool {
    exists|i: int| 0 <= i < fs.len() && covers(#[trigger] fs[i], b)
}

/// The fields partition the register width: every bit position is covered by
/// exactly one field.
pub open spec fn partition32(fs: Seq<FieldV>) -> bool {
    &&& forall|b: int| 0 <= b < REG_WIDTH ==> #[trigger] bit_covered(fs, b)
    &&& forall|i: int, j: int, b: int|
        #![trigger covers(fs[i], b), covers(fs[j], b)]
        0 <= i < fs.len() && 0 <= j < fs.len() && covers(fs[i], b) && covers(fs[j], b) ==> i == j
}

/// An exact tiling of a range covers each of its bit positions exactly once,
/// and covers nothing outside the range.
pub proof fn lemma_tiles_covers(fs: Seq<FieldV>, lo: int, hi: int)
    requires
        tiles(fs, lo, hi),
    ensures
        forall|b: int| lo <= b < hi ==> #[trigger] bit_covered(fs, b),
        forall|i: int, b: int|
            0 <= i < fs.len() && #[trigger] covers(fs[i], b) ==> lo <= b < hi,
        forall|i: int, j: int, b: int|
            #![trigger covers(fs[i], b), covers(fs[j], b)]
            0 <= i < fs.len() && 0 <= j < fs.len() && covers(fs[i], b) && covers(fs[j], b) ==> i
                == j,
    decreases fs.len(),
{
    if fs.len() > 0 {
        let t = fs.drop_first();
        lemma_tiles_covers(t, lo + fs[0].nbits, hi);
        assert(forall|i: int| 0 <= i < t.len() ==> t[i] == fs[i + 1]);
        assert(hi >= lo + fs[0].nbits) by {
            lemma_tiles_lo_le_hi(t, lo + fs[0].nbits, hi);
        }
        assert forall|b: int| lo <= b < hi implies #[trigger] bit_covered(fs, b) by {
            if b < lo + fs[0].nbits {
                assert(covers(fs[0], b));
            } else {
                assert(bit_covered(t, b));
                let i = choose|i: int| 0 <= i < t.len() && covers(t[i], b);
                assert(covers(fs[i + 1], b));
            }
        }
        assert forall|i: int, b: int|
            0 <= i < fs.len() && #[trigger] covers(fs[i], b) implies lo <= b < hi by {
            if i > 0 {
                assert(fs[i] == t[i - 1]);
            }
        }
        assert forall|i: int, j: int, b: int|
            #![trigger covers(fs[i], b), covers(fs[j], b)]
            0 <= i < fs.len() && 0 <= j < fs.len() && covers(fs[i], b) && covers(fs[j], b) implies
            i == j by {
            if i > 0 && j > 0 {
                assert(fs[i] == t[i - 1]);
                assert(fs[j] == t[j - 1]);
            } else if i == 0 && j > 0 {
                assert(fs[j] == t[j - 1]);
                assert(b < lo + fs[0].nbits);
            } else if j == 0 && i > 0 {
                assert(fs[i] == t[i - 1]);
                assert(b < lo + fs[0].nbits);
            }
        }
    }
}

/// A tiled range is not inverted.
pub proof fn lemma_tiles_lo_le_hi(fs: Seq<FieldV>, lo: int, hi: int)
    requires
        tiles(fs, lo, hi),
    ensures
        lo <= hi,
    decreases fs.len(),
{
    if fs.len() > 0 {
        lemma_tiles_lo_le_hi(fs.drop_first(), lo + fs[0].nbits, hi);
    }
}

/// The completed ascending list — leading reserved field, interleaved
/// declared and interior reserved fields, trailing reserved field — tiles
/// the whole register width.
pub proof fn lemma_complete_asc_tiles(s: Seq<FieldV>)
    requires
        s.len() > 0,
        fields_v_wf(s),
    ensures
        ({
            let t = sort_by_lsb(s);
            let m = num_gaps(t);
            let lead = if t[0].lsb > 0 {
                seq![rsvd_field(m, 0, t[0].lsb - 1)]
            } else {
                Seq::<FieldV>::empty()
            };
            let e = field_end(t.last());
            let trail = if e < REG_WIDTH {
                seq![rsvd_field(m + lead.len(), e, REG_WIDTH - 1)]
            } else {
                Seq::<FieldV>::empty()
            };
            tiles(lead + weave(t, 0) + trail, 0, REG_WIDTH as int)
        }),
{
    let t = sort_by_lsb(s);
    lemma_sort_by_lsb_wf(s);
    let m = num_gaps(t);
    let lead = if t[0].lsb > 0 {
        seq![rsvd_field(m, 0, t[0].lsb - 1)]
    } else {
        Seq::<FieldV>::empty()
    };
    let e = field_end(t.last());
    let trail = if e < REG_WIDTH {
        seq![rsvd_field(m + lead.len(), e, REG_WIDTH - 1)]
    } else {
        Seq::<FieldV>::empty()
    };
    lemma_weave_tiles(t, 0);
    assert(field_info_ok(t[0]));
    assert(field_info_ok(t.last()));
    assert(tiles(lead, 0, t[0].lsb)) by {
        reveal_with_fuel(tiles, 4);
        if t[0].lsb > 0 {
            assert(lead.drop_first() =~= Seq::<FieldV>::empty());
        }
    }
    assert(tiles(trail, e, REG_WIDTH as int)) by {
        reveal_with_fuel(tiles, 4);
        if e < REG_WIDTH {
            assert(trail.drop_first() =~= Seq::<FieldV>::empty());
        }
    }
    lemma_tiles_concat(lead, weave(t, 0), 0, t[0].lsb, e);
    lemma_tiles_concat(lead + weave(t, 0), trail, 0, e, REG_WIDTH as int);
}

/// The partition property: for a well-formed declared field list, the
/// completed field list partitions the register width — the fields'
/// bit ranges are pairwise disjoint and their union is exactly the whole
/// 32-bit range.
pub proof fn lemma_collect_fields_partition(s: Seq<FieldV>)
    requires
        fields_v_wf(s),
    ensures
        partition32(spec_collect_fields(s)),
{
    let out = spec_collect_fields(s);
    if s.len() == 0 {
        assert forall|b: int| 0 <= b < REG_WIDTH implies #[trigger] bit_covered(out, b) by {
            assert(covers(out[0], b));
        }
    } else {
        let t = sort_by_lsb(s);
        let m = num_gaps(t);
        let lead = if t[0].lsb > 0 {
            seq![rsvd_field(m, 0, t[0].lsb - 1)]
        } else {
            Seq::<FieldV>::empty()
        };
        let e = field_end(t.last());
        let trail = if e < REG_WIDTH {
            seq![rsvd_field(m + lead.len(), e, REG_WIDTH - 1)]
        } else {
            Seq::<FieldV>::empty()
        };
        let asc = lead + weave(t, 0) + trail;
        lemma_complete_asc_tiles(s);
        lemma_tiles_covers(asc, 0, REG_WIDTH as int);
        assert(out =~= asc.reverse());
        assert(out.len() == asc.len());
        let n = asc.len() as int;
        assert(forall|i: int| 0 <= i < n ==> out[i] == asc[n - 1 - i]);
        assert forall|b: int| 0 <= b < REG_WIDTH implies #[trigger] bit_covered(out, b) by {
            assert(bit_covered(asc, b));
            let i = choose|i: int| 0 <= i < asc.len() && covers(asc[i], b);
            assert(covers(out[n - 1 - i], b));
        }
        assert forall|i: int, j: int, b: int|
            #![trigger covers(out[i], b), covers(out[j], b)]
            0 <= i < out.len() && 0 <= j < out.len() && covers(out[i], b) && covers(out[j], b)
            implies i == j by {
            assert(covers(asc[n - 1 - i], b));
            assert(covers(asc[n - 1 - j], b));
        }
    }
}

/// A register without declared fields yields exactly one field: the
/// full-width inferred field.
pub proof fn lemma_collect_fields_empty(s: Seq<FieldV>)
    requires
        s.len() == 0,
    ensures
        spec_collect_fields(s) == seq![inferred_field()],
        spec_collect_fields(s).len() == 1,
        spec_collect_fields(s)[0].lsb == 0,
        spec_collect_fields(s)[0].nbits == REG_WIDTH,
        spec_collect_fields(s)[0].access == "inferred"@,
{
}

/// If the sorted declared fields already tile the whole register width —
/// every pair of neighbours touches, the first starts at bit 0, and the last
/// ends at the top bit — the interleaving adds nothing.
pub proof fn lemma_weave_id(s: Seq<FieldV>, k: int, hi: int)
    requires
        s.len() > 0,
        tiles(s, s[0].lsb, hi),
    ensures
        weave(s, k) == s,
    decreases s.len(),
{
    if s.len() > 1 {
        let t = s.drop_first();
        assert(tiles(t, s[0].lsb + s[0].nbits, hi));
        assert(t[0] == s[1]);
        assert(s[1].lsb == field_end(s[0]));
        lemma_weave_id(t, k, hi);
        assert(seq![s[0]] + t =~= s);
    }
}

/// A non-empty tiling ends exactly at the top of its range.
pub proof fn lemma_tiles_last_end(fs: Seq<FieldV>, lo: int, hi: int)
    requires
        tiles(fs, lo, hi),
        fs.len() > 0,
    ensures
        field_end(fs.last()) == hi,
    decreases fs.len(),
{
    let t = fs.drop_first();
    if t.len() == 0 {
        assert(tiles(t, lo + fs[0].nbits, hi));
    } else {
        lemma_tiles_last_end(t, lo + fs[0].nbits, hi);
        assert(t.last() == fs.last());
    }
}

/// Touching fields produce no reserved gap: when the sorted declared fields
/// already tile the whole register width, the completed list is exactly the
/// declared fields, most significant first, with nothing synthesized.
pub proof fn lemma_collect_fields_no_gaps(s: Seq<FieldV>)
    requires
        s.len() > 0,
        fields_v_wf(s),
        tiles(sort_by_lsb(s), 0, REG_WIDTH as int),
    ensures
        spec_collect_fields(s) == sort_by_lsb(s).reverse(),
{
    let t = sort_by_lsb(s);
    lemma_sort_by_lsb_wf(s);
    assert(t[0].lsb == 0);
    lemma_tiles_last_end(t, 0, REG_WIDTH as int);
    lemma_weave_id(t, 0, REG_WIDTH as int);
    assert(Seq::<FieldV>::empty() + weave(t, 0) + Seq::<FieldV>::empty() =~= t);
}

/// Well-formedness carries from the declared field list to its adopted
/// views: the bit numbers are unchanged.
pub proof fn lemma_field_views_wf(r: svd::Register)
    requires
        svd::field_list_wf(r.fields@.map_values(|m: MaybeArray<svd::Field>| ma_info(m))),
    ensures
        fields_v_wf(reg_field_views(r)),
{
    let infos = r.fields@.map_values(|m: MaybeArray<svd::Field>| ma_info(m));
    let views = reg_field_views(r);
    assert(infos.len() == views.len());
    assert forall|i: int| 0 <= i < views.len() implies field_info_ok(#[trigger] views[i]) by {
        assert(svd::field_info_wf(infos[i]));
        assert(views[i] == field_view(ma_info(r.fields@[i])));
        assert(infos[i] == ma_info(r.fields@[i]));
    }
    assert forall|i: int, j: int|
        0 <= i < views.len() && 0 <= j < views.len() && i != j implies fields_disjoint(
        #[trigger] views[i],
        #[trigger] views[j],
    ) by {
        assert(infos[i] == ma_info(r.fields@[i]));
        assert(infos[j] == ma_info(r.fields@[j]));
        assert(views[i] == field_view(ma_info(r.fields@[i])));
        assert(views[j] == field_view(ma_info(r.fields@[j])));
        assert(infos[i].lsb + infos[i].nbits <= infos[j].lsb || infos[j].lsb + infos[j].nbits
            <= infos[i].lsb);
    }
}

fn rsvd_exec(k: usize, lsb: u32, msb: u32) -> (r: Field)
    requires
        lsb <= msb,
        msb < REG_WIDTH,
    ensures
        r@ == rsvd_field(k as int, lsb as int, msb as int),
{
    let mut name = String::from_str("rsvd");
    name.append(crate::ident::usize_dec(k).as_str());
    let r = Field {
        name,
        lsb,
        nbits: msb - lsb + 1,
        access: String::from_str("reserved"),
        reset: 0,
        doc: String::from_str("Reserved"),
    };
    proof {
        assert(r@ =~= rsvd_field(k as int, lsb as int, msb as int));
    }
    r
}

fn inferred_exec() -> (r: Field)
    ensures
        r@ == inferred_field(),
{
    let r = Field {
        name: String::from_str("inferred"),
        lsb: 0,
        nbits: REG_WIDTH,
        access: String::from_str("inferred"),
        reset: 0,
        doc: String::from_str("inferred"),
    };
    proof {
        assert(r@ =~= inferred_field());
    }
    r
}

/// Completes a register's declared bitfields: adopts each declared field
/// with a lower-cased name and defaulted metadata, sorts ascending, fills
/// every gap of the 32-bit width with a synthesized reserved field, and
/// returns the list most significant field first; a register without
/// declared fields yields the single full-width inferred field.
pub fn collect_fields(register: &svd::Register) -> (r: Vec<Field>)
    requires
        svd::field_list_wf(
            register.fields@.map_values(|m: MaybeArray<svd::Field>| ma_info(m)),
        ),
        !svd::reg_has_array_field(*register),
    ensures
        r@.map_values(|f: Field| f@) == spec_collect_fields(reg_field_views(*register)),
{
    let ghost views = reg_field_views(*register);
    proof {
        lemma_field_views_wf(*register);
    }
    let n = register.fields.len();
    if n == 0 {
        let mut out: Vec<Field> = Vec::new();
        out.push(inferred_exec());
        proof {
            assert(out@.map_values(|f: Field| f@) =~= seq![inferred_field()]);
        }
        return out;
    }
    let mut sorted: Vec<Field> = Vec::new();
    let mut i: usize = n;
    while i > 0
        invariant
            i <= n,
            n == register.fields@.len(),
            views == reg_field_views(*register),
            fields_v_wf(views),
            sorted@.map_values(|f: Field| f@) == sort_by_lsb(views.skip(i as int)),
        decreases i,
    {
        i = i - 1;
        let ghost prev_map = sorted@.map_values(|f: Field| f@);
        let fsrc = match &register.fields[i] {
            MaybeArray::Single(f) => f,
            MaybeArray::Array(f, _) => f,
        };
        let name = lowercase(fsrc.name.as_str());
        let access = match &fsrc.access {
            Some(a) => a.clone(),
            None => String::new(),
        };
        let doc = match &fsrc.description {
            Some(d) => d.clone(),
            None => String::new(),
        };
        let fld = Field { name, lsb: fsrc.lsb, nbits: fsrc.nbits, access, reset: 0, doc };
        proof {
            assert(*fsrc == ma_info(register.fields@[i as int]));
            assert(fld@ =~= views[i as int]);
        }
        let mut j: usize = 0;
        while j < sorted.len() && sorted[j].lsb < fld.lsb
            invariant
                j <= sorted@.len(),
                sorted@.map_values(|f: Field| f@) == prev_map,
                fld@.lsb == fld.lsb as int,
                forall|k: int| 0 <= k < j ==> (#[trigger] prev_map[k]).lsb < fld@.lsb,
            decreases sorted@.len() - j,
        {
            proof {
                assert(prev_map[j as int] == sorted@[j as int]@);
            }
            j = j + 1;
        }
        proof {
            if j < sorted.len() {
                assert(prev_map[j as int] == sorted@[j as int]@);
            }
            lemma_insert_by_lsb_at(fld@, prev_map, j as int);
        }
        sorted.insert(j, fld);
        proof {
            assert(sorted@.map_values(|f: Field| f@) =~= prev_map.insert(j as int, fld@));
            assert(views.skip(i as int).drop_first() =~= views.skip(i as int + 1));
            assert(views.skip(i as int)[0] == views[i as int]);
            assert(sort_by_lsb(views.skip(i as int)) == insert_by_lsb(
                views[i as int],
                sort_by_lsb(views.skip(i as int + 1)),
            ));
        }
    }
    let ghost t = sort_by_lsb(views);
    proof {
        assert(views.skip(0) =~= views);
        lemma_sort_by_lsb_wf(views);
        assert(sorted@.map_values(|f: Field| f@) == t);
        assert(t.len() == views.len());
        assert(views.len() == n);
        assert(t.skip(0) =~= t);
    }
    let sn = sorted.len();
    let mut m: usize = 0;
    let mut i2: usize = 0;
    while i2 + 1 < sn
        invariant
            i2 < sn,
            sn == t.len(),
            m <= i2,
            sorted@.map_values(|f: Field| f@) == t,
            fields_v_wf(t),
            m + num_gaps(t.skip(i2 as int)) == num_gaps(t),
        decreases sn - i2,
    {
        proof {
            assert(t[i2 as int] == sorted@[i2 as int]@);
            assert(t[i2 as int + 1] == sorted@[i2 as int + 1]@);
            assert(field_info_ok(t[i2 as int]));
            assert(t.skip(i2 as int).drop_first() =~= t.skip(i2 as int + 1));
            assert(t.skip(i2 as int)[0] == t[i2 as int]);
            assert(t.skip(i2 as int)[1] == t[i2 as int + 1]);
        }
        let end = sorted[i2].lsb + sorted[i2].nbits;
        if end < sorted[i2 + 1].lsb {
            m = m + 1;
        }
        i2 = i2 + 1;
    }
    proof {
        assert(i2 == sn - 1);
        assert(t.skip(i2 as int).len() <= 1);
        assert(num_gaps(t.skip(i2 as int)) == 0);
        assert(m == num_gaps(t));
    }
    let ghost mg = num_gaps(t);
    let ghost lead_s = if t[0].lsb > 0 {
        seq![rsvd_field(mg, 0, t[0].lsb - 1)]
    } else {
        Seq::<FieldV>::empty()
    };
    let ghost e_s = field_end(t.last());
    let ghost trail_s = if e_s < REG_WIDTH {
        seq![rsvd_field(mg + lead_s.len(), e_s, REG_WIDTH - 1)]
    } else {
        Seq::<FieldV>::empty()
    };
    let mut asc: Vec<Field> = Vec::new();
    proof {
        assert(t[0] == sorted@[0]@);
        assert(field_info_ok(t[0]));
    }
    let lead_present: bool = sorted[0].lsb > 0;
    if lead_present {
        let g = rsvd_exec(m, 0, sorted[0].lsb - 1);
        asc.push(g);
    }
    proof {
        assert(asc@.map_values(|f: Field| f@) =~= lead_s);
        assert(t.skip(0) =~= t);
    }
    let mut k: usize = 0;
    let mut i3: usize = 0;
    while i3 < sn
        invariant
            i3 <= sn,
            k <= i3 + 1,
            sn == t.len(),
            sorted@.map_values(|f: Field| f@) == t,
            fields_v_wf(t),
            asc@.map_values(|f: Field| f@) + weave(t.skip(i3 as int), k as int) == lead_s
                + weave(t, 0),
        decreases sn - i3,
    {
        proof {
            assert(t[i3 as int] == sorted@[i3 as int]@);
            assert(field_info_ok(t[i3 as int]));
            assert(t.skip(i3 as int)[0] == t[i3 as int]);
            assert(t.skip(i3 as int).drop_first() =~= t.skip(i3 as int + 1));
            if i3 + 1 < sn {
                assert(t[i3 as int + 1] == sorted@[i3 as int + 1]@);
                assert(t.skip(i3 as int)[1] == t[i3 as int + 1]);
            }
        }
        let ghost asc_prev = asc@.map_values(|f: Field| f@);
        let fld = sorted[i3].clone();
        asc.push(fld);
        if i3 + 1 < sn {
            let end = sorted[i3].lsb + sorted[i3].nbits;
            if end < sorted[i3 + 1].lsb {
                let g = rsvd_exec(k, end, sorted[i3 + 1].lsb - 1);
                asc.push(g);
                proof {
                    assert(asc@.map_values(|f: Field| f@) =~= asc_prev + seq![
                        t[i3 as int],
                        rsvd_field(k as int, field_end(t[i3 as int]), t[i3 as int + 1].lsb - 1),
                    ]);
                }
                k = k + 1;
            } else {
                proof {
                    assert(asc@.map_values(|f: Field| f@) =~= asc_prev + seq![t[i3 as int]]);
                }
            }
        } else {
            proof {
                assert(asc@.map_values(|f: Field| f@) =~= asc_prev + seq![t[i3 as int]]);
                assert(weave(t.skip(i3 as int), k as int) == t.skip(i3 as int));
                assert(t.skip(i3 as int) =~= seq![t[i3 as int]]);
                assert(weave(t.skip(i3 as int + 1), k as int) == Seq::<FieldV>::empty());
            }
        }
        i3 = i3 + 1;
        proof {
            assert(asc@.map_values(|f: Field| f@) + weave(t.skip(i3 as int), k as int) =~= lead_s
                + weave(t, 0));
        }
    }
    proof {
        assert(t.skip(sn as int) =~= Seq::<FieldV>::empty());
        assert(weave(t.skip(sn as int), k as int) == Seq::<FieldV>::empty());
        assert(asc@.map_values(|f: Field| f@) =~= lead_s + weave(t, 0));
        assert(t[sn - 1] == sorted@[sn - 1]@);
        assert(t.last() == t[sn - 1]);
        assert(field_info_ok(t.last()));
    }
    let e_exec = sorted[sn - 1].lsb + sorted[sn - 1].nbits;
    if e_exec < REG_WIDTH {
        let idx = if lead_present {
            m + 1
        } else {
            m
        };
        let g = rsvd_exec(idx, e_exec, REG_WIDTH - 1);
        asc.push(g);
    }
    proof {
        assert(asc@.map_values(|f: Field| f@) =~= lead_s + weave(t, 0) + trail_s);
    }
    let ghost asc_map = lead_s + weave(t, 0) + trail_s;
    let mut out: Vec<Field> = Vec::new();
    let mut i4: usize = asc.len();
    while i4 > 0
        invariant
            i4 <= asc@.len(),
            asc@.map_values(|f: Field| f@) == asc_map,
            out@.map_values(|f: Field| f@) == asc_map.skip(i4 as int).reverse(),
        decreases i4,
    {
        i4 = i4 - 1;
        let ghost om = out@.map_values(|f: Field| f@);
        let fld = asc[i4].clone();
        proof {
            assert(asc_map[i4 as int] == asc@[i4 as int]@);
            assert(fld@ == asc_map[i4 as int]);
        }
        out.push(fld);
        proof {
            assert(out@.map_values(|f: Field| f@) =~= om.push(asc_map[i4 as int]));
            assert(om.push(asc_map[i4 as int]) =~= asc_map.skip(i4 as int).reverse()) by {
                assert(asc_map.skip(i4 as int + 1).reverse().len() == asc_map.len() - i4 - 1);
                assert(forall|p: int|
                    0 <= p < asc_map.len() - i4 - 1 ==> #[trigger] asc_map.skip(
                        i4 as int + 1,
                    ).reverse()[p] == asc_map[asc_map.len() - 1 - p]);
                assert(forall|p: int|
                    0 <= p < asc_map.len() - i4 ==> #[trigger] asc_map.skip(
                        i4 as int,
                    ).reverse()[p] == asc_map[asc_map.len() - 1 - p]);
            }
        }
    }
    proof {
        assert(asc_map.skip(0) =~= asc_map);
        assert(out@.map_values(|f: Field| f@) == asc_map.reverse());
        assert(spec_collect_fields(views) == asc_map.reverse());
    }
    out
}

} // verus!
