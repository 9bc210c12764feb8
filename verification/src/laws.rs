//! The laws the catalog obeys: the transform is a function of its input,
//! registry keys are unique and equal the elements' identifiers, every
//! register element's fields partition the register width, and with
//! collision-free identifiers the registry lists the pre-order pairs
//! verbatim.

use vstd::prelude::*;
use crate::fields::{
    lemma_collect_fields_partition, lemma_field_views_wf, partition32, reg_field_views,
};
use crate::rdf::{ElementTypeV, ElementV, Rdf};
use crate::registry::{
    distinct_keys, lemma_insert_all_distinct, lemma_insert_all_fresh, lemma_insert_all_pairs,
    spec_insert_all,
};
use crate::svd;
use crate::svd::{ma_info, MaybeArray};
use crate::visit::{
    cluster_insts, periphs_pairs, rc_pairs, rcs_pairs, rdf_matches_device, reg_elem, reg_insts,
};

verus! {

/// The transform is a function of its input: any two catalogs built from the
/// same device agree on the schema tag, the whole root descriptor, and the
/// registry contents in order — running the transform twice yields identical
/// catalogs.
pub proof fn lemma_transform_deterministic(d: svd::Device, a: Rdf, b: Rdf)
    requires
        rdf_matches_device(a, d),
        rdf_matches_device(b, d),
    ensures
        a.schema.version@ == b.schema.version@,
        a.root.name@ == b.root.name@,
        a.root.display_name@ == b.root.display_name@,
        a.root.version@ == b.root.version@,
        a.root.children@.map_values(|s: String| s@) == b.root.children@.map_values(
            |s: String| s@,
        ),
        crate::registry::entries(a.elements) == crate::registry::entries(b.elements),
{
}

/// All identifiers in the registry are distinct, for any device at all: the
/// registry is a map, and an insertion either appends a fresh key or updates
/// an existing one in place.
pub proof fn lemma_registry_ids_distinct(d: svd::Device)
    ensures
        distinct_keys(
            spec_insert_all(
                Seq::<(Seq<char>, ElementV)>::empty(),
                periphs_pairs(d.peripherals@),
            ),
        ),
{
    lemma_insert_all_distinct(
        Seq::<(Seq<char>, ElementV)>::empty(),
        periphs_pairs(d.peripherals@),
    );
}

/// A registry pair is sound when its key equals its element's identifier and,
/// for a register element, the fields partition the register width.
pub open spec fn pair_ok(pr: (Seq<char>, ElementV)) -> bool {
    &&& pr.0 == pr.1.id
    &&& match pr.1.typ {
        ElementTypeV::Reg { fields } => partition32(fields),
        _ => true,
    }
}

proof fn lemma_reg_insts_ok(
    path: Seq<char>,
    base: int,
    r: svd::Register,
    i: int,
    count: int,
    inc: int,
)
    requires
        svd::field_list_wf(r.fields@.map_values(|m: MaybeArray<svd::Field>| ma_info(m))),
    ensures
        forall|q: int|
            0 <= q < reg_insts(path, base, r, i, count, inc).len() ==> pair_ok(
                #[trigger] reg_insts(path, base, r, i, count, inc)[q],
            ),
    decreases count - i,
{
    if i < count {
        let ps = reg_insts(path, base, r, i, count, inc);
        let rest = reg_insts(path, base, r, i + 1, count, inc);
        lemma_reg_insts_ok(path, base, r, i + 1, count, inc);
        lemma_field_views_wf(r);
        lemma_collect_fields_partition(reg_field_views(r));
        assert(pair_ok((reg_elem(path, base, r, i, inc).id, reg_elem(path, base, r, i, inc))));
        assert forall|q: int| 0 <= q < ps.len() implies pair_ok(#[trigger] ps[q]) by {
            if q > 0 {
                assert(ps[q] == rest[q - 1]);
            }
        }
    }
}

proof fn lemma_cluster_insts_ok(
    path: Seq<char>,
    base: int,
    c: svd::Cluster,
    i: int,
    count: int,
    inc: int,
)
    requires
        svd::rcs_wf(base + c.address_offset, c.children@),
    ensures
        forall|q: int|
            0 <= q < cluster_insts(path, base, c, i, count, inc).len() ==> pair_ok(
                #[trigger] cluster_insts(path, base, c, i, count, inc)[q],
            ),
    decreases c, count - i,
{
    if i < count {
        let ps = cluster_insts(path, base, c, i, count, inc);
        let blk = crate::visit::cluster_block_elem(path, base, c, i, inc);
        let mid = rcs_pairs(blk.id, base + c.address_offset, c.children@);
        let rest = cluster_insts(path, base, c, i + 1, count, inc);
        lemma_rcs_pairs_ok(blk.id, base + c.address_offset, c.children@);
        lemma_cluster_insts_ok(path, base, c, i + 1, count, inc);
        assert(pair_ok((blk.id, blk)));
        assert forall|q: int| 0 <= q < ps.len() implies pair_ok(#[trigger] ps[q]) by {
            if q == 0 {
                assert(ps[q] == (blk.id, blk));
            } else if q < 1 + mid.len() {
                assert(ps[q] == (seq![(blk.id, blk)] + mid)[q]);
                assert(ps[q] == mid[q - 1]);
            } else {
                assert(ps[q] == rest[q - 1 - mid.len()]);
            }
        }
    }
}

proof fn lemma_rc_pairs_ok(path: Seq<char>, base: int, rc: svd::RegisterCluster)
    requires
        svd::rc_wf(base, rc),
    ensures
        forall|q: int|
            0 <= q < rc_pairs(path, base, rc).len() ==> pair_ok(
                #[trigger] rc_pairs(path, base, rc)[q],
            ),
    decreases rc, 0int,
{
    match rc {
        svd::RegisterCluster::Register(MaybeArray::Single(r)) => {
            lemma_reg_insts_ok(path, base, r, 0, 1, 0);
            assert(rc_pairs(path, base, rc) == reg_insts(path, base, r, 0, 1, 0));
        },
        svd::RegisterCluster::Register(MaybeArray::Array(r, d)) => {
            lemma_reg_insts_ok(path, base, r, 0, d.dim as int, d.dim_increment as int);
            assert(rc_pairs(path, base, rc) == reg_insts(
                path,
                base,
                r,
                0,
                d.dim as int,
                d.dim_increment as int,
            ));
        },
        svd::RegisterCluster::Cluster(MaybeArray::Single(c)) => {
            lemma_cluster_insts_ok(path, base, c, 0, 1, 0);
            assert(rc_pairs(path, base, rc) == cluster_insts(path, base, c, 0, 1, 0));
        },
        svd::RegisterCluster::Cluster(MaybeArray::Array(c, d)) => {
            lemma_cluster_insts_ok(path, base, c, 0, d.dim as int, d.dim_increment as int);
            assert(rc_pairs(path, base, rc) == cluster_insts(
                path,
                base,
                c,
                0,
                d.dim as int,
                d.dim_increment as int,
            ));
        },
    }
}

proof fn lemma_rcs_pairs_ok(path: Seq<char>, base: int, rcs: Seq<svd::RegisterCluster>)
    requires
        svd::rcs_wf(base, rcs),
    ensures
        forall|q: int|
            0 <= q < rcs_pairs(path, base, rcs).len() ==> pair_ok(
                #[trigger] rcs_pairs(path, base, rcs)[q],
            ),
    decreases rcs, 1int,
{
    if rcs.len() > 0 {
        let ps = rcs_pairs(path, base, rcs);
        let head = rc_pairs(path, base, rcs[0]);
        let rest = rcs_pairs(path, base, rcs.drop_first());
        assert(svd::rc_wf(base, rcs[0]));
        lemma_rc_pairs_ok(path, base, rcs[0]);
        assert(svd::rcs_wf(base, rcs.drop_first())) by {
            assert(forall|q: int|
                0 <= q < rcs.drop_first().len() ==> #[trigger] rcs.drop_first()[q] == rcs[q + 1]);
        }
        lemma_rcs_pairs_ok(path, base, rcs.drop_first());
        assert forall|q: int| 0 <= q < ps.len() implies pair_ok(#[trigger] ps[q]) by {
            if q < head.len() {
                assert(ps[q] == head[q]);
            } else {
                assert(ps[q] == rest[q - head.len()]);
            }
        }
    }
}

proof fn lemma_periphs_pairs_ok(ps: Seq<MaybeArray<svd::Peripheral>>)
    requires
        forall|i: int|
            0 <= i < ps.len() ==> svd::rcs_wf(
                ma_info(#[trigger] ps[i]).base_address as int,
                ma_info(ps[i]).registers@,
            ),
    ensures
        forall|q: int|
            0 <= q < periphs_pairs(ps).len() ==> pair_ok(#[trigger] periphs_pairs(ps)[q]),
    decreases ps.len(),
{
    if ps.len() > 0 {
        let whole = periphs_pairs(ps);
        let head = crate::visit::peripheral_pairs(ma_info(ps[0]));
        let rest = periphs_pairs(ps.drop_first());
        let p = ma_info(ps[0]);
        let path = crate::ident::lower_of(p.name@);
        lemma_rcs_pairs_ok(path, p.base_address as int, p.registers@);
        assert(pair_ok(head[0]));
        assert forall|q: int| 0 <= q < head.len() implies pair_ok(#[trigger] head[q]) by {
            if q > 0 {
                let tail = rcs_pairs(path, p.base_address as int, p.registers@);
                assert(head[q] == tail[q - 1]);
            }
        }
        assert(forall|i: int|
            0 <= i < ps.drop_first().len() ==> #[trigger] ps.drop_first()[i] == ps[i + 1]);
        lemma_periphs_pairs_ok(ps.drop_first());
        assert forall|q: int| 0 <= q < whole.len() implies pair_ok(#[trigger] whole[q]) by {
            if q < head.len() {
                assert(whole[q] == head[q]);
            } else {
                assert(whole[q] == rest[q - head.len()]);
            }
        }
    }
}

/// Identifiers are unique, equal their registry key, and every register
/// element's fields partition the register width: in the registry of a catalog built from a
/// well-formed device, all keys are pairwise distinct, each key equals its
/// element's identifier, and the fields of every register element cover
/// every bit of the 32-bit width exactly once.
pub proof fn lemma_catalog_invariants(d: svd::Device)
    requires
        svd::device_wf(d),
    ensures
        ({
            let reg = spec_insert_all(
                Seq::<(Seq<char>, ElementV)>::empty(),
                periphs_pairs(d.peripherals@),
            );
            &&& distinct_keys(reg)
            &&& forall|i: int| 0 <= i < reg.len() ==> pair_ok(#[trigger] reg[i])
        }),
{
    let empty = Seq::<(Seq<char>, ElementV)>::empty();
    let ps = periphs_pairs(d.peripherals@);
    lemma_insert_all_distinct(empty, ps);
    lemma_periphs_pairs_ok(d.peripherals@);
    lemma_insert_all_pairs(empty, ps, |pr: (Seq<char>, ElementV)| pair_ok(pr));
    let reg = spec_insert_all(empty, ps);
    assert forall|i: int| 0 <= i < reg.len() implies pair_ok(#[trigger] reg[i]) by {
        let p = |pr: (Seq<char>, ElementV)| pair_ok(pr);
        assert(p(reg[i]));
    }
}

/// Order is preserved: when the pre-order pairs of the device carry pairwise
/// distinct identifiers, the registry lists exactly those pairs in pre-order
/// — parent before children, left to right, array instances in ascending
/// index order.
pub proof fn lemma_registry_preserves_order(d: svd::Device)
    requires
        forall|i: int, j: int|
            0 <= i < periphs_pairs(d.peripherals@).len() && 0 <= j < periphs_pairs(
                d.peripherals@,
            ).len() && i != j ==> (#[trigger] periphs_pairs(d.peripherals@)[i]).0 != (
            #[trigger] periphs_pairs(d.peripherals@)[j]).0,
    ensures
        spec_insert_all(
            Seq::<(Seq<char>, ElementV)>::empty(),
            periphs_pairs(d.peripherals@),
        ) == periphs_pairs(d.peripherals@),
{
    let empty = Seq::<(Seq<char>, ElementV)>::empty();
    let ps = periphs_pairs(d.peripherals@);
    assert forall|i: int| 0 <= i < ps.len() implies !crate::registry::has_key(
        empty,
        (#[trigger] ps[i]).0,
    ) by {
        if crate::registry::has_key(empty, ps[i].0) {
            let j = choose|j: int| crate::registry::key_at(empty, ps[i].0, j);
        }
    }
    lemma_insert_all_fresh(empty, ps);
    assert(empty + ps =~= ps);
}

} // verus!
