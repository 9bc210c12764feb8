//! The visitors: expand peripherals, clusters, and registers — singular or
//! array-repeated — into catalog elements with resolved addresses, and the
//! device transform that assembles the whole catalog.

use vstd::prelude::*;
use indexmap::IndexMap;
use crate::fields::{collect_fields, reg_field_views, spec_collect_fields};
use crate::ident::{dotted, instance_id, lowercase, lower_of, spec_dotted, spec_instance_id};
use crate::rdf::{Element, ElementType, ElementTypeV, ElementV, Rdf, Root, Schema};
use crate::registry::{entries, registry_insert, registry_new, spec_insert_all};
use crate::svd;
use crate::svd::{ma_info, MaybeArray};

verus! {

/// The schema version tag this transform emits.
pub open spec fn spec_schema_version() -> Seq<char> {
    "v0.2"@
}

/// A missing description defaults to the empty string.
pub open spec fn opt_view(o: Option<String>) -> Seq<char> {
    match o {
        Some(s) => s@,
        None => Seq::empty(),
    }
}

/// The identifiers of instances `i..count` of a template name under a parent
/// path.
pub open spec fn inst_ids_from(path: Seq<char>, name: Seq<char>, i: int, count: int) -> Seq<
    Seq<char>,
>
    decreases count - i,
{
    if i >= count {
        Seq::empty()
    } else {
        seq![spec_dotted(path, spec_instance_id(lower_of(name), i))] + inst_ids_from(
            path,
            name,
            i + 1,
            count,
        )
    }
}

/// The per-instance identifiers one child contributes, in index order.
pub open spec fn rc_child_ids(path: Seq<char>, rc: svd::RegisterCluster) -> Seq<Seq<char>> {
    match rc {
        svd::RegisterCluster::Register(MaybeArray::Single(r)) => inst_ids_from(
            path,
            r.name@,
            0,
            1,
        ),
        svd::RegisterCluster::Register(MaybeArray::Array(r, d)) => inst_ids_from(
            path,
            r.name@,
            0,
            d.dim as int,
        ),
        svd::RegisterCluster::Cluster(MaybeArray::Single(c)) => inst_ids_from(path, c.name@, 0, 1),
        svd::RegisterCluster::Cluster(MaybeArray::Array(c, d)) => inst_ids_from(
            path,
            c.name@,
            0,
            d.dim as int,
        ),
    }
}

/// The direct child identifiers of a scope, one level down, in declaration
/// order with array instances in ascending index order.
pub open spec fn rcs_child_ids(path: Seq<char>, rcs: Seq<svd::RegisterCluster>) -> Seq<Seq<char>>
    decreases rcs.len(),
{
    if rcs.len() == 0 {
        Seq::empty()
    } else {
        rc_child_ids(path, rcs[0]) + rcs_child_ids(path, rcs.drop_first())
    }
}

/// The register element for instance `i` of a register template.
pub open spec fn reg_elem(
    path: Seq<char>,
    base: int,
    r: svd::Register,
    i: int,
    inc: int,
) -> ElementV {
    let nm = spec_instance_id(lower_of(r.name@), i);
    let off = r.address_offset + i * inc;
    ElementV {
        typ: ElementTypeV::Reg { fields: spec_collect_fields(reg_field_views(r)) },
        id: spec_dotted(path, nm),
        name: nm,
        addr: base + off,
        offset: off,
        doc: opt_view(r.description),
    }
}

/// The registry pairs for instances `i..count` of a register template, in
/// index order.
pub open spec fn reg_insts(
    path: Seq<char>,
    base: int,
    r: svd::Register,
    i: int,
    count: int,
    inc: int,
) -> Seq<(Seq<char>, ElementV)>
    decreases count - i,
{
    if i >= count {
        Seq::empty()
    } else {
        seq![(reg_elem(path, base, r, i, inc).id, reg_elem(path, base, r, i, inc))] + reg_insts(
            path,
            base,
            r,
            i + 1,
            count,
            inc,
        )
    }
}

/// The block element for instance `i` of a cluster template: its address
/// includes the per-instance increment, its children are the cluster's
/// direct children under the instance's path.
pub open spec fn cluster_block_elem(
    path: Seq<char>,
    base: int,
    c: svd::Cluster,
    i: int,
    inc: int,
) -> ElementV {
    let nm = spec_instance_id(lower_of(c.name@), i);
    let id = spec_dotted(path, nm);
    let off = c.address_offset + i * inc;
    ElementV {
        typ: ElementTypeV::Blk { children: rcs_child_ids(id, c.children@) },
        id,
        name: nm,
        addr: base + off,
        offset: off,
        doc: opt_view(c.description),
    }
}

/// The registry pairs for instances `i..count` of a cluster template: each
/// instance's block element followed by the pairs of the cluster's children
/// under the instance's path — recursing with the cluster's nominal base
/// (the enclosing base plus the cluster's own offset, without the
/// per-instance increment).
pub open spec fn cluster_insts(
    path: Seq<char>,
    base: int,
    c: svd::Cluster,
    i: int,
    count: int,
    inc: int,
) -> Seq<(Seq<char>, ElementV)>
    decreases c, count - i,
{
    if i >= count {
        Seq::empty()
    } else {
        let blk = cluster_block_elem(path, base, c, i, inc);
        seq![(blk.id, blk)] + rcs_pairs(blk.id, base + c.address_offset, c.children@)
            + cluster_insts(path, base, c, i + 1, count, inc)
    }
}

/// The registry pairs one child contributes.
pub open spec fn rc_pairs(path: Seq<char>, base: int, rc: svd::RegisterCluster) -> Seq<
    (Seq<char>, ElementV),
>
    decreases rc, 0int,
{
    match rc {
        svd::RegisterCluster::Register(MaybeArray::Single(r)) => reg_insts(path, base, r, 0, 1, 0),
        svd::RegisterCluster::Register(MaybeArray::Array(r, d)) => reg_insts(
            path,
            base,
            r,
            0,
            d.dim as int,
            d.dim_increment as int,
        ),
        svd::RegisterCluster::Cluster(MaybeArray::Single(c)) => cluster_insts(
            path,
            base,
            c,
            0,
            1,
            0,
        ),
        svd::RegisterCluster::Cluster(MaybeArray::Array(c, d)) => cluster_insts(
            path,
            base,
            c,
            0,
            d.dim as int,
            d.dim_increment as int,
        ),
    }
}

/// The registry pairs of a scope's children, in declaration order.
pub open spec fn rcs_pairs(path: Seq<char>, base: int, rcs: Seq<svd::RegisterCluster>) -> Seq<
    (Seq<char>, ElementV),
>
    decreases rcs, 0int,
{
    if rcs.len() == 0 {
        Seq::empty()
    } else {
        rc_pairs(path, base, rcs[0]) + rcs_pairs(path, base, rcs.drop_first())
    }
}

/// The registry pairs of one peripheral: its own block element first, then
/// its children in pre-order.
pub open spec fn peripheral_pairs(p: svd::Peripheral) -> Seq<(Seq<char>, ElementV)> {
    let path = lower_of(p.name@);
    let blk = ElementV {
        typ: ElementTypeV::Blk { children: rcs_child_ids(path, p.registers@) },
        id: path,
        name: path,
        addr: p.base_address as int,
        offset: p.base_address as int,
        doc: opt_view(p.description),
    };
    seq![(path, blk)] + rcs_pairs(path, p.base_address as int, p.registers@)
}

/// The registry pairs of the whole device: each peripheral in declaration
/// order.
pub open spec fn periphs_pairs(ps: Seq<MaybeArray<svd::Peripheral>>) -> Seq<(Seq<char>, ElementV)>
    decreases ps.len(),
{
    if ps.len() == 0 {
        Seq::empty()
    } else {
        peripheral_pairs(ma_info(ps[0])) + periphs_pairs(ps.drop_first())
    }
}

/// The root's children: the lower-cased peripheral names in declaration
/// order.
pub open spec fn root_children(d: svd::Device) -> Seq<Seq<char>> {
    Seq::new(d.peripherals@.len(), |i: int| lower_of(ma_info(d.peripherals@[i]).name@))
}

/// Why a conversion was refused: the source tree uses a construct the
/// transform does not support.
#[derive(Debug, PartialEq, Eq)]
pub enum TransformError {
    /// An array-repeated peripheral.
    PeripheralArray,
    /// An array-repeated bitfield.
    FieldArray,
}

/// Appends the per-instance identifiers of a register template to the list.
pub fn register_ids(path: &str, register: &svd::Register, instances: u32, ids: &mut Vec<String>)
    ensures
        final(ids)@.map_values(|s: String| s@) == old(ids)@.map_values(|s: String| s@)
            + inst_ids_from(path@, register.name@, 0, instances as int),
{
    let ghost start = old(ids)@.map_values(|s: String| s@);
    let name = lowercase(register.name.as_str());
    let mut i: u32 = 0;
    while i < instances
        invariant
            i <= instances,
            name@ == lower_of(register.name@),
            ids@.map_values(|s: String| s@) + inst_ids_from(
                path@,
                register.name@,
                i as int,
                instances as int,
            ) == start + inst_ids_from(path@, register.name@, 0, instances as int),
        decreases instances - i,
    {
        let ghost cur = ids@.map_values(|s: String| s@);
        let nm = instance_id(name.as_str(), i);
        let id = dotted(path, nm.as_str());
        ids.push(id);
        proof {
            assert(ids@.map_values(|s: String| s@) =~= cur + seq![
                spec_dotted(path@, spec_instance_id(lower_of(register.name@), i as int)),
            ]);
            assert(cur + seq![
                spec_dotted(path@, spec_instance_id(lower_of(register.name@), i as int)),
            ] + inst_ids_from(path@, register.name@, i as int + 1, instances as int) =~= cur
                + inst_ids_from(path@, register.name@, i as int, instances as int));
        }
        i = i + 1;
    }
    proof {
        assert(ids@.map_values(|s: String| s@) =~= ids@.map_values(|s: String| s@) + Seq::<
            Seq<char>,
        >::empty());
    }
}

/// Appends the per-instance identifiers of a cluster template to the list.
pub fn cluster_ids(path: &str, cluster: &svd::Cluster, instances: u32, ids: &mut Vec<String>)
    ensures
        final(ids)@.map_values(|s: String| s@) == old(ids)@.map_values(|s: String| s@)
            + inst_ids_from(path@, cluster.name@, 0, instances as int),
{
    let ghost start = old(ids)@.map_values(|s: String| s@);
    let name = lowercase(cluster.name.as_str());
    let mut i: u32 = 0;
    while i < instances
        invariant
            i <= instances,
            name@ == lower_of(cluster.name@),
            ids@.map_values(|s: String| s@) + inst_ids_from(
                path@,
                cluster.name@,
                i as int,
                instances as int,
            ) == start + inst_ids_from(path@, cluster.name@, 0, instances as int),
        decreases instances - i,
    {
        let ghost cur = ids@.map_values(|s: String| s@);
        let nm = instance_id(name.as_str(), i);
        let id = dotted(path, nm.as_str());
        ids.push(id);
        proof {
            assert(ids@.map_values(|s: String| s@) =~= cur + seq![
                spec_dotted(path@, spec_instance_id(lower_of(cluster.name@), i as int)),
            ]);
            assert(cur + seq![
                spec_dotted(path@, spec_instance_id(lower_of(cluster.name@), i as int)),
            ] + inst_ids_from(path@, cluster.name@, i as int + 1, instances as int) =~= cur
                + inst_ids_from(path@, cluster.name@, i as int, instances as int));
        }
        i = i + 1;
    }
    proof {
        assert(ids@.map_values(|s: String| s@) =~= ids@.map_values(|s: String| s@) + Seq::<
            Seq<char>,
        >::empty());
    }
}

/// Collects the identifiers of the children one scope level contributes, in
/// declaration order.
fn rcs_child_ids_exec(path: &str, rcs: &Vec<svd::RegisterCluster>, ids: &mut Vec<String>)
    ensures
        final(ids)@.map_values(|s: String| s@) == old(ids)@.map_values(|s: String| s@)
            + rcs_child_ids(path@, rcs@),
{
    let ghost start = old(ids)@.map_values(|s: String| s@);
    let n = rcs.len();
    let mut i: usize = 0;
    proof {
        assert(rcs@.skip(0) =~= rcs@);
    }
    while i < n
        invariant
            i <= n,
            n == rcs@.len(),
            ids@.map_values(|s: String| s@) + rcs_child_ids(path@, rcs@.skip(i as int)) == start
                + rcs_child_ids(path@, rcs@),
        decreases n - i,
    {
        let ghost cur = ids@.map_values(|s: String| s@);
        match &rcs[i] {
            svd::RegisterCluster::Register(MaybeArray::Single(r)) => {
                register_ids(path, r, 1, ids);
            },
            svd::RegisterCluster::Register(MaybeArray::Array(r, d)) => {
                register_ids(path, r, d.dim, ids);
            },
            svd::RegisterCluster::Cluster(MaybeArray::Single(c)) => {
                cluster_ids(path, c, 1, ids);
            },
            svd::RegisterCluster::Cluster(MaybeArray::Array(c, d)) => {
                cluster_ids(path, c, d.dim, ids);
            },
        }
        proof {
            assert(ids@.map_values(|s: String| s@) =~= cur + rc_child_ids(path@, rcs@[i as int]));
            assert(rcs@.skip(i as int)[0] == rcs@[i as int]);
            assert(rcs@.skip(i as int).drop_first() =~= rcs@.skip(i as int + 1));
            assert(cur + rc_child_ids(path@, rcs@[i as int]) + rcs_child_ids(
                path@,
                rcs@.skip(i as int + 1),
            ) =~= cur + rcs_child_ids(path@, rcs@.skip(i as int)));
        }
        i = i + 1;
    }
    proof {
        assert(rcs@.skip(n as int) =~= Seq::<svd::RegisterCluster>::empty());
        assert(ids@.map_values(|s: String| s@) =~= ids@.map_values(|s: String| s@) + Seq::<
            Seq<char>,
        >::empty());
    }
}

/// The identifiers of a peripheral's direct children, one level down.
pub fn peripheral_child_ids(path: &str, peripheral: &svd::Peripheral) -> (r: Vec<String>)
    ensures
        r@.map_values(|s: String| s@) == rcs_child_ids(path@, peripheral.registers@),
{
    let mut child_ids: Vec<String> = Vec::new();
    rcs_child_ids_exec(path, &peripheral.registers, &mut child_ids);
    proof {
        assert(Seq::<Seq<char>>::empty() + rcs_child_ids(path@, peripheral.registers@)
            =~= rcs_child_ids(path@, peripheral.registers@));
    }
    child_ids
}

/// The identifiers of a cluster's direct children, one level down.
pub fn cluster_child_ids(path: &str, cluster: &svd::Cluster) -> (r: Vec<String>)
    ensures
        r@.map_values(|s: String| s@) == rcs_child_ids(path@, cluster.children@),
{
    let mut child_ids: Vec<String> = Vec::new();
    rcs_child_ids_exec(path, &cluster.children, &mut child_ids);
    proof {
        assert(Seq::<Seq<char>>::empty() + rcs_child_ids(path@, cluster.children@)
            =~= rcs_child_ids(path@, cluster.children@));
    }
    child_ids
}

/// Whether a register template declares an array-repeated bitfield.
fn reg_has_array_field_exec(r: &svd::Register) -> (b: bool)
    ensures
        b == svd::reg_has_array_field(*r),
{
    let n = r.fields.len();
    let mut i: usize = 0;
    while i < n
        invariant
            i <= n,
            n == r.fields@.len(),
            forall|q: int| 0 <= q < i ==> !(#[trigger] r.fields@[q] is Array),
        decreases n - i,
    {
        match &r.fields[i] {
            MaybeArray::Single(_) => {},
            MaybeArray::Array(_, _) => {
                proof {
                    assert(r.fields@[i as int] is Array);
                }
                return true;
            },
        }
        i = i + 1;
    }
    false
}

/// Whether any register below this child declares an array-repeated
/// bitfield.
fn rc_has_array_field_exec(rc: &svd::RegisterCluster) -> (b: bool)
    ensures
        b == svd::rc_has_array_field(*rc),
    decreases *rc,
{
    match rc {
        svd::RegisterCluster::Register(MaybeArray::Single(r)) => reg_has_array_field_exec(r),
        svd::RegisterCluster::Register(MaybeArray::Array(r, _)) => reg_has_array_field_exec(r),
        svd::RegisterCluster::Cluster(MaybeArray::Single(c)) => {
            proof {
                assert(decreases_to!(*rc => c.children@));
            }
            rcs_have_array_field_exec(&c.children)
        },
        svd::RegisterCluster::Cluster(MaybeArray::Array(c, _)) => {
            proof {
                assert(decreases_to!(*rc => c.children@));
            }
            rcs_have_array_field_exec(&c.children)
        },
    }
}

/// Whether any register below any of these children declares an
/// array-repeated bitfield.
fn rcs_have_array_field_exec(rcs: &Vec<svd::RegisterCluster>) -> (b: bool)
    ensures
        b == svd::rcs_have_array_field(rcs@),
    decreases rcs@,
{
    let n = rcs.len();
    let mut i: usize = 0;
    while i < n
        invariant
            i <= n,
            n == rcs@.len(),
            forall|q: int| 0 <= q < i ==> !svd::rc_has_array_field(#[trigger] rcs@[q]),
        decreases n - i,
    {
        proof {
            assert(decreases_to!(rcs@ => rcs@[i as int]));
        }
        if rc_has_array_field_exec(&rcs[i]) {
            return true;
        }
        i = i + 1;
    }
    false
}

/// An absent address increment counts as zero.
pub open spec fn opt_u32(o: Option<u32>) -> int {
    match o {
        Some(x) => x as int,
        None => 0,
    }
}

/// Expands a register template into one element per instance and inserts
/// them into the registry in index order; the fields are completed once per
/// instance by the gap synthesizer.
pub fn visit_register(
    path: &str,
    base_address: u32,
    register: &svd::Register,
    instance_count: u32,
    address_increment: Option<u32>,
    elements: &mut IndexMap<String, Element>,
)
    requires
        svd::inst_addrs_wf(
            base_address as int,
            register.address_offset as int,
            instance_count as int,
            opt_u32(address_increment),
        ),
        svd::field_list_wf(
            register.fields@.map_values(|m: MaybeArray<svd::Field>| ma_info(m)),
        ),
        !svd::reg_has_array_field(*register),
    ensures
        entries(*final(elements)) == spec_insert_all(
            entries(*old(elements)),
            reg_insts(
                path@,
                base_address as int,
                *register,
                0,
                instance_count as int,
                opt_u32(address_increment),
            ),
        ),
{
    let increment: u32 = match address_increment {
        Some(x) => x,
        None => 0,
    };
    let name = lowercase(register.name.as_str());
    let ghost e0 = entries(*elements);
    let ghost inc = opt_u32(address_increment);
    let ghost base = base_address as int;
    let ghost count = instance_count as int;
    let mut i: u32 = 0;
    while i < instance_count
        invariant
            i <= instance_count,
            name@ == lower_of(register.name@),
            increment as int == inc,
            base == base_address as int,
            count == instance_count as int,
            svd::inst_addrs_wf(base, register.address_offset as int, count, inc),
            svd::field_list_wf(
                register.fields@.map_values(|m: MaybeArray<svd::Field>| ma_info(m)),
            ),
            !svd::reg_has_array_field(*register),
            spec_insert_all(
                entries(*elements),
                reg_insts(path@, base, *register, i as int, count, inc),
            ) == spec_insert_all(e0, reg_insts(path@, base, *register, 0, count, inc)),
        decreases instance_count - i,
    {
        proof {
            assert((i as int) * inc >= 0) by (nonlinear_arith)
                requires
                    0 <= i as int,
                    0 <= inc,
            ;
            assert(base + register.address_offset as int + (i as int) * inc <= u32::MAX);
        }
        let nm = instance_id(name.as_str(), i);
        let id = dotted(path, nm.as_str());
        let instance_offset = register.address_offset + i * increment;
        let fields = collect_fields(register);
        let doc = match &register.description {
            Some(d) => d.clone(),
            None => String::new(),
        };
        let element = Element {
            typ: ElementType::Reg { fields },
            id,
            name: nm,
            addr: base_address + instance_offset,
            offset: instance_offset,
            doc,
        };
        let key = element.id.clone();
        let ghost ev = element@;
        let ghost kv = key@;
        let ghost pre = entries(*elements);
        registry_insert(elements, key, element);
        proof {
            let pe = reg_elem(path@, base, *register, i as int, inc);
            assert(ev =~~= pe);
            assert(kv == pe.id);
            let ps_i = reg_insts(path@, base, *register, i as int, count, inc);
            let rest = reg_insts(path@, base, *register, i as int + 1, count, inc);
            assert(ps_i == seq![(pe.id, pe)] + rest);
            crate::registry::lemma_insert_all_concat(pre, seq![(pe.id, pe)], rest);
            reveal_with_fuel(spec_insert_all, 3);
            assert(seq![(pe.id, pe)].drop_first() =~= Seq::<(Seq<char>, ElementV)>::empty());
            assert(spec_insert_all(pre, seq![(pe.id, pe)]) == crate::registry::spec_insert(
                pre,
                pe.id,
                pe,
            ));
            assert(entries(*elements) == crate::registry::spec_insert(pre, pe.id, pe));
            assert(spec_insert_all(entries(*elements), rest) == spec_insert_all(pre, ps_i));
        }
        i = i + 1;
    }
    proof {
        assert(reg_insts(path@, base, *register, count, count, inc) == Seq::<
            (Seq<char>, ElementV),
        >::empty());
    }
}

/// Expands a cluster template into one block element per instance, inserts
/// each followed by the elements of the cluster's children under the
/// instance's path, recursing with the cluster's nominal base address — the
/// enclosing base plus the cluster's own offset, without the per-instance
/// increment.
pub fn visit_cluster(
    path: &str,
    base_address: u32,
    cluster: &svd::Cluster,
    instance_count: u32,
    address_increment: Option<u32>,
    elements: &mut IndexMap<String, Element>,
)
    requires
        svd::inst_addrs_wf(
            base_address as int,
            cluster.address_offset as int,
            instance_count as int,
            opt_u32(address_increment),
        ),
        svd::rcs_wf(base_address as int + cluster.address_offset as int, cluster.children@),
        !svd::rcs_have_array_field(cluster.children@),
    ensures
        entries(*final(elements)) == spec_insert_all(
            entries(*old(elements)),
            cluster_insts(
                path@,
                base_address as int,
                *cluster,
                0,
                instance_count as int,
                opt_u32(address_increment),
            ),
        ),
    decreases *cluster, 0int,
{
    let increment: u32 = match address_increment {
        Some(x) => x,
        None => 0,
    };
    let name = lowercase(cluster.name.as_str());
    let ghost e0 = entries(*elements);
    let ghost inc = opt_u32(address_increment);
    let ghost base = base_address as int;
    let ghost count = instance_count as int;
    let mut i: u32 = 0;
    while i < instance_count
        invariant
            i <= instance_count,
            name@ == lower_of(cluster.name@),
            increment as int == inc,
            base == base_address as int,
            count == instance_count as int,
            svd::inst_addrs_wf(base, cluster.address_offset as int, count, inc),
            svd::rcs_wf(base + cluster.address_offset as int, cluster.children@),
            !svd::rcs_have_array_field(cluster.children@),
            spec_insert_all(
                entries(*elements),
                cluster_insts(path@, base, *cluster, i as int, count, inc),
            ) == spec_insert_all(e0, cluster_insts(path@, base, *cluster, 0, count, inc)),
        decreases instance_count - i,
    {
        proof {
            assert((i as int) * inc >= 0) by (nonlinear_arith)
                requires
                    0 <= i as int,
                    0 <= inc,
            ;
            assert(base + cluster.address_offset as int + (i as int) * inc <= u32::MAX);
        }
        let nm = instance_id(name.as_str(), i);
        let path_i = dotted(path, nm.as_str());
        let children = cluster_child_ids(path_i.as_str(), cluster);
        let instance_offset = cluster.address_offset + i * increment;
        let doc = match &cluster.description {
            Some(d) => d.clone(),
            None => String::new(),
        };
        let element = Element {
            typ: ElementType::Blk { children },
            id: path_i.clone(),
            name: nm,
            addr: base_address + instance_offset,
            offset: instance_offset,
            doc,
        };
        let key = element.id.clone();
        let ghost ev = element@;
        let ghost pre = entries(*elements);
        registry_insert(elements, key, element);
        proof {
            let blk = cluster_block_elem(path@, base, *cluster, i as int, inc);
            assert(ev =~~= blk);
            assert(entries(*elements) == crate::registry::spec_insert(pre, blk.id, blk));
        }
        let base2 = base_address + cluster.address_offset;
        proof {
            assert(decreases_to!(*cluster => cluster.children@));
        }
        visit_register_clusters(path_i.as_str(), base2, &cluster.children, elements);
        proof {
            let blk = cluster_block_elem(path@, base, *cluster, i as int, inc);
            let mid = crate::registry::spec_insert(pre, blk.id, blk);
            let rcsp = rcs_pairs(blk.id, base + cluster.address_offset as int, cluster.children@);
            assert(path_i@ == blk.id);
            assert(entries(*elements) == spec_insert_all(mid, rcsp));
            let ps_i = cluster_insts(path@, base, *cluster, i as int, count, inc);
            let rest = cluster_insts(path@, base, *cluster, i as int + 1, count, inc);
            assert(ps_i == seq![(blk.id, blk)] + rcsp + rest);
            crate::registry::lemma_insert_all_concat(pre, seq![(blk.id, blk)] + rcsp, rest);
            crate::registry::lemma_insert_all_concat(pre, seq![(blk.id, blk)], rcsp);
            reveal_with_fuel(spec_insert_all, 3);
            assert(seq![(blk.id, blk)].drop_first() =~= Seq::<(Seq<char>, ElementV)>::empty());
            assert(spec_insert_all(pre, seq![(blk.id, blk)]) == mid);
            assert(spec_insert_all(entries(*elements), rest) == spec_insert_all(pre, ps_i));
        }
        i = i + 1;
    }
    proof {
        assert(cluster_insts(path@, base, *cluster, count, count, inc) == Seq::<
            (Seq<char>, ElementV),
        >::empty());
    }
}

/// Visits each register-or-cluster child of a scope in declaration order,
/// expanding array groups into per-instance elements.
pub fn visit_register_clusters(
    path: &str,
    base_address: u32,
    register_clusters: &Vec<svd::RegisterCluster>,
    elements: &mut IndexMap<String, Element>,
)
    requires
        svd::rcs_wf(base_address as int, register_clusters@),
        !svd::rcs_have_array_field(register_clusters@),
    ensures
        entries(*final(elements)) == spec_insert_all(
            entries(*old(elements)),
            rcs_pairs(path@, base_address as int, register_clusters@),
        ),
    decreases register_clusters@, 2int,
{
    let ghost e0 = entries(*elements);
    let ghost base = base_address as int;
    let n = register_clusters.len();
    let mut i: usize = 0;
    proof {
        assert(register_clusters@.skip(0) =~= register_clusters@);
    }
    while i < n
        invariant
            i <= n,
            n == register_clusters@.len(),
            base == base_address as int,
            svd::rcs_wf(base, register_clusters@),
            !svd::rcs_have_array_field(register_clusters@),
            spec_insert_all(
                entries(*elements),
                rcs_pairs(path@, base, register_clusters@.skip(i as int)),
            ) == spec_insert_all(e0, rcs_pairs(path@, base, register_clusters@)),
        decreases n - i,
    {
        let ghost pre = entries(*elements);
        let ghost rc = register_clusters@[i as int];
        proof {
            assert(svd::rc_wf(base, rc));
            assert(!svd::rc_has_array_field(rc));
            assert(decreases_to!(register_clusters@ => register_clusters@[i as int]));
        }
        match &register_clusters[i] {
            svd::RegisterCluster::Register(MaybeArray::Single(r)) => {
                visit_register(path, base_address, r, 1, None, elements);
                proof {
                    assert(entries(*elements) == spec_insert_all(
                        pre,
                        rc_pairs(path@, base, rc),
                    ));
                }
            },
            svd::RegisterCluster::Register(MaybeArray::Array(r, d)) => {
                visit_register(path, base_address, r, d.dim, Some(d.dim_increment), elements);
                proof {
                    assert(entries(*elements) == spec_insert_all(
                        pre,
                        rc_pairs(path@, base, rc),
                    ));
                }
            },
            svd::RegisterCluster::Cluster(MaybeArray::Single(c)) => {
                proof {
                    assert(decreases_to!(register_clusters@[i as int] => *c));
                }
                visit_cluster(path, base_address, c, 1, None, elements);
                proof {
                    assert(entries(*elements) == spec_insert_all(
                        pre,
                        rc_pairs(path@, base, rc),
                    ));
                }
            },
            svd::RegisterCluster::Cluster(MaybeArray::Array(c, d)) => {
                proof {
                    assert(decreases_to!(register_clusters@[i as int] => *c));
                }
                visit_cluster(path, base_address, c, d.dim, Some(d.dim_increment), elements);
                proof {
                    assert(entries(*elements) == spec_insert_all(
                        pre,
                        rc_pairs(path@, base, rc),
                    ));
                }
            },
        }
        proof {
            assert(register_clusters@.skip(i as int)[0] == rc);
            assert(register_clusters@.skip(i as int).drop_first() =~= register_clusters@.skip(
                i as int + 1,
            ));
            crate::registry::lemma_insert_all_concat(
                pre,
                rc_pairs(path@, base, rc),
                rcs_pairs(path@, base, register_clusters@.skip(i as int + 1)),
            );
        }
        i = i + 1;
    }
    proof {
        assert(register_clusters@.skip(n as int) =~= Seq::<svd::RegisterCluster>::empty());
    }
}

/// Builds one peripheral's block element — identifier, path root, and both
/// address and offset equal to the base address — inserts it, then visits
/// the peripheral's children.
pub fn visit_periperal(peripheral: &svd::Peripheral, elements: &mut IndexMap<String, Element>)
    requires
        svd::rcs_wf(peripheral.base_address as int, peripheral.registers@),
        !svd::rcs_have_array_field(peripheral.registers@),
    ensures
        entries(*final(elements)) == spec_insert_all(
            entries(*old(elements)),
            peripheral_pairs(*peripheral),
        ),
{
    let ghost e0 = entries(*elements);
    let name = lowercase(peripheral.name.as_str());
    let path = name.clone();
    let base_address: u32 = peripheral.base_address;
    let children = peripheral_child_ids(path.as_str(), peripheral);
    let doc = match &peripheral.description {
        Some(d) => d.clone(),
        None => String::new(),
    };
    let element = Element {
        typ: ElementType::Blk { children },
        id: path.clone(),
        name,
        addr: base_address,
        offset: base_address,
        doc,
    };
    let key = element.id.clone();
    let ghost ev = element@;
    registry_insert(elements, key, element);
    proof {
        let pp = peripheral_pairs(*peripheral);
        let blk = pp[0].1;
        assert(ev =~~= blk);
        assert(entries(*elements) == crate::registry::spec_insert(
            e0,
            lower_of(peripheral.name@),
            blk,
        ));
    }
    visit_register_clusters(path.as_str(), base_address, &peripheral.registers, elements);
    proof {
        let pp = peripheral_pairs(*peripheral);
        let blk = pp[0].1;
        let p0 = lower_of(peripheral.name@);
        let rcsp = rcs_pairs(p0, base_address as int, peripheral.registers@);
        assert(pp == seq![(p0, blk)] + rcsp);
        crate::registry::lemma_insert_all_concat(e0, seq![(p0, blk)], rcsp);
        reveal_with_fuel(spec_insert_all, 3);
        assert(seq![(p0, blk)].drop_first() =~= Seq::<(Seq<char>, ElementV)>::empty());
        assert(spec_insert_all(e0, seq![(p0, blk)]) == crate::registry::spec_insert(e0, p0, blk));
    }
}

/// What a successfully built catalog holds for a device: the fixed schema
/// tag, the root descriptor with the device's names and the lower-cased
/// peripheral names in declaration order, and the registry produced by
/// inserting every peripheral's pre-order pairs into an empty registry.
pub open spec fn rdf_matches_device(rdf: Rdf, d: svd::Device) -> bool {
    &&& rdf.schema.version@ == spec_schema_version()
    &&& rdf.root.name@ == d.name@
    &&& rdf.root.display_name@ == d.name@
    &&& rdf.root.version@ == d.version@
    &&& rdf.root.children@.map_values(|s: String| s@) == root_children(d)
    &&& entries(rdf.elements) == spec_insert_all(
        Seq::<(Seq<char>, ElementV)>::empty(),
        periphs_pairs(d.peripherals@),
    )
}

impl Rdf {
    /// Converts a whole device description into the flat catalog: every
    /// peripheral is expanded in declaration order into the registry, the
    /// root lists the lower-cased peripheral names, and the schema tag is
    /// fixed. A device with an array-repeated peripheral, or with an
    /// array-repeated bitfield anywhere, is refused before any output is
    /// produced.
    pub fn from_device(device: &svd::Device) -> (r: Result<Rdf, TransformError>)
        requires
            svd::device_wf(*device),
        ensures
            match r {
                Ok(rdf) => {
                    &&& !svd::has_array_peripheral(*device)
                    &&& !svd::device_has_array_field(*device)
                    &&& rdf_matches_device(rdf, *device)
                },
                Err(e) => {
                    &&& (e is PeripheralArray) <==> svd::has_array_peripheral(*device)
                    &&& (e is FieldArray) ==> !svd::has_array_peripheral(*device)
                        && svd::device_has_array_field(*device)
                },
            },
            r is Err <==> (svd::has_array_peripheral(*device) || svd::device_has_array_field(
                *device,
            )),
    {
        let np = device.peripherals.len();
        let mut children: Vec<String> = Vec::new();
        let mut pi: usize = 0;
        while pi < np
            invariant
                pi <= np,
                np == device.peripherals@.len(),
                forall|q: int| 0 <= q < pi ==> !(#[trigger] device.peripherals@[q] is Array),
                children@.map_values(|s: String| s@) == root_children(*device).take(pi as int),
            decreases np - pi,
        {
            match &device.peripherals[pi] {
                MaybeArray::Single(p) => {
                    let ghost cm = children@.map_values(|s: String| s@);
                    let nm = lowercase(p.name.as_str());
                    let ghost nv = nm@;
                    children.push(nm);
                    proof {
                        assert(ma_info(device.peripherals@[pi as int]) == *p);
                        assert(root_children(*device)[pi as int] == lower_of(p.name@));
                        assert(cm.len() == pi as int);
                        assert(children@.map_values(|s: String| s@) =~= cm.push(nv));
                        assert(cm.push(nv) =~= root_children(*device).take(pi as int + 1));
                    }
                },
                MaybeArray::Array(_, _) => {
                    proof {
                        assert(device.peripherals@[pi as int] is Array);
                    }
                    return Err(TransformError::PeripheralArray);
                },
            }
            pi = pi + 1;
        }
        proof {
            assert(!svd::has_array_peripheral(*device));
            assert(root_children(*device).take(np as int) =~= root_children(*device));
        }
        let mut pf: usize = 0;
        while pf < np
            invariant
                pf <= np,
                np == device.peripherals@.len(),
                forall|q: int| 0 <= q < np ==> !(#[trigger] device.peripherals@[q] is Array),
                forall|q: int|
                    0 <= q < pf ==> !svd::rcs_have_array_field(
                        ma_info(#[trigger] device.peripherals@[q]).registers@,
                    ),
            decreases np - pf,
        {
            match &device.peripherals[pf] {
                MaybeArray::Single(p) => {
                    if rcs_have_array_field_exec(&p.registers) {
                        proof {
                            assert(ma_info(device.peripherals@[pf as int]) == *p);
                            assert(svd::device_has_array_field(*device));
                        }
                        return Err(TransformError::FieldArray);
                    }
                    proof {
                        assert(ma_info(device.peripherals@[pf as int]) == *p);
                    }
                },
                MaybeArray::Array(_, _) => {
                    proof {
                        assert(device.peripherals@[pf as int] is Array);
                        assert(false);
                    }
                },
            }
            pf = pf + 1;
        }
        proof {
            assert(!svd::device_has_array_field(*device));
        }
        let mut elements = registry_new();
        let ghost e0 = entries(elements);
        let mut pj: usize = 0;
        proof {
            assert(device.peripherals@.skip(0) =~= device.peripherals@);
        }
        while pj < np
            invariant
                pj <= np,
                np == device.peripherals@.len(),
                svd::device_wf(*device),
                forall|q: int| 0 <= q < np ==> !(#[trigger] device.peripherals@[q] is Array),
                forall|q: int|
                    0 <= q < np ==> !svd::rcs_have_array_field(
                        ma_info(#[trigger] device.peripherals@[q]).registers@,
                    ),
                e0 == Seq::<(Seq<char>, ElementV)>::empty(),
                spec_insert_all(
                    entries(elements),
                    periphs_pairs(device.peripherals@.skip(pj as int)),
                ) == spec_insert_all(e0, periphs_pairs(device.peripherals@)),
            decreases np - pj,
        {
            let ghost pre = entries(elements);
            match &device.peripherals[pj] {
                MaybeArray::Single(p) => {
                    proof {
                        assert(ma_info(device.peripherals@[pj as int]) == *p);
                        assert(svd::rcs_wf(p.base_address as int, p.registers@));
                    }
                    visit_periperal(p, &mut elements);
                    proof {
                        assert(entries(elements) == spec_insert_all(
                            pre,
                            peripheral_pairs(ma_info(device.peripherals@[pj as int])),
                        ));
                    }
                },
                MaybeArray::Array(_, _) => {
                    proof {
                        assert(device.peripherals@[pj as int] is Array);
                        assert(false);
                    }
                },
            }
            proof {
                assert(device.peripherals@.skip(pj as int)[0] == device.peripherals@[pj as int]);
                assert(device.peripherals@.skip(pj as int).drop_first() =~= device.peripherals@.skip(
                    pj as int + 1,
                ));
                crate::registry::lemma_insert_all_concat(
                    pre,
                    peripheral_pairs(ma_info(device.peripherals@[pj as int])),
                    periphs_pairs(device.peripherals@.skip(pj as int + 1)),
                );
            }
            pj = pj + 1;
        }
        proof {
            assert(device.peripherals@.skip(np as int) =~= Seq::<
                MaybeArray<svd::Peripheral>,
            >::empty());
        }
        let rdf = Rdf {
            schema: Schema { version: String::from_str("v0.2") },
            root: Root {
                name: device.name.clone(),
                display_name: device.name.clone(),
                version: device.version.clone(),
                children,
            },
            elements,
        };
        Ok(rdf)
    }
}

} // verus!
