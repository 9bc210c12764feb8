//! The source register-map description: an already-validated tree of
//! peripherals, clusters, registers, and bitfields, each possibly repeated as
//! an array group.

use vstd::prelude::*;

verus! {

/// An array group: how many instances a template stands for and the address
/// step between consecutive instances.
pub struct Dim {
    pub dim: u32,
    pub dim_increment: u32,
}

/// A node that is either singular or repeated as an array group.
pub enum MaybeArray<T> {
    Single(T),
    Array(T, Dim),
}

/// A declared bitfield of a register.
pub struct Field {
    pub name: String,
    pub lsb: u32,
    pub nbits: u32,
    pub access: Option<String>,
    pub description: Option<String>,
}

/// A register template: a named word at an offset relative to its enclosing
/// scope, with its declared bitfields.
pub struct Register {
    pub name: String,
    pub address_offset: u32,
    pub description: Option<String>,
    pub fields: Vec<MaybeArray<Field>>,
}

/// A cluster template: a named scope at an offset relative to its enclosing
/// scope, with register-or-cluster children.
pub struct Cluster {
    pub name: String,
    pub address_offset: u32,
    pub description: Option<String>,
    pub children: Vec<RegisterCluster>,
}

/// One child of a peripheral or cluster.
pub enum RegisterCluster {
    Register(MaybeArray<Register>),
    Cluster(MaybeArray<Cluster>),
}

/// A peripheral: a named scope at an absolute base address.
pub struct Peripheral {
    pub name: String,
    pub base_address: u32,
    pub description: Option<String>,
    pub registers: Vec<RegisterCluster>,
}

/// The whole device description.
pub struct Device {
    pub name: String,
    pub version: String,
    pub peripherals: Vec<MaybeArray<Peripheral>>,
}

/// The template a node carries, whether singular or array-repeated.
pub open spec fn ma_info<T>(m: MaybeArray<T>) -> T {
    match m {
        MaybeArray::Single(t) => t,
        MaybeArray::Array(t, _) => t,
    }
}

/// How many instances a node expands to.
pub open spec fn ma_count<T>(m: MaybeArray<T>) -> int {
    match m {
        MaybeArray::Single(_) => 1,
        MaybeArray::Array(_, d) => d.dim as int,
    }
}

/// The address step between consecutive instances of a node.
pub open spec fn ma_inc<T>(m: MaybeArray<T>) -> int {
    match m {
        MaybeArray::Single(_) => 0,
        MaybeArray::Array(_, d) => d.dim_increment as int,
    }
}

/// A single declared bitfield lies within the fixed 32-bit register width.
pub open spec fn field_info_wf(f: Field) -> bool {
    1 <= f.nbits && f.lsb + f.nbits <= 32
}

/// A register's declared bitfields lie within the register width and are
/// pairwise non-overlapping.
pub open spec fn field_list_wf(fs: Seq<Field>) -> bool {
    &&& forall|i: int| 0 <= i < fs.len() ==> field_info_wf(#[trigger] fs[i])
    &&& forall|i: int, j: int|
        0 <= i < fs.len() && 0 <= j < fs.len() && i != j ==> (#[trigger] fs[i]).lsb + fs[i].nbits
            <= (#[trigger] fs[j]).lsb || fs[j].lsb + fs[j].nbits <= fs[i].lsb
}

/// Every instance address of a node fits the 32-bit address space: the node's
/// own offset plus the instance step times the index, added to the enclosing
/// absolute base.
pub open spec fn inst_addrs_wf(base: int, offset: int, count: int, inc: int) -> bool {
    forall|i: int| 0 <= i < count ==> base + offset + #[trigger] (i * inc) <= u32::MAX
}

/// A register-or-cluster child is well formed under an enclosing absolute
/// base address: all its instance addresses fit, its field layouts are well
/// formed, and recursively so for a cluster's children under the cluster's
/// nominal base.
pub open spec fn rc_wf(base: int, rc: RegisterCluster) -> bool
    decreases rc, 0int,
{
    match rc {
        RegisterCluster::Register(ma) => {
            let r = ma_info(ma);
            &&& inst_addrs_wf(base, r.address_offset as int, ma_count(ma), ma_inc(ma))
            &&& field_list_wf(r.fields@.map_values(|m: MaybeArray<Field>| ma_info(m)))
        },
        RegisterCluster::Cluster(ma) => {
            let c = ma_info(ma);
            &&& inst_addrs_wf(base, c.address_offset as int, ma_count(ma), ma_inc(ma))
            &&& rcs_wf(base + c.address_offset, c.children@)
        },
    }
}

/// All children of a scope are well formed under its absolute base address.
pub open spec fn rcs_wf(base: int, rcs: Seq<RegisterCluster>) -> bool
    decreases rcs, 1int,
{
    forall|i: int| 0 <= i < rcs.len() ==> rc_wf(base, #[trigger] rcs[i])
}

/// The whole device is well formed: every peripheral's children are well
/// formed under the peripheral's base address.
pub open spec fn device_wf(d: Device) -> bool {
    forall|i: int|
        0 <= i < d.peripherals@.len() ==> rcs_wf(
            ma_info(#[trigger] d.peripherals@[i]).base_address as int,
            ma_info(d.peripherals@[i]).registers@,
        )
}

/// Whether any peripheral is array-repeated (an unsupported construct).
pub open spec fn has_array_peripheral(d: Device) -> bool {
    exists|i: int| 0 <= i < d.peripherals@.len() && #[trigger] d.peripherals@[i] is Array
}

/// Whether a register declares an array-repeated bitfield (an unsupported
/// construct).
pub open spec fn reg_has_array_field(r: Register) -> bool {
    exists|i: int| 0 <= i < r.fields@.len() && #[trigger] r.fields@[i] is Array
}

/// Whether any register below a child declares an array-repeated bitfield.
pub open spec fn rc_has_array_field(rc: RegisterCluster) -> bool
    decreases rc, 0int,
{
    match rc {
        RegisterCluster::Register(ma) => reg_has_array_field(ma_info(ma)),
        RegisterCluster::Cluster(ma) => rcs_have_array_field(ma_info(ma).children@),
    }
}

/// Whether any register below any of these children declares an
/// array-repeated bitfield.
pub open spec fn rcs_have_array_field(rcs: Seq<RegisterCluster>) -> bool
    decreases rcs, 1int,
{
    exists|i: int| 0 <= i < rcs.len() && rc_has_array_field(#[trigger] rcs[i])
}

/// Whether any register of the device declares an array-repeated bitfield.
pub open spec fn device_has_array_field(d: Device) -> bool {
    exists|i: int|
        0 <= i < d.peripherals@.len() && rcs_have_array_field(
            ma_info(#[trigger] d.peripherals@[i]).registers@,
        )
}

} // verus!
