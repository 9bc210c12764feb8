//! The output catalog: schema tag, root descriptor, and the elements of the
//! flat register map, together with the mathematical views the contracts
//! speak of.

use vstd::prelude::*;
use indexmap::IndexMap;

verus! {

/// A completed bitfield of a register element.
#[derive(Debug, PartialEq)]
pub struct Field {
    pub name: String,
    pub lsb: u32,
    pub nbits: u32,
    pub access: String,
    pub reset: u32,
    pub doc: String,
}

impl Clone for Field {
    fn clone(&self) -> (r: Self)
        ensures
            r@ == self@,
    {
        Field {
            name: self.name.clone(),
            lsb: self.lsb,
            nbits: self.nbits,
            access: self.access.clone(),
            reset: self.reset,
            doc: self.doc.clone(),
        }
    }
}

/// Mathematical view of a [`Field`].
#[verifier::ext_equal]
pub struct FieldV {
    pub name: Seq<char>,
    pub lsb: int,
    pub nbits: int,
    pub access: Seq<char>,
    pub reset: int,
    pub doc: Seq<char>,
}

impl View for Field {
    type V = FieldV;

    open spec fn view(&self) -> FieldV {
        FieldV {
            name: self.name@,
            lsb: self.lsb as int,
            nbits: self.nbits as int,
            access: self.access@,
            reset: self.reset as int,
            doc: self.doc@,
        }
    }
}

/// The variant payload of an element: a block with child identifiers, a
/// register with its completed fields, or a terminal memory region.
#[derive(Debug, PartialEq)]
pub enum ElementType {
    Blk { children: Vec<String> },
    Reg { fields: Vec<Field> },
    Mem,
}

/// Mathematical view of an [`ElementType`].
#[verifier::ext_equal]
pub enum ElementTypeV {
    Blk { children: Seq<Seq<char>> },
    Reg { fields: Seq<FieldV> },
    Mem,
}

impl View for ElementType {
    type V = ElementTypeV;

    open spec fn view(&self) -> ElementTypeV {
        match self {
            ElementType::Blk { children } => ElementTypeV::Blk {
                children: children@.map_values(|s: String| s@),
            },
            ElementType::Reg { fields } => ElementTypeV::Reg {
                fields: fields@.map_values(|f: Field| f@),
            },
            ElementType::Mem => ElementTypeV::Mem,
        }
    }
}

/// One entry of the catalog: a block, register, or memory region with its
/// identifier, display name, absolute address, offset relative to the
/// enclosing scope, and documentation.
#[derive(Debug, PartialEq)]
pub struct Element {
    pub typ: ElementType,
    pub id: String,
    pub name: String,
    pub addr: u32,
    pub offset: u32,
    pub doc: String,
}

/// Mathematical view of an [`Element`].
#[verifier::ext_equal]
pub struct ElementV {
    pub typ: ElementTypeV,
    pub id: Seq<char>,
    pub name: Seq<char>,
    pub addr: int,
    pub offset: int,
    pub doc: Seq<char>,
}

impl View for Element {
    type V = ElementV;

    open spec fn view(&self) -> ElementV {
        ElementV {
            typ: self.typ@,
            id: self.id@,
            name: self.name@,
            addr: self.addr as int,
            offset: self.offset as int,
            doc: self.doc@,
        }
    }
}

/// The schema version tag of the catalog.
#[derive(Debug, PartialEq)]
pub struct Schema {
    pub version: String,
}

/// The root descriptor: device name, display name, version, and the ordered
/// identifiers of the top-level elements.
#[derive(Debug, PartialEq)]
pub struct Root {
    pub name: String,
    pub display_name: String,
    pub version: String,
    pub children: Vec<String>,
}

/// The whole output catalog: schema tag, root descriptor, and the
/// insertion-ordered registry of elements keyed by identifier.
#[derive(Debug)]
pub struct Rdf {
    pub schema: Schema,
    pub root: Root,
    pub elements: IndexMap<String, Element>,
}

} // verus!
