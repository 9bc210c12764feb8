use svd2rdf::ident::{dotted, instance_id, usize_dec};
use svd2rdf::rdf::{Element, ElementType, Field};
use svd2rdf::svd::{Cluster, Device, Dim, Field as SvdField, MaybeArray, Peripheral, Register, RegisterCluster};
use svd2rdf::visit::TransformError;
use svd2rdf::Rdf;

fn field(name: &str, lsb: u32, nbits: u32) -> MaybeArray<SvdField> {
    MaybeArray::Single(SvdField {
        name: name.to_string(),
        lsb,
        nbits,
        access: None,
        description: None,
    })
}

fn register(name: &str, offset: u32, fields: Vec<MaybeArray<SvdField>>) -> RegisterCluster {
    RegisterCluster::Register(MaybeArray::Single(Register {
        name: name.to_string(),
        address_offset: offset,
        description: None,
        fields,
    }))
}

fn device(peripherals: Vec<MaybeArray<Peripheral>>) -> Device {
    Device {
        name: "DEV".to_string(),
        version: "1.0".to_string(),
        peripherals,
    }
}

fn single_peripheral(name: &str, base: u32, registers: Vec<RegisterCluster>) -> Device {
    device(vec![MaybeArray::Single(Peripheral {
        name: name.to_string(),
        base_address: base,
        description: Some("a peripheral".to_string()),
        registers,
    })])
}

fn expect_register_fields<'a>(rdf: &'a Rdf, id: &str) -> &'a Vec<Field> {
    let element = rdf.elements.get(id).expect("register element present");
    match &element.typ {
        ElementType::Reg { fields } => fields,
        _ => panic!("expected a register element"),
    }
}

#[test]
fn example() {
    let d = single_peripheral(
        "TIMER0",
        0x4000_0000,
        vec![
            register("CTRL", 0x0, vec![field("EN", 0, 1)]),
            register("LOAD", 0x4, vec![]),
        ],
    );
    let rdf = Rdf::from_device(&d).expect("supported device");

    assert_eq!(rdf.root.name, "DEV");
    assert_eq!(rdf.root.display_name, "DEV");
    assert_eq!(rdf.root.version, "1.0");
    assert_eq!(rdf.root.children, vec!["timer0".to_string()]);
    assert_eq!(rdf.schema.version, "v0.2");

    assert_eq!(rdf.elements.len(), 3);
    let (id0, e0) = rdf.elements.get_index(0).unwrap();
    assert_eq!(id0, "timer0");
    assert_eq!(e0.id, "timer0");
    assert_eq!(e0.name, "timer0");
    assert_eq!(e0.addr, 0x4000_0000);
    assert_eq!(e0.offset, 0x4000_0000);
    assert_eq!(e0.doc, "a peripheral");
    match &e0.typ {
        ElementType::Blk { children } => {
            assert_eq!(children, &vec!["timer0.ctrl".to_string(), "timer0.load".to_string()]);
        }
        _ => panic!("expected a block element"),
    }

    let (id1, e1) = rdf.elements.get_index(1).unwrap();
    assert_eq!(id1, "timer0.ctrl");
    assert_eq!(e1.addr, 0x4000_0000);
    assert_eq!(e1.offset, 0);
    let (id2, e2) = rdf.elements.get_index(2).unwrap();
    assert_eq!(id2, "timer0.load");
    assert_eq!(e2.addr, 0x4000_0004);
    assert_eq!(e2.offset, 4);
}

#[test]
fn no_fields_register_yields_inferred_field() {
    let d = single_peripheral("P", 0x0, vec![register("R", 0x0, vec![])]);
    let rdf = Rdf::from_device(&d).unwrap();
    let fields = expect_register_fields(&rdf, "p.r");
    assert_eq!(fields.len(), 1);
    assert_eq!(fields[0].name, "inferred");
    assert_eq!(fields[0].lsb, 0);
    assert_eq!(fields[0].nbits, 32);
    assert_eq!(fields[0].access, "inferred");
    assert_eq!(fields[0].reset, 0);
}

#[test]
fn gap_inference_single_field() {
    let d = single_peripheral("P", 0x0, vec![register("R", 0x0, vec![field("en", 4, 1)])]);
    let rdf = Rdf::from_device(&d).unwrap();
    let fields = expect_register_fields(&rdf, "p.r");
    assert_eq!(fields.len(), 3);

    assert_eq!(fields[0].name, "rsvd1");
    assert_eq!(fields[0].lsb, 5);
    assert_eq!(fields[0].nbits, 27);
    assert_eq!(fields[0].access, "reserved");
    assert_eq!(fields[0].doc, "Reserved");

    assert_eq!(fields[1].name, "en");
    assert_eq!(fields[1].lsb, 4);
    assert_eq!(fields[1].nbits, 1);
    assert_eq!(fields[1].access, "");

    assert_eq!(fields[2].name, "rsvd0");
    assert_eq!(fields[2].lsb, 0);
    assert_eq!(fields[2].nbits, 4);
    assert_eq!(fields[2].access, "reserved");
}

#[test]
fn touching_fields_produce_no_reserved_gap() {
    let d = single_peripheral(
        "P",
        0x0,
        vec![register("R", 0x0, vec![field("lo", 0, 16), field("hi", 16, 16)])],
    );
    let rdf = Rdf::from_device(&d).unwrap();
    let fields = expect_register_fields(&rdf, "p.r");
    assert_eq!(fields.len(), 2);
    assert_eq!(fields[0].name, "hi");
    assert_eq!(fields[0].lsb, 16);
    assert_eq!(fields[0].nbits, 16);
    assert_eq!(fields[1].name, "lo");
    assert_eq!(fields[1].lsb, 0);
    assert_eq!(fields[1].nbits, 16);
    let total: u32 = fields.iter().map(|f| f.nbits).sum();
    assert_eq!(total, 32);
}

#[test]
fn array_expansion() {
    let d = single_peripheral(
        "Peripheral",
        0x1000,
        vec![RegisterCluster::Register(MaybeArray::Array(
            Register {
                name: "ch[%s]".to_string(),
                address_offset: 0x4,
                description: None,
                fields: vec![],
            },
            Dim { dim: 2, dim_increment: 0x4 },
        ))],
    );
    let rdf = Rdf::from_device(&d).unwrap();

    let (id0, blk) = rdf.elements.get_index(0).unwrap();
    assert_eq!(id0, "peripheral");
    match &blk.typ {
        ElementType::Blk { children } => {
            assert_eq!(
                children,
                &vec!["peripheral.ch0".to_string(), "peripheral.ch1".to_string()]
            );
        }
        _ => panic!("expected a block element"),
    }

    let (id1, ch0) = rdf.elements.get_index(1).unwrap();
    assert_eq!(id1, "peripheral.ch0");
    assert_eq!(ch0.addr, 0x1004);
    assert_eq!(ch0.offset, 0x4);
    assert_eq!(ch0.name, "ch0");

    let (id2, ch1) = rdf.elements.get_index(2).unwrap();
    assert_eq!(id2, "peripheral.ch1");
    assert_eq!(ch1.addr, 0x1008);
    assert_eq!(ch1.offset, 0x8);
    assert_eq!(ch1.name, "ch1");
}

#[test]
fn partition_property_on_each_register() {
    let d = single_peripheral(
        "P",
        0x0,
        vec![
            register("A", 0x0, vec![field("x", 3, 5), field("y", 20, 7)]),
            register("B", 0x4, vec![field("z", 0, 1)]),
            register("C", 0x8, vec![]),
        ],
    );
    let rdf = Rdf::from_device(&d).unwrap();
    for id in ["p.a", "p.b", "p.c"] {
        let fields = expect_register_fields(&rdf, id);
        // Most significant first: each field starts where the next one ends,
        // the first ends at bit 31, the last starts at bit 0.
        let mut expected_end: u32 = 32;
        for f in fields.iter() {
            assert_eq!(f.lsb + f.nbits, expected_end);
            assert!(f.nbits >= 1);
            expected_end = f.lsb;
        }
        assert_eq!(expected_end, 0);
    }
}

#[test]
fn identifiers_are_unique_and_match_keys() {
    let d = single_peripheral(
        "P",
        0x0,
        vec![
            register("A", 0x0, vec![]),
            register("B", 0x4, vec![]),
            RegisterCluster::Cluster(MaybeArray::Single(Cluster {
                name: "C".to_string(),
                address_offset: 0x10,
                description: None,
                children: vec![register("A", 0x0, vec![])],
            })),
        ],
    );
    let rdf = Rdf::from_device(&d).unwrap();
    let ids: Vec<&String> = rdf.elements.keys().collect();
    assert_eq!(ids, vec!["p", "p.a", "p.b", "p.c", "p.c.a"]);
    for (key, element) in rdf.elements.iter() {
        assert_eq!(key, &element.id);
    }
    for i in 0..ids.len() {
        for j in 0..ids.len() {
            if i != j {
                assert_ne!(ids[i], ids[j]);
            }
        }
    }
}

#[test]
fn cluster_array_keeps_nominal_base_for_children() {
    // The block element of each cluster instance carries the per-instance
    // increment in its address, while the cluster's children are laid out
    // from the cluster's nominal offset for every instance.
    let d = single_peripheral(
        "P",
        0x1000,
        vec![RegisterCluster::Cluster(MaybeArray::Array(
            Cluster {
                name: "grp[%s]".to_string(),
                address_offset: 0x100,
                description: None,
                children: vec![register("R", 0x8, vec![])],
            },
            Dim { dim: 2, dim_increment: 0x40 },
        ))],
    );
    let rdf = Rdf::from_device(&d).unwrap();
    let ids: Vec<&String> = rdf.elements.keys().collect();
    assert_eq!(ids, vec!["p", "p.grp0", "p.grp0.r", "p.grp1", "p.grp1.r"]);

    let g0 = rdf.elements.get("p.grp0").unwrap();
    assert_eq!(g0.addr, 0x1100);
    assert_eq!(g0.offset, 0x100);
    let g1 = rdf.elements.get("p.grp1").unwrap();
    assert_eq!(g1.addr, 0x1140);
    assert_eq!(g1.offset, 0x140);

    let r0 = rdf.elements.get("p.grp0.r").unwrap();
    let r1 = rdf.elements.get("p.grp1.r").unwrap();
    assert_eq!(r0.addr, 0x1108);
    assert_eq!(r1.addr, 0x1108);
    assert_eq!(r0.offset, 0x8);
    assert_eq!(r1.offset, 0x8);

    match &g1.typ {
        ElementType::Blk { children } => {
            assert_eq!(children, &vec!["p.grp1.r".to_string()]);
        }
        _ => panic!("expected a block element"),
    }
}

#[test]
fn idempotence() {
    let build = || {
        single_peripheral(
            "UART0",
            0x5000_0000,
            vec![
                register("DATA", 0x0, vec![field("BYTE", 0, 8)]),
                register("STAT", 0x4, vec![]),
            ],
        )
    };
    let a = Rdf::from_device(&build()).unwrap();
    let b = Rdf::from_device(&build()).unwrap();
    assert_eq!(a.schema, b.schema);
    assert_eq!(a.root, b.root);
    assert_eq!(a.elements.len(), b.elements.len());
    for i in 0..a.elements.len() {
        let (ka, ea) = a.elements.get_index(i).unwrap();
        let (kb, eb) = b.elements.get_index(i).unwrap();
        assert_eq!(ka, kb);
        assert_eq!(ea, eb);
    }
}

#[test]
fn array_peripheral_is_refused() {
    let d = device(vec![MaybeArray::Array(
        Peripheral {
            name: "P[%s]".to_string(),
            base_address: 0x0,
            description: None,
            registers: vec![],
        },
        Dim { dim: 2, dim_increment: 0x1000 },
    )]);
    assert!(matches!(Rdf::from_device(&d), Err(TransformError::PeripheralArray)));
}

#[test]
fn array_field_is_refused() {
    let d = single_peripheral(
        "P",
        0x0,
        vec![register(
            "R",
            0x0,
            vec![MaybeArray::Array(
                SvdField {
                    name: "F[%s]".to_string(),
                    lsb: 0,
                    nbits: 4,
                    access: None,
                    description: None,
                },
                Dim { dim: 2, dim_increment: 4 },
            )],
        )],
    );
    assert!(matches!(Rdf::from_device(&d), Err(TransformError::FieldArray)));
}

#[test]
fn names_are_lower_cased() {
    let d = single_peripheral("GPIOA", 0x0, vec![register("MODER", 0x0, vec![])]);
    let rdf = Rdf::from_device(&d).unwrap();
    let ids: Vec<&String> = rdf.elements.keys().collect();
    assert_eq!(ids, vec!["gpioa", "gpioa.moder"]);
    assert_eq!(rdf.root.children, vec!["gpioa".to_string()]);
}

#[test]
fn field_metadata_is_carried_over() {
    let d = single_peripheral(
        "P",
        0x0,
        vec![RegisterCluster::Register(MaybeArray::Single(Register {
            name: "R".to_string(),
            address_offset: 0x0,
            description: Some("the register".to_string()),
            fields: vec![MaybeArray::Single(SvdField {
                name: "EN".to_string(),
                lsb: 0,
                nbits: 32,
                access: Some("read-write".to_string()),
                description: Some("enable".to_string()),
            })],
        }))],
    );
    let rdf = Rdf::from_device(&d).unwrap();
    let e = rdf.elements.get("p.r").unwrap();
    assert_eq!(e.doc, "the register");
    let fields = expect_register_fields(&rdf, "p.r");
    assert_eq!(fields.len(), 1);
    assert_eq!(fields[0].name, "en");
    assert_eq!(fields[0].access, "read-write");
    assert_eq!(fields[0].doc, "enable");
    assert_eq!(fields[0].reset, 0);
}

#[test]
fn identifier_helpers() {
    assert_eq!(usize_dec(0), "0");
    assert_eq!(usize_dec(7), "7");
    assert_eq!(usize_dec(1234), "1234");
    assert_eq!(instance_id("ch[%s]", 3), "ch3");
    assert_eq!(instance_id("plain", 3), "plain");
    assert_eq!(instance_id("a[%s]b[%s]", 10), "a10b10");
    assert_eq!(dotted("p", "r"), "p.r");
    assert_eq!(dotted("p.c", "r"), "p.c.r");
}

#[test]
fn reserved_fields_are_numbered_in_discovery_order() {
    // Interior gaps are numbered first in ascending position, then the
    // leading gap, then the trailing gap — so the leading gap's reserved
    // field can carry a higher number than an interior one above it.
    let d = single_peripheral(
        "P",
        0x0,
        vec![register("R", 0x0, vec![field("a", 8, 4), field("b", 16, 4)])],
    );
    let rdf = Rdf::from_device(&d).unwrap();
    let fields = expect_register_fields(&rdf, "p.r");
    let got: Vec<(String, u32, u32)> =
        fields.iter().map(|f| (f.name.clone(), f.lsb, f.nbits)).collect();
    assert_eq!(
        got,
        vec![
            ("rsvd2".to_string(), 20, 12),
            ("b".to_string(), 16, 4),
            ("rsvd0".to_string(), 12, 4),
            ("a".to_string(), 8, 4),
            ("rsvd1".to_string(), 0, 8),
        ]
    );
}

#[test]
fn empty_device_yields_empty_catalog() {
    let d = device(vec![]);
    let rdf = Rdf::from_device(&d).unwrap();
    assert_eq!(rdf.elements.len(), 0);
    assert!(rdf.root.children.is_empty());
    assert_eq!(rdf.schema.version, "v0.2");
}
