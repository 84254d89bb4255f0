use readcon_core::number::Number;
use readcon_core::types::{ConFrame, ConFrameBuilder};

fn num(x: f64) -> Number {
    Number::parse(&format!("{:?}", x)).unwrap()
}

fn triple(v: [f64; 3]) -> [Number; 3] {
    [num(v[0]), num(v[1]), num(v[2])]
}

fn float(v: &Number) -> f64 {
    std::str::from_utf8(v.as_bytes()).unwrap().parse::<f64>().unwrap()
}

fn optional(v: &Option<Number>) -> Option<f64> {
    v.as_ref().map(float)
}

#[test]
fn test_builder_basic() {
    let mut builder = ConFrameBuilder::new(triple([10.0, 20.0, 30.0]), triple([90.0, 90.0, 90.0]));
    builder.add_atom("Cu", num(0.0), num(0.0), num(0.0), true, 0, num(63.546));
    builder.add_atom("Cu", num(1.0), num(0.0), num(0.0), true, 1, num(63.546));
    builder.add_atom("H", num(2.0), num(3.0), num(4.0), false, 2, num(1.008));
    let frame = builder.build();

    assert_eq!(frame.header.natm_types, 2);
    assert_eq!(frame.header.natms_per_type, vec![2, 1]);
    let masses: Vec<f64> = frame.header.masses_per_type.iter().map(float).collect();
    assert_eq!(masses, vec![63.546, 1.008]);
    assert_eq!(frame.atom_data.len(), 3);
    assert_eq!(&*frame.atom_data[0].symbol, "Cu");
    assert_eq!(&*frame.atom_data[2].symbol, "H");
}

#[test]
fn test_builder_with_velocities() {
    let mut builder = ConFrameBuilder::new(triple([10.0, 10.0, 10.0]), triple([90.0, 90.0, 90.0]));
    builder.add_atom_with_velocity(
        "Cu",
        num(0.0),
        num(0.0),
        num(0.0),
        true,
        0,
        num(63.546),
        num(0.1),
        num(0.2),
        num(0.3),
    );
    let frame = builder.build();

    assert!(frame.has_velocities());
    assert_eq!(optional(&frame.atom_data[0].vx), Some(0.1));
    assert_eq!(optional(&frame.atom_data[0].vy), Some(0.2));
    assert_eq!(optional(&frame.atom_data[0].vz), Some(0.3));
}

#[test]
fn test_builder_with_headers() {
    let frame = ConFrameBuilder::new(triple([10.0, 10.0, 10.0]), triple([90.0, 90.0, 90.0]))
        .prebox_header(["line1".to_string(), "line2".to_string()])
        .postbox_header(["line3".to_string(), "line4".to_string()])
        .build();

    assert_eq!(frame.header.prebox_header, ["line1", "line2"]);
    assert_eq!(frame.header.postbox_header, ["line3", "line4"]);
}

#[test]
fn test_builder_groups_atoms_by_symbol() {
    let mut builder = ConFrameBuilder::new(triple([10.0, 10.0, 10.0]), triple([90.0, 90.0, 90.0]));
    builder.add_atom("H", num(0.0), num(0.0), num(0.0), false, 0, num(1.008));
    builder.add_atom("Cu", num(1.0), num(0.0), num(0.0), true, 1, num(63.546));
    builder.add_atom("H", num(2.0), num(0.0), num(0.0), false, 2, num(1.008));
    let frame = builder.build();

    assert_eq!(frame.header.natm_types, 2);
    assert_eq!(frame.header.natms_per_type, vec![2, 1]);
    assert_eq!(&*frame.atom_data[0].symbol, "H");
    assert_eq!(&*frame.atom_data[1].symbol, "H");
    assert_eq!(&*frame.atom_data[2].symbol, "Cu");
}

#[test]
fn builder_keeps_the_order_within_a_type_and_the_first_mass() {
    let mut builder = ConFrame::builder(triple([1.0, 2.0, 3.0]), triple([90.0, 90.0, 90.0]));
    builder.add_atom("H", num(0.0), num(0.0), num(0.0), false, 10, num(1.0));
    builder.add_atom("Cu", num(1.0), num(0.0), num(0.0), true, 11, num(63.5));
    builder.add_atom("O", num(1.5), num(0.0), num(0.0), true, 12, num(16.0));
    builder.add_atom("H", num(2.0), num(0.0), num(0.0), false, 13, num(2.0));
    builder.add_atom("Cu", num(3.0), num(0.0), num(0.0), false, 14, num(65.0));
    let frame = builder.build();

    assert_eq!(frame.header.natm_types, 3);
    assert_eq!(frame.header.natms_per_type, vec![2, 2, 1]);
    let masses: Vec<f64> = frame.header.masses_per_type.iter().map(float).collect();
    assert_eq!(masses, vec![1.0, 63.5, 16.0]);
    let ids: Vec<u64> = frame.atom_data.iter().map(|a| a.atom_id).collect();
    assert_eq!(ids, vec![10, 13, 11, 14, 12]);
    let symbols: Vec<&str> = frame.atom_data.iter().map(|a| a.symbol.as_str()).collect();
    assert_eq!(symbols, vec!["H", "H", "Cu", "Cu", "O"]);
    assert_eq!(floats3(&frame.header.boxl), [1.0, 2.0, 3.0]);
    assert!(!frame.has_velocities());
    assert!(!frame.atom_data[0].has_velocity());
}

fn floats3(v: &[Number; 3]) -> [f64; 3] {
    [float(&v[0]), float(&v[1]), float(&v[2])]
}

#[test]
fn builder_without_atoms_gives_an_empty_frame() {
    let frame = ConFrameBuilder::new(triple([1.0, 1.0, 1.0]), triple([90.0, 90.0, 90.0])).build();
    assert_eq!(frame.header.natm_types, 0);
    assert!(frame.header.natms_per_type.is_empty());
    assert!(frame.header.masses_per_type.is_empty());
    assert!(frame.atom_data.is_empty());
    assert_eq!(frame.header.prebox_header, ["", ""]);
    assert!(!frame.has_velocities());
}

#[test]
fn frames_of_two_kinds_are_told_apart() {
    let mut builder = ConFrameBuilder::new(triple([1.0, 1.0, 1.0]), triple([90.0, 90.0, 90.0]));
    builder.add_atom("H", num(0.0), num(0.0), num(0.0), false, 0, num(1.0));
    assert!(ConFrameBuilder::new(triple([1.0, 1.0, 1.0]), triple([90.0, 90.0, 90.0]))
        .build()
        .velocities_are_uniform());
    builder.add_atom_with_velocity(
        "H", num(0.0), num(0.0), num(0.0), false, 1, num(1.0), num(1.0), num(1.0), num(1.0),
    );
    let mut frame = builder.build();
    assert!(!frame.velocities_are_uniform());
    frame.atom_data[0].vx = Some(num(1.0));
    assert!(!frame.velocities_are_uniform());
    frame.atom_data[0].vy = Some(num(1.0));
    frame.atom_data[0].vz = Some(num(1.0));
    assert!(frame.velocities_are_uniform());
}
