use readcon_core::iterators::ConFrameIterator;
use readcon_core::number::Number;
use readcon_core::types::{ConFrame, ConFrameBuilder};
use readcon_core::writer::ConFrameWriter;

fn num(x: f64, precision: usize) -> Number {
    Number::parse(&format!("{:.*}", precision, x)).unwrap()
}

fn triple(v: [f64; 3], precision: usize) -> [Number; 3] {
    [num(v[0], precision), num(v[1], precision), num(v[2], precision)]
}

fn float(v: &Number) -> f64 {
    std::str::from_utf8(v.as_bytes()).unwrap().parse::<f64>().unwrap()
}

fn optional(v: &Option<Number>) -> Option<f64> {
    v.as_ref().map(float)
}

fn frames_of(text: &str) -> Vec<ConFrame> {
    let mut parser = ConFrameIterator::new(text);
    let mut frames = Vec::new();
    while let Some(r) = parser.next() {
        frames.push(r.unwrap());
    }
    frames
}

const TINY_MULTI: &str = "Random Number Seed\nTime\n15.345600\t21.702000\t100.000000\n90.000000\t90.000000\t90.000000\n0 0\n218 0 1\n2\n2 2\n63.546000 1.007930\nCu\nCoordinates of Component 1\n0.639400 0.904500 6.975300 1 0\n3.197000 0.904500 6.975300 1 1\nH\nCoordinates of Component 2\n8.682300 9.947000 11.733000 0 2\n7.942100 9.947000 11.733000 0 3\nRandom Number Seed\nTime\n15.345600\t21.702000\t100.000000\n90.000000\t90.000000\t90.000000\n0 0\n218 0 1\n2\n2 2\n63.546000 1.007930\nCu\nCoordinates of Component 1\n0.639400 0.904500 6.975300 1 0\n3.197000 0.904500 6.975300 1 1\nH\nCoordinates of Component 2\n8.854900 9.947000 11.162000 0 2\n7.769500 9.947000 11.162000 0 3\n";

#[test]
fn test_writer_roundtrip() {
    let frames_before = frames_of(TINY_MULTI);
    assert!(!frames_before.is_empty());

    let mut writer = ConFrameWriter::new();
    writer.extend(&frames_before);
    let buffer = writer.into_bytes();

    let fdat_roundtrip = String::from_utf8(buffer).expect("Buffer is not valid UTF-8.");
    let frames_roundtrip = frames_of(&fdat_roundtrip);

    assert_eq!(
        frames_before.len(),
        frames_roundtrip.len(),
        "Number of frames should be the same after roundtrip."
    );
    assert_eq!(
        frames_before, frames_roundtrip,
        "Frame data should be identical after a read-write-read roundtrip."
    );
}

#[test]
fn test_builder_roundtrip() {
    let p = 17;
    let mut builder = ConFrameBuilder::new(
        triple([15.345600, 21.702000, 100.000000], p),
        triple([90.0, 90.0, 90.0], p),
    )
    .prebox_header(["Random Number Seed".to_string(), "Time".to_string()])
    .postbox_header(["0 0".to_string(), "218 0 1".to_string()]);
    builder.add_atom(
        "Cu",
        num(0.639400000000001, p),
        num(0.904500000000000, p),
        num(6.975299999999995, p),
        true,
        0,
        num(63.546, p),
    );
    builder.add_atom(
        "Cu",
        num(3.196999999999999, p),
        num(0.904500000000000, p),
        num(6.975299999999995, p),
        true,
        1,
        num(63.546, p),
    );
    builder.add_atom(
        "H",
        num(8.682299999999999, p),
        num(9.946999999999997, p),
        num(11.732999999999993, p),
        false,
        2,
        num(1.008, p),
    );
    let frame = builder.build();

    let mut writer = ConFrameWriter::new();
    writer.write_frame(&frame);
    let buffer = writer.into_bytes();

    let fdat = String::from_utf8(buffer).expect("Buffer is not valid UTF-8.");
    let frames_roundtrip = frames_of(&fdat);
    assert_eq!(frames_roundtrip.len(), 1);

    let rt = &frames_roundtrip[0];
    assert_eq!(rt.header.natm_types, 2);
    assert_eq!(rt.header.natms_per_type, vec![2, 1]);
    assert_eq!(float(&rt.atom_data[0].x), 0.639400000000001);
    assert_eq!(float(&rt.atom_data[0].y), 0.904500000000000);
    assert_eq!(float(&rt.atom_data[2].x), 8.682299999999999);
    assert_eq!(rt, &frame);
}

#[test]
fn test_writer_precision_default_vs_high() {
    let x = 1.23456789012345678;
    let build = |p: usize| {
        let mut builder =
            ConFrameBuilder::new(triple([10.0, 10.0, 10.0], p), triple([90.0, 90.0, 90.0], p));
        builder.add_atom("Cu", num(x, p), num(0.0, p), num(0.0, p), false, 0, num(63.546, p));
        builder.build()
    };

    let mut w = ConFrameWriter::new();
    w.write_frame(&build(6));
    let s6 = String::from_utf8(w.into_bytes()).unwrap();
    let frames6 = frames_of(&s6);
    assert!((float(&frames6[0].atom_data[0].x) - 1.234568).abs() < 1e-5);

    let mut w = ConFrameWriter::new();
    w.write_frame(&build(17));
    let s17 = String::from_utf8(w.into_bytes()).unwrap();
    let frames17 = frames_of(&s17);
    assert!((float(&frames17[0].atom_data[0].x) - 1.23456789012345678).abs() < 1e-14);
}

#[test]
fn test_builder_velocity_roundtrip() {
    let p = 6;
    let mut builder =
        ConFrameBuilder::new(triple([10.0, 10.0, 10.0], p), triple([90.0, 90.0, 90.0], p));
    builder.add_atom_with_velocity(
        "Cu",
        num(1.0, p),
        num(2.0, p),
        num(3.0, p),
        true,
        0,
        num(63.546, p),
        num(0.1, p),
        num(0.2, p),
        num(0.3, p),
    );
    builder.add_atom_with_velocity(
        "H",
        num(4.0, p),
        num(5.0, p),
        num(6.0, p),
        false,
        1,
        num(1.008, p),
        num(0.4, p),
        num(0.5, p),
        num(0.6, p),
    );
    let frame = builder.build();

    assert!(frame.has_velocities());

    let mut writer = ConFrameWriter::new();
    writer.write_frame(&frame);
    let buffer = writer.into_bytes();

    let fdat = String::from_utf8(buffer).expect("Buffer is not valid UTF-8.");
    let frames = frames_of(&fdat);
    assert_eq!(frames.len(), 1);
    assert!(frames[0].has_velocities());
    assert_eq!(optional(&frames[0].atom_data[0].vx), Some(0.1));
    assert_eq!(optional(&frames[0].atom_data[1].vz), Some(0.6));
}

#[test]
fn a_frame_is_written_line_by_line() {
    let mut builder = ConFrameBuilder::new(
        [
            Number::parse("10.5").unwrap(),
            Number::parse("20").unwrap(),
            Number::parse("3e1").unwrap(),
        ],
        [
            Number::parse("90.0").unwrap(),
            Number::parse("90.0").unwrap(),
            Number::parse("90.0").unwrap(),
        ],
    )
    .prebox_header(["first".to_string(), "second".to_string()])
    .postbox_header(["third".to_string(), "fourth".to_string()]);
    let n = |s: &str| Number::parse(s).unwrap();
    builder.add_atom_with_velocity(
        "H", n("0.5"), n("1.5"), n("2.5"), false, 7, n("1.008"), n("-1"), n("+2"), n(".3"),
    );
    builder.add_atom_with_velocity(
        "Cu", n("3"), n("4"), n("5"), true, 18446744073709551615, n("63.5"), n("0"), n("0"),
        n("0"),
    );
    let frame = builder.build();
    let mut writer = ConFrameWriter::new();
    writer.write_frame(&frame);
    let text = String::from_utf8(writer.as_bytes().to_vec()).unwrap();
    assert_eq!(
        text,
        "first\nsecond\n10.5 20 3e1\n90.0 90.0 90.0\nthird\nfourth\n2\n1 1\n1.008 63.5\n\
         H\nCoordinates of Component 1\n0.5 1.5 2.5 0 7\n\
         Cu\nCoordinates of Component 2\n3 4 5 1 18446744073709551615\n\
         \n\
         H\nVelocities of Component 1\n-1 +2 .3 0 7\n\
         Cu\nVelocities of Component 2\n0 0 0 1 18446744073709551615\n"
    );
    let back = frames_of(&text);
    assert_eq!(back, vec![frame]);
}

#[test]
fn an_empty_frame_is_written_and_read_again() {
    let n = |s: &str| Number::parse(s).unwrap();
    let frame = ConFrameBuilder::new([n("1"), n("2"), n("3")], [n("90"), n("90"), n("90")]).build();
    let mut writer = ConFrameWriter::new();
    writer.write_frame(&frame);
    writer.write_frame(&frame);
    let text = String::from_utf8(writer.into_bytes()).unwrap();
    assert_eq!(text, "\n\n1 2 3\n90 90 90\n\n\n0\n\n\n\n\n1 2 3\n90 90 90\n\n\n0\n\n\n");
}

#[test]
fn a_blank_first_line_behind_plain_coordinates_is_taken_for_velocities() {
    let n = |s: &str| Number::parse(s).unwrap();
    let build = |first: &str| {
        let mut b = ConFrameBuilder::new([n("1"), n("2"), n("3")], [n("90"), n("90"), n("90")])
            .prebox_header([first.to_string(), "second".to_string()]);
        b.add_atom("H", n("0"), n("0"), n("0"), false, 1, n("1.008"));
        b.build()
    };
    let named = vec![build("one"), build("two")];
    let mut writer = ConFrameWriter::new();
    writer.extend(&named);
    let text = String::from_utf8(writer.into_bytes()).unwrap();
    assert_eq!(readcon_core::iterators::read_all_frames(&text).unwrap(), named);

    let unnamed = vec![build("one"), build("")];
    let mut writer = ConFrameWriter::new();
    writer.extend(&unnamed);
    let text = String::from_utf8(writer.into_bytes()).unwrap();
    assert_eq!(
        readcon_core::iterators::read_all_frames(&text),
        Err(readcon_core::error::ParseError::IncompleteVelocitySection)
    );
}

#[test]
fn mixed_velocities_are_not_read_as_they_were_written() {
    let n = |s: &str| Number::parse(s).unwrap();
    let mut b = ConFrameBuilder::new([n("1"), n("2"), n("3")], [n("90"), n("90"), n("90")]);
    b.add_atom_with_velocity("H", n("0"), n("0"), n("0"), false, 1, n("1"), n("1"), n("2"), n("3"));
    b.add_atom("H", n("0"), n("0"), n("0"), false, 2, n("1"));
    let frame = b.build();
    let mut writer = ConFrameWriter::new();
    writer.write_frame(&frame);
    let text = String::from_utf8(writer.into_bytes()).unwrap();
    let back = frames_of(&text);
    assert_eq!(back.len(), 1);
    assert_ne!(back[0], frame);
    assert_eq!(optional(&back[0].atom_data[1].vx), Some(0.0));
}
