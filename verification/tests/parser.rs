use readcon_core::error::ParseError;
use readcon_core::number::Number;
use readcon_core::parser::{
    parse_frame_header, parse_line_of_n, parse_single_frame, parse_velocity_section,
};
use readcon_core::text::LineCursor;

fn float(v: &Number) -> f64 {
    std::str::from_utf8(v.as_bytes()).unwrap().parse::<f64>().unwrap()
}

fn floats(values: &[Number]) -> Vec<f64> {
    values.iter().map(float).collect()
}

fn optional(v: &Option<Number>) -> Option<f64> {
    v.as_ref().map(float)
}

#[test]
fn test_parse_line_of_n_success() {
    let line = "1.0 2.5 -3.0";
    let values = parse_line_of_n::<Number>(line, 3).unwrap();
    assert_eq!(floats(&values), vec![1.0, 2.5, -3.0]);
}

#[test]
fn test_parse_line_of_n_too_short() {
    let line = "1.0 2.5";
    let result = parse_line_of_n::<Number>(line, 3);
    assert!(result.is_err());
    assert!(matches!(
        result.unwrap_err(),
        ParseError::InvalidVectorLength {
            expected: 3,
            found: 2
        }
    ));
}

#[test]
fn test_parse_line_of_n_too_long() {
    let line = "1.0 2.5 -3.0 4.0";
    let result = parse_line_of_n::<Number>(line, 3);
    assert!(result.is_err());
    assert!(matches!(
        result.unwrap_err(),
        ParseError::InvalidVectorLength {
            expected: 3,
            found: 4
        }
    ));
}

#[test]
fn test_parse_line_of_n_invalid_float() {
    let line = "1.0 abc -3.0";
    let result = parse_line_of_n::<Number>(line, 3);
    assert!(result.is_err());
    assert!(matches!(
        result.unwrap_err(),
        ParseError::InvalidNumberFormat(_)
    ));
}

#[test]
fn test_parse_frame_header_success() {
    let lines = vec![
        "PREBOX1",
        "PREBOX2",
        "10.0 20.0 30.0",
        "90.0 90.0 90.0",
        "POSTBOX1",
        "POSTBOX2",
        "2",
        "1 1",
        "12.011 1.008",
    ];
    let text = lines.join("\n");
    let mut line_it = LineCursor::new(&text);
    match parse_frame_header(&mut line_it) {
        Ok(header) => {
            assert_eq!(header.prebox_header, ["PREBOX1", "PREBOX2"]);
            assert_eq!(floats(&header.boxl), [10.0, 20.0, 30.0]);
            assert_eq!(floats(&header.angles), [90.0, 90.0, 90.0]);
            assert_eq!(header.postbox_header, ["POSTBOX1", "POSTBOX2"]);
            assert_eq!(header.natm_types, 2);
            assert_eq!(header.natms_per_type, vec![1, 1]);
            assert_eq!(floats(&header.masses_per_type), vec![12.011, 1.008]);
        }
        Err(e) => {
            panic!(
                "Parsing failed when it should have succeeded. Error: {:?}",
                e
            );
        }
    }
}

#[test]
fn test_parse_frame_header_missing_line() {
    let lines = vec![
        "PREBOX1",
        "PREBOX2",
        "10.0 20.0 30.0",
        "90.0 90.0 90.0",
        "POSTBOX1",
        "POSTBOX2",
        "2",
        "1 1",
    ];
    let text = lines.join("\n");
    let mut line_it = LineCursor::new(&text);
    let result = parse_frame_header(&mut line_it);
    assert!(result.is_err());
    assert!(matches!(result.unwrap_err(), ParseError::IncompleteHeader));
}

#[test]
fn test_parse_frame_header_invalid_natms_per_type() {
    let lines = vec![
        "PREBOX1",
        "PREBOX2",
        "10.0 20.0 30.0",
        "90.0 90.0 90.0",
        "POSTBOX1",
        "POSTBOX2",
        "2",
        "1 1 1",
        "12.011 1.008",
    ];
    let text = lines.join("\n");
    let mut line_it = LineCursor::new(&text);
    let result = parse_frame_header(&mut line_it);
    assert!(result.is_err());
    assert!(matches!(
        result.unwrap_err(),
        ParseError::InvalidVectorLength {
            expected: 2,
            found: 3
        }
    ));
}

#[test]
fn test_parse_single_frame_success() {
    let lines = vec![
        "PREBOX1",
        "PREBOX2",
        "10.0 20.0 30.0",
        "90.0 90.0 90.0",
        "POSTBOX1",
        "POSTBOX2",
        "2",
        "3 3",
        "12.011 1.008",
        "1",
        "Coordinates of Component 1",
        "0.0 0.0 0.0 0.0 1",
        "1.0940 0.0 0.0 0.0 2",
        "-0.5470 0.9499 0.0 0.0 3",
        "2",
        "Coordinates of Component 2",
        "5.0 5.0 5.0 0.0 4",
        "6.0940 5.0 5.0 0.0 5",
        "5.5470 5.9499 5.0 0.0 6",
    ];
    let text = lines.join("\n");
    let mut line_it = LineCursor::new(&text);
    let frame = parse_single_frame(&mut line_it).unwrap();

    assert_eq!(frame.header.natm_types, 2);
    assert_eq!(frame.header.natms_per_type, vec![3, 3]);
    assert_eq!(floats(&frame.header.masses_per_type), vec![12.011, 1.008]);
    assert_eq!(frame.atom_data.len(), 6);
    assert_eq!(&*frame.atom_data[0].symbol, "1");
    assert_eq!(frame.atom_data[0].atom_id, 1);
    assert_eq!(&*frame.atom_data[5].symbol, "2");
    assert_eq!(frame.atom_data[5].atom_id, 6);
}

#[test]
fn test_parse_single_frame_missing_line() {
    let lines = vec![
        "PREBOX1",
        "PREBOX2",
        "10.0 20.0 30.0",
        "90.0 90.0 90.0",
        "POSTBOX1",
        "POSTBOX2",
        "2",
        "3 3",
        "12.011 1.008",
        "1",
        "Coordinates of Component 1",
        "0.0 0.0 0.0 0.0 1",
        "1.0940 0.0 0.0 0.0 2",
        "-0.5470 0.9499 0.0 0.0 3",
    ];
    let text = lines.join("\n");
    let mut line_it = LineCursor::new(&text);
    let result = parse_single_frame(&mut line_it);
    assert!(result.is_err());
    assert!(matches!(result.unwrap_err(), ParseError::IncompleteFrame));
}

#[test]
fn test_parse_single_frame_invalid_atom_coords() {
    let lines = vec![
        "PREBOX1",
        "PREBOX2",
        "10.0 20.0 30.0",
        "90.0 90.0 90.0",
        "POSTBOX1",
        "POSTBOX2",
        "2",
        "3 3",
        "12.011 1.008",
        "1",
        "Coordinates of Component 1",
        "0.0 0.0 0.0 0.0 1",
        "1.0940 0.0 0.0 0.0 2",
        "-0.5470 0.9499 0.0 0.0 3",
        "2",
        "Coordinates of Component 2",
        "5.0 5.0 5.0 0.0",
        "6.0940 5.0 5.0 0.0 5",
        "5.5470 5.9499 5.0 0.0 6",
    ];
    let text = lines.join("\n");
    let mut line_it = LineCursor::new(&text);
    let result = parse_single_frame(&mut line_it);
    assert!(result.is_err());
    assert!(matches!(
        result.unwrap_err(),
        ParseError::InvalidVectorLength {
            expected: 5,
            found: 4
        }
    ));
}

#[test]
fn test_parse_velocity_section_present() {
    let lines = vec![
        "PREBOX1",
        "PREBOX2",
        "10.0 20.0 30.0",
        "90.0 90.0 90.0",
        "POSTBOX1",
        "POSTBOX2",
        "2",
        "1 1",
        "63.546 1.008",
        "Cu",
        "Coordinates of Component 1",
        "0.0 0.0 0.0 1.0 0",
        "H",
        "Coordinates of Component 2",
        "1.0 2.0 3.0 0.0 1",
        "",
        "Cu",
        "Velocities of Component 1",
        "0.1 0.2 0.3 1.0 0",
        "H",
        "Velocities of Component 2",
        "0.4 0.5 0.6 0.0 1",
    ];
    let text = lines.join("\n");
    let mut line_it = LineCursor::new(&text);
    let mut frame =
        parse_single_frame(&mut line_it).expect("coordinate parsing should succeed");
    assert!(!frame.has_velocities());

    let has_vel = parse_velocity_section(&mut line_it, &frame.header, &mut frame.atom_data)
        .expect("velocity parsing should succeed");
    assert!(has_vel);
    assert_eq!(optional(&frame.atom_data[0].vx), Some(0.1));
    assert_eq!(optional(&frame.atom_data[0].vy), Some(0.2));
    assert_eq!(optional(&frame.atom_data[0].vz), Some(0.3));
    assert_eq!(optional(&frame.atom_data[1].vx), Some(0.4));
    assert_eq!(optional(&frame.atom_data[1].vy), Some(0.5));
    assert_eq!(optional(&frame.atom_data[1].vz), Some(0.6));
}

#[test]
fn test_parse_velocity_section_absent() {
    let lines = vec![
        "PREBOX1",
        "PREBOX2",
        "10.0 20.0 30.0",
        "90.0 90.0 90.0",
        "POSTBOX1",
        "POSTBOX2",
        "1",
        "1",
        "12.011",
        "C",
        "Coordinates of Component 1",
        "0.0 0.0 0.0 0.0 1",
    ];
    let text = lines.join("\n");
    let mut line_it = LineCursor::new(&text);
    let mut frame = parse_single_frame(&mut line_it).expect("parse should succeed");
    let has_vel = parse_velocity_section(&mut line_it, &frame.header, &mut frame.atom_data)
        .expect("should succeed with no velocities");
    assert!(!has_vel);
    assert_eq!(optional(&frame.atom_data[0].vx), None);
}

#[test]
fn values_are_split_on_any_whitespace() {
    let values = parse_line_of_n::<Number>("\t1.5\u{a0}2.5\u{2003}\u{3000}3.5 \r", 3).unwrap();
    assert_eq!(floats(&values), vec![1.5, 2.5, 3.5]);
    let counts = parse_line_of_n::<usize>("  7\t+8 009", 3).unwrap();
    assert_eq!(counts, vec![7, 8, 9]);
    let none = parse_line_of_n::<usize>("   ", 0).unwrap();
    assert!(none.is_empty());
}

#[test]
fn first_bad_token_decides_before_the_count() {
    let result = parse_line_of_n::<Number>("1.0 x 3.0 4.0 5.0 6.0", 2);
    match result.unwrap_err() {
        ParseError::InvalidNumberFormat(m) => assert_eq!(m, "invalid float literal"),
        other => panic!("unexpected error {:?}", other),
    }
    let result = parse_line_of_n::<usize>("1 -2", 2);
    match result.unwrap_err() {
        ParseError::InvalidNumberFormat(m) => assert_eq!(m, "invalid digit found in string"),
        other => panic!("unexpected error {:?}", other),
    }
    let result = parse_line_of_n::<usize>("99999999999999999999999999", 1);
    match result.unwrap_err() {
        ParseError::InvalidNumberFormat(m) => {
            assert_eq!(m, "number too large to fit in target type")
        }
        other => panic!("unexpected error {:?}", other),
    }
}

#[test]
fn coordinate_line_with_four_fields_is_a_wrong_count() {
    let lines = vec![
        "a", "b", "1 1 1", "90 90 90", "c", "d", "1", "1", "1.0", "H", "Coordinates of Component 1",
        "0.0 0.0 0.0 0",
    ];
    let text = lines.join("\n");
    let mut line_it = LineCursor::new(&text);
    let err = parse_single_frame(&mut line_it).unwrap_err();
    assert_eq!(
        err,
        ParseError::InvalidVectorLength {
            expected: 5,
            found: 4
        }
    );
    assert_eq!(err.to_string(), "expected 5 values on line, found 4");
}

#[test]
fn flag_and_identifier_are_read_off_the_digits() {
    let lines = vec![
        "a", "b", "1 1 1", "90 90 90", "c", "d", "1", "6", "1.0", "  H\t", "label",
        "0 0 0 0.0 12",
        "0 0 0 1 12.9",
        "0 0 0 -0.000 1.5e3",
        "0 0 0 2.5e-3 -4",
        "0 0 0 nan 1e30",
        "0 0 0 0e5 inf",
    ];
    let text = lines.join("\r\n");
    let mut line_it = LineCursor::new(&text);
    let frame = parse_single_frame(&mut line_it).unwrap();
    let fixed: Vec<bool> = frame.atom_data.iter().map(|a| a.is_fixed).collect();
    let ids: Vec<u64> = frame.atom_data.iter().map(|a| a.atom_id).collect();
    assert_eq!(fixed, vec![false, true, false, true, true, false]);
    assert_eq!(ids, vec![12, 12, 1500, 0, u64::MAX, u64::MAX]);
    assert_eq!(frame.atom_data[0].symbol, "H");
}

#[test]
fn velocity_block_without_its_label_fails() {
    let lines = vec![
        "a", "b", "1 1 1", "90 90 90", "c", "d", "1", "1", "1.0", "H", "Coordinates of Component 1",
        "0 0 0 0 1", "  ", "H", "Coordinates of Component 1", "0 0 0 0 1",
    ];
    let text = lines.join("\n");
    let mut line_it = LineCursor::new(&text);
    let mut frame = parse_single_frame(&mut line_it).unwrap();
    let err =
        parse_velocity_section(&mut line_it, &frame.header, &mut frame.atom_data).unwrap_err();
    assert_eq!(err, ParseError::IncompleteVelocitySection);
    assert_eq!(
        err.to_string(),
        "file ended unexpectedly while reading velocity section"
    );
}

#[test]
fn velocities_read_before_a_failure_stay() {
    let lines = vec![
        "a", "b", "1 1 1", "90 90 90", "c", "d", "1", "2", "1.0", "H", "Coordinates of Component 1",
        "0 0 0 0 1", "0 0 0 0 2", "", "H", "Velocities of Component 1", "1 2 3 0 1",
    ];
    let text = lines.join("\n");
    let mut line_it = LineCursor::new(&text);
    let mut frame = parse_single_frame(&mut line_it).unwrap();
    let err =
        parse_velocity_section(&mut line_it, &frame.header, &mut frame.atom_data).unwrap_err();
    assert_eq!(err, ParseError::IncompleteVelocitySection);
    assert_eq!(optional(&frame.atom_data[0].vx), Some(1.0));
    assert_eq!(optional(&frame.atom_data[1].vx), None);
}
