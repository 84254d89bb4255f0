use readcon_core::iterators::ConFrameIterator;
use readcon_core::number::Number;
use readcon_core::types::ConFrame;

fn float(v: &Number) -> f64 {
    std::str::from_utf8(v.as_bytes()).unwrap().parse::<f64>().unwrap()
}

fn optional(v: &Option<Number>) -> Option<f64> {
    v.as_ref().map(float)
}

fn collect(text: &str) -> Vec<ConFrame> {
    let mut parser = ConFrameIterator::new(text);
    let mut frames = Vec::new();
    while let Some(r) = parser.next() {
        frames.push(r.expect("Failed to parse frame"));
    }
    frames
}

const TINY_CON: &str = "Random Number Seed\nTime\n15.345600\t21.702000\t100.000000\n90.000000\t90.000000\t90.000000\n0 0\n218 0 1\n2\n2 2\n63.546000 1.007930\nCu\nCoordinates of Component 1\n0.639400 0.904500 6.975300 1 0\n3.197000 0.904500 6.975300 1 1\nH\nCoordinates of Component 2\n8.682300 9.947000 11.733000 0 2\n7.942100 9.947000 11.733000 0 3\n";

const TINY_CONVEL: &str = "Random Number Seed\nTime\n15.345600\t21.702000\t100.000000\n90.000000\t90.000000\t90.000000\n0 0\n218 0 1\n2\n2 2\n63.546000 1.007930\nCu\nCoordinates of Component 1\n0.639400 0.904500 6.975300 1 0\n3.197000 0.904500 6.975300 1 1\nH\nCoordinates of Component 2\n8.682300 9.947000 11.733000 0 2\n7.942100 9.947000 11.733000 0 3\n\nCu\nVelocities of Component 1\n0.001234 0.002345 -0.003456 1 0\n0.004567 0.005678 -0.006789 1 1\nH\nVelocities of Component 2\n0.012345 0.023456 -0.034567 0 2\n0.045678 -0.056789 -0.067890 0 3\n";

const SECOND_CONVEL: &str = "Random Number Seed\nTime\n15.345600\t21.702000\t100.000000\n90.000000\t90.000000\t90.000000\n0 0\n218 0 1\n2\n2 2\n63.546000 1.007930\nCu\nCoordinates of Component 1\n0.639400 0.904500 6.975300 1 0\n3.197000 0.904500 6.975300 1 1\nH\nCoordinates of Component 2\n8.854900 9.947000 11.162000 0 2\n7.769500 9.947000 11.162000 0 3\n\nCu\nVelocities of Component 1\n0.001111 0.002222 -0.003333 1 0\n0.004444 0.005555 -0.006666 1 1\nH\nVelocities of Component 2\n0.011111 0.022222 -0.033333 0 2\n0.044444 -0.055555 -0.066666 0 3\n";

#[test]
fn test_convel_single_frame() {
    let frames = collect(TINY_CONVEL);
    assert_eq!(frames.len(), 1);

    let frame = &frames[0];
    assert_eq!(frame.header.natm_types, 2);
    assert_eq!(frame.atom_data.len(), 4);
    assert!(frame.has_velocities());

    let first_atom = &frame.atom_data[0];
    assert_eq!(&*first_atom.symbol, "Cu");
    assert!((float(&first_atom.x) - 0.6394).abs() < 1e-4);
    assert!(first_atom.is_fixed);

    assert_eq!(optional(&first_atom.vx), Some(0.001234));
    assert_eq!(optional(&first_atom.vy), Some(0.002345));
    assert_eq!(optional(&first_atom.vz), Some(-0.003456));

    let last_atom = &frame.atom_data[3];
    assert_eq!(&*last_atom.symbol, "H");
    assert_eq!(optional(&last_atom.vx), Some(0.045678));
    assert_eq!(optional(&last_atom.vy), Some(-0.056789));
    assert_eq!(optional(&last_atom.vz), Some(-0.06789));
    assert!(!last_atom.is_fixed);
}

#[test]
fn test_convel_multi_frame() {
    let fdat = format!("{}{}", TINY_CONVEL, SECOND_CONVEL);
    let frames = collect(&fdat);
    assert_eq!(frames.len(), 2, "Expected 2 frames in multi-frame convel");

    assert!(frames[0].has_velocities());
    assert!(frames[1].has_velocities());

    assert_eq!(optional(&frames[0].atom_data[0].vx), Some(0.001234));
    assert_eq!(optional(&frames[0].atom_data[0].vy), Some(0.002345));
    assert_eq!(optional(&frames[0].atom_data[0].vz), Some(-0.003456));

    assert_eq!(optional(&frames[1].atom_data[0].vx), Some(0.001111));
    assert_eq!(optional(&frames[1].atom_data[0].vy), Some(0.002222));
    assert_eq!(optional(&frames[1].atom_data[0].vz), Some(-0.003333));

    assert!((float(&frames[0].atom_data[2].x) - 8.6823).abs() < 1e-4);
    assert!((float(&frames[1].atom_data[2].x) - 8.8549).abs() < 1e-4);
}

#[test]
fn test_con_files_have_no_velocities() {
    let frames = collect(TINY_CON);
    assert_eq!(frames.len(), 1);
    assert!(!frames[0].has_velocities());

    for atom in &frames[0].atom_data {
        assert_eq!(optional(&atom.vx), None);
        assert_eq!(optional(&atom.vy), None);
        assert_eq!(optional(&atom.vz), None);
        assert!(!atom.has_velocity());
    }
}

#[test]
fn test_convel_forward_skip() {
    let fdat = format!("{}{}", TINY_CONVEL, SECOND_CONVEL);
    let mut parser = ConFrameIterator::new(&fdat);

    let skip_result = parser.forward();
    assert!(skip_result.is_some());
    assert!(skip_result.unwrap().is_ok());

    let second = parser.next();
    assert!(second.is_some());
    let frame = second.unwrap().expect("second frame should parse");
    assert!(frame.has_velocities());
    assert_eq!(optional(&frame.atom_data[0].vx), Some(0.001111));

    assert!(parser.next().is_none());
}

#[test]
fn every_atom_of_a_frame_with_velocities_has_all_three() {
    let frames = collect(TINY_CONVEL);
    for atom in &frames[0].atom_data {
        assert!(atom.vx.is_some() && atom.vy.is_some() && atom.vz.is_some());
        assert!(atom.has_velocity());
    }
}
