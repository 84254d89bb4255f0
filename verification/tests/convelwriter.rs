use readcon_core::iterators::ConFrameIterator;
use readcon_core::types::ConFrame;
use readcon_core::writer::ConFrameWriter;

fn collect(text: &str) -> Vec<ConFrame> {
    let mut parser = ConFrameIterator::new(text);
    let mut frames = Vec::new();
    while let Some(r) = parser.next() {
        frames.push(r.unwrap());
    }
    frames
}

fn convel(first_velocity: &str, h_x: &str) -> String {
    format!(
        "Random Number Seed\nTime\n15.345600\t21.702000\t100.000000\n90.000000\t90.000000\t90.000000\n0 0\n218 0 1\n2\n2 2\n63.546000 1.007930\nCu\nCoordinates of Component 1\n0.639400 0.904500 6.975300 1 0\n3.197000 0.904500 6.975300 1 1\nH\nCoordinates of Component 2\n{} 9.947000 11.733000 0 2\n7.942100 9.947000 11.733000 0 3\n\nCu\nVelocities of Component 1\n{} 0.002345 -0.003456 1 0\n0.004567 0.005678 -0.006789 1 1\nH\nVelocities of Component 2\n0.012345 0.023456 -0.034567 0 2\n0.045678 -0.056789 -0.067890 0 3\n",
        h_x, first_velocity
    )
}

#[test]
fn test_convel_writer_roundtrip() {
    let fdat = convel("0.001234", "8.682300");
    let frames_before = collect(&fdat);

    assert!(!frames_before.is_empty());
    assert!(frames_before[0].has_velocities());

    let mut writer = ConFrameWriter::new();
    writer.extend(&frames_before);
    let buffer = writer.into_bytes();

    let fdat_roundtrip = String::from_utf8(buffer).expect("Buffer is not valid UTF-8.");
    let frames_roundtrip = collect(&fdat_roundtrip);

    assert_eq!(
        frames_before.len(),
        frames_roundtrip.len(),
        "Number of frames should be the same after roundtrip."
    );
    assert_eq!(
        frames_before, frames_roundtrip,
        "Frame data should be identical after a convel read-write-read roundtrip."
    );
}

#[test]
fn test_convel_multi_writer_roundtrip() {
    let fdat = format!("{}{}", convel("0.001234", "8.682300"), convel("0.001111", "8.854900"));
    let frames_before = collect(&fdat);

    assert_eq!(frames_before.len(), 2);
    assert!(frames_before[0].has_velocities());
    assert!(frames_before[1].has_velocities());

    let mut writer = ConFrameWriter::new();
    writer.extend(&frames_before);
    let buffer = writer.into_bytes();

    let fdat_roundtrip = String::from_utf8(buffer).expect("Buffer is not valid UTF-8.");
    let frames_roundtrip = collect(&fdat_roundtrip);

    assert_eq!(frames_before.len(), frames_roundtrip.len());

    for (before, after) in frames_before.iter().zip(frames_roundtrip.iter()) {
        assert_eq!(before, after);
    }
}
