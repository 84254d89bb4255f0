use readcon_core::error::{ParseError, ReadError};
use readcon_core::iterators::{
    parse_frames_parallel, read_all_frames, read_first_frame, ConFrameIterator,
};
use readcon_core::types::ConFrame;

fn frame_text(tag: &str, counts: &[usize], velocities: bool) -> String {
    let mut s = String::new();
    s.push_str(&format!("pre {}\nsecond\n1.0 2.0 3.0\n90 90 90\nthird\nfourth\n", tag));
    s.push_str(&format!("{}\n", counts.len()));
    let c: Vec<String> = counts.iter().map(|n| n.to_string()).collect();
    s.push_str(&format!("{}\n", c.join(" ")));
    let m: Vec<String> = counts.iter().map(|_| "1.5".to_string()).collect();
    s.push_str(&format!("{}\n", m.join(" ")));
    let mut id = 0;
    for (t, n) in counts.iter().enumerate() {
        s.push_str(&format!("S{}\nCoordinates of Component {}\n", t, t + 1));
        for _ in 0..*n {
            s.push_str(&format!("{}.5 0 0 {} {}\n", id, id % 2, id));
            id += 1;
        }
    }
    if velocities {
        s.push_str("\n");
        let mut id = 0;
        for (t, n) in counts.iter().enumerate() {
            s.push_str(&format!("S{}\nVelocities of Component {}\n", t, t + 1));
            for _ in 0..*n {
                s.push_str(&format!("0.{} 0 0 {} {}\n", id, id % 2, id));
                id += 1;
            }
        }
    }
    s
}

fn sequential(text: &str) -> Vec<Result<ConFrame, ParseError>> {
    let mut it = ConFrameIterator::new(text);
    let mut out = Vec::new();
    while let Some(r) = it.next() {
        let failed = r.is_err();
        out.push(r);
        if failed {
            break;
        }
    }
    out
}

#[test]
fn no_lines_give_no_frame() {
    let mut it = ConFrameIterator::new("");
    assert!(it.next().is_none());
    assert!(it.forward().is_none());
    assert_eq!(read_all_frames("").unwrap(), Vec::<ConFrame>::new());
    assert_eq!(read_first_frame("").unwrap_err(), ReadError::NoFrames);
    assert_eq!(
        read_first_frame("").unwrap_err().to_string(),
        "No frames found in file"
    );
    assert!(parse_frames_parallel("").is_empty());
}

#[test]
fn skipping_lands_where_reading_lands() {
    let text = format!(
        "{}{}{}{}",
        frame_text("a", &[2, 1], false),
        frame_text("b", &[1], true),
        frame_text("c", &[0, 3], true),
        frame_text("d", &[1, 1, 1], false)
    );
    let all = read_all_frames(&text).unwrap();
    assert_eq!(all.len(), 4);
    for k in 0..4 {
        let mut it = ConFrameIterator::new(&text);
        for _ in 0..k {
            assert_eq!(it.forward(), Some(Ok(())));
        }
        let frame = it.next().unwrap().unwrap();
        assert_eq!(frame, all[k]);
        assert_eq!(frame.header.prebox_header[0], format!("pre {}", ["a", "b", "c", "d"][k]));
    }
    let mut it = ConFrameIterator::new(&text);
    for _ in 0..4 {
        assert_eq!(it.forward(), Some(Ok(())));
    }
    assert_eq!(it.forward(), None);
    assert_eq!(it.position(), text.len());
}

#[test]
fn parallel_reading_gives_what_sequential_reading_gives() {
    let text = format!(
        "{}{}{}",
        frame_text("a", &[2, 1], false),
        frame_text("b", &[1], true),
        frame_text("c", &[4], false)
    );
    let parallel = parse_frames_parallel(&text);
    assert_eq!(parallel.len(), 3);
    assert_eq!(parallel, sequential(&text));
    assert_eq!(parallel[1].as_ref().unwrap().atom_data.len(), 1);
    assert!(parallel[1].as_ref().unwrap().has_velocities());
    assert_eq!(parallel[2].as_ref().unwrap().header.prebox_header[0], "pre c");

    let windows = text.replace("\n", "\r\n");
    let parallel = parse_frames_parallel(&windows);
    assert_eq!(parallel.len(), 3);
    assert_eq!(parallel, sequential(&windows));
}

#[test]
fn parallel_reading_reports_a_bad_frame_in_its_place() {
    let good = frame_text("a", &[2], false);
    let bad = frame_text("b", &[2], false).replace("1.5 0 0 1 1", "1.5 0 zero 1 1");
    let text = format!("{}{}{}", good, bad, frame_text("c", &[1], false));
    let parallel = parse_frames_parallel(&text);
    assert_eq!(parallel.len(), 3);
    assert!(parallel[0].is_ok());
    assert_eq!(
        parallel[1],
        Err(ParseError::InvalidNumberFormat("invalid float literal".to_string()))
    );
    assert!(parallel[2].is_ok());
}

#[test]
fn parallel_reading_stops_at_a_header_that_cannot_be_passed_over() {
    let text = format!("{}pre\nsecond\n1 2 3\n", frame_text("a", &[1], false));
    let parallel = parse_frames_parallel(&text);
    assert_eq!(parallel.len(), 2);
    assert!(parallel[0].is_ok());
    assert_eq!(parallel[1], Err(ParseError::IncompleteHeader));
}

#[test]
fn a_frame_cut_short_is_an_error() {
    let whole = frame_text("a", &[2, 2], false);
    let cut = &whole[..whole.trim_end().rfind('\n').unwrap()];
    let mut it = ConFrameIterator::new(cut);
    assert_eq!(it.next(), Some(Err(ParseError::IncompleteFrame)));
    assert_eq!(
        ParseError::IncompleteFrame.to_string(),
        "file ended unexpectedly while reading atom data"
    );
    let mut it = ConFrameIterator::new(cut);
    assert_eq!(it.forward(), Some(Err(ParseError::IncompleteFrame)));
    assert_eq!(read_all_frames(cut), Err(ParseError::IncompleteFrame));
    assert_eq!(
        read_first_frame(cut),
        Err(ReadError::Parse(ParseError::IncompleteFrame))
    );
}

#[test]
fn a_header_cut_short_is_an_error() {
    let mut it = ConFrameIterator::new("pre\nsecond\n1 2 3\n90 90 90\n");
    assert_eq!(it.next(), Some(Err(ParseError::IncompleteHeader)));
    assert_eq!(it.next(), None);
    assert_eq!(
        ParseError::IncompleteHeader.to_string(),
        "file ended unexpectedly while parsing frame header"
    );
    let mut it = ConFrameIterator::new("pre\nsecond\n1 2 3\n90 90 90\nc\nd\nmany\n");
    assert_eq!(
        it.forward(),
        Some(Err(ParseError::InvalidNumberFormat(
            "invalid digit found in string".to_string()
        )))
    );
    assert_eq!(
        ParseError::InvalidNumberFormat("invalid digit found in string".to_string()).to_string(),
        "invalid number format: invalid digit found in string"
    );
}

#[test]
fn velocities_cut_short_are_an_error() {
    let whole = frame_text("a", &[2], true);
    let cut = &whole[..whole.trim_end().rfind('\n').unwrap()];
    let mut it = ConFrameIterator::new(cut);
    assert_eq!(it.next(), Some(Err(ParseError::IncompleteVelocitySection)));
    let mut it = ConFrameIterator::new(cut);
    assert_eq!(
        it.forward(),
        Some(Err(ParseError::IncompleteVelocitySection))
    );
}

#[test]
fn skipping_counts_lines_beyond_any_text() {
    let text = "a\nb\n1 2 3\n90 90 90\nc\nd\n2\n18446744073709551615 18446744073709551615\n1 1\nH\nx\n";
    let mut it = ConFrameIterator::new(text);
    assert_eq!(it.forward(), Some(Err(ParseError::IncompleteFrame)));
    assert_eq!(it.forward(), None);
}

#[test]
fn first_frame_and_all_frames() {
    let text = format!("{}{}", frame_text("a", &[1], false), frame_text("b", &[2], true));
    let first = read_first_frame(&text).unwrap();
    let all = read_all_frames(&text).unwrap();
    assert_eq!(all.len(), 2);
    assert_eq!(first, all[0]);
    assert_eq!(all[1].atom_data.len(), 2);
    let broken = format!("{}{}", text, "tail\n");
    assert_eq!(read_all_frames(&broken), Err(ParseError::IncompleteHeader));
    assert_eq!(read_first_frame(&broken).unwrap(), first);
}
