use designer1_tools::model::{Design, SignatureMode, StitchCommand, StitchPoint, Thread};
use designer1_tools::readback::{
    hex_bytes, parse_generated_shv, stitch_points_from_shv, validate_generated_shv, ShvParseError,
};
use designer1_tools::preview::{preview_fits, stats_fits};
use designer1_tools::shv::{
    build_shv, reaches_preview, threads_are_sliceable, writer_arith_fits, writer_threads_are_sliceable,
    ShvBuildError, ShvOptions,
};
use designer1_tools::stream::split_stitch_delta;
use designer1_tools::text::color_is_sliceable;

fn point(x: i32, y: i32, command: StitchCommand) -> StitchPoint {
    StitchPoint { x, y, command }
}

fn thread(color: &str) -> Thread {
    Thread {
        color: Some(color.to_owned()),
        description: None,
        catalog_number: None,
        brand: None,
    }
}

fn square(name: &str, color: &str) -> Design {
    Design {
        name: name.to_owned(),
        threads: vec![thread(color)],
        points: vec![
            point(0, 0, StitchCommand::Jump),
            point(0, 0, StitchCommand::Stitch),
            point(30, 0, StitchCommand::Stitch),
            point(30, 30, StitchCommand::Stitch),
            point(0, 30, StitchCommand::Stitch),
            point(0, 0, StitchCommand::End),
        ],
    }
}

fn options(name: Option<&str>) -> ShvOptions {
    ShvOptions {
        name: name.map(|n| n.to_owned()),
        signature: SignatureMode::Official,
    }
}

#[test]
fn written_file_validates_and_reads_back() {
    let design = square("Square", "#df5bd7");
    let bytes = build_shv(&design, &options(None)).unwrap();
    let report = validate_generated_shv(&bytes).unwrap();
    assert_eq!(report.name, "Square");
    assert_eq!(report.color_count, 1);
    assert_eq!(report.color_rows.len(), 1);
    assert_eq!(report.color_rows[0].color_index, 0);
    assert_eq!(report.total_records as usize, report.record_count_from_bytes);
    assert_eq!(report.stitch_offset + report.stitch_bytes, bytes.len());
    let e = report.summary_extents;
    assert_eq!((e.left, e.bottom), (0, 0));
    assert_eq!((e.right, e.top), (30, 30));
}

#[test]
fn option_name_overrides_design_name() {
    let design = square("Square", "#000000");
    let bytes = build_shv(&design, &options(Some("Other"))).unwrap();
    let report = parse_generated_shv(&bytes).unwrap();
    assert_eq!(report.name, "Other");
    // A near-black thread maps to color index 7.
    assert_eq!(report.color_rows[0].color_index, 7);
}

#[test]
fn zero_signature_writes_zero_notice() {
    let design = square("Z", "#df5bd7");
    let opts = ShvOptions {
        name: None,
        signature: SignatureMode::Zero,
    };
    let bytes = build_shv(&design, &opts).unwrap();
    assert!(bytes[..86].iter().all(|b| *b == 0));
    let official = build_shv(&design, &options(None)).unwrap();
    assert!(official[..86].iter().any(|b| *b != 0));
}

#[test]
fn decoded_positions_follow_the_square() {
    let design = square("Square", "#df5bd7");
    let bytes = build_shv(&design, &options(None)).unwrap();
    let points = stitch_points_from_shv(&bytes).unwrap();
    let last = points.last().unwrap();
    assert_eq!((last.0, last.1), (0, 0));
    assert!(points.iter().any(|p| p.0 == 30 && p.1 == 30));
    assert!(points.iter().all(|p| (0..=30).contains(&p.0) && (0..=30).contains(&p.1)));
}

#[test]
fn long_stitches_are_split_and_still_validate() {
    let design = Design {
        name: "Long".to_owned(),
        threads: vec![thread("#ff0000")],
        points: vec![
            point(0, 0, StitchCommand::Stitch),
            point(500, -300, StitchCommand::Stitch),
            point(0, 0, StitchCommand::Stitch),
            point(0, 0, StitchCommand::End),
        ],
    };
    let bytes = build_shv(&design, &options(None)).unwrap();
    let report = validate_generated_shv(&bytes).unwrap();
    assert!(report.total_records > 3);
    let points = stitch_points_from_shv(&bytes).unwrap();
    assert!(points.iter().any(|p| p.0 == 500 && p.1 == -300));
}

#[test]
fn design_without_stitches_is_refused() {
    let design = Design {
        name: "Empty".to_owned(),
        threads: Vec::new(),
        points: vec![point(0, 0, StitchCommand::End)],
    };
    assert_eq!(
        build_shv(&design, &options(None)).unwrap_err(),
        ShvBuildError::NoStitchRecords
    );
}

#[test]
fn short_blobs_do_not_parse() {
    assert_eq!(
        parse_generated_shv(&[]).unwrap_err(),
        ShvParseError::TooSmall
    );
    let mut blob = vec![0u8; 0x57];
    blob[0x56] = 40;
    assert_eq!(
        parse_generated_shv(&blob).unwrap_err(),
        ShvParseError::HeaderTruncated
    );
    assert!(validate_generated_shv(&blob).is_err());
    assert!(stitch_points_from_shv(&blob).is_err());
}

#[test]
fn hex_dump_is_lowercase_and_spaced() {
    assert_eq!(hex_bytes(&[0x00, 0xab, 0x7f]), "00 ab 7f");
    assert_eq!(hex_bytes(&[]), "");
}

#[test]
fn names_that_are_not_utf8_read_back_leniently() {
    let design = square("AB", "#df5bd7");
    let mut bytes = build_shv(&design, &options(None)).unwrap();
    assert_eq!(bytes[0x56], 2);
    bytes[0x57] = 0xff;
    let report = parse_generated_shv(&bytes).unwrap();
    assert_eq!(report.name, "\u{fffd}B");
}

#[test]
fn thread_colors_that_slice_inside_a_character_are_found() {
    assert!(color_is_sliceable(&None));
    assert!(color_is_sliceable(&Some("#df5bd7".to_owned())));
    assert!(color_is_sliceable(&Some("nonsense".to_owned())));
    // Six bytes, but "é" spans bytes 1 and 2: slicing at byte 2 would split it.
    assert!(!color_is_sliceable(&Some("aébcd".to_owned())));
    let mut design = square("S", "#df5bd7");
    assert!(threads_are_sliceable(&design));
    design.threads[0].color = Some("aébcd".to_owned());
    assert!(!threads_are_sliceable(&design));
    // A thread that no color change reaches is never parsed.
    design.threads.insert(0, thread("#000000"));
    assert!(threads_are_sliceable(&design));
}

#[test]
fn read_points_are_the_design_path() {
    let design = square("Square", "#df5bd7");
    let bytes = build_shv(&design, &options(None)).unwrap();
    let points = stitch_points_from_shv(&bytes).unwrap();
    assert_eq!(
        points,
        vec![(0, 0, false), (0, 0, true), (30, 0, true), (30, 30, true), (0, 30, true), (0, 0, false)]
    );
    // A stitch of 200 is split in two records of 100.
    let long = Design {
        name: "L".to_owned(),
        threads: vec![thread("#ff0000")],
        points: vec![point(0, 0, StitchCommand::Stitch), point(200, 0, StitchCommand::Stitch)],
    };
    let bytes = build_shv(&long, &options(None)).unwrap();
    let points = stitch_points_from_shv(&bytes).unwrap();
    assert_eq!(points, vec![(0, 0, true), (100, 0, true), (200, 0, true), (0, 0, false)]);
}

#[test]
fn writer_and_preview_bounds() {
    let design = square("S", "#df5bd7");
    assert!(writer_arith_fits(&design));
    assert!(preview_fits(&design));
    assert!(stats_fits(&design));
    let wide = Design {
        name: "W".to_owned(),
        threads: Vec::new(),
        points: vec![point(i32::MIN + 1, 0, StitchCommand::Stitch), point(i32::MAX, 0, StitchCommand::Stitch)],
    };
    assert!(!writer_arith_fits(&wide));
    assert!(!preview_fits(&wide));
    assert!(!stats_fits(&wide));
    // A far jump fails the writer (16-bit jumps) before any overflow.
    let jump = Design {
        name: "J".to_owned(),
        threads: Vec::new(),
        points: vec![point(i32::MIN + 1, 0, StitchCommand::Jump), point(i32::MAX, 0, StitchCommand::Stitch)],
    };
    assert!(writer_arith_fits(&jump));
    // Far-off color changes are not positions.
    let far = Design {
        name: "F".to_owned(),
        threads: Vec::new(),
        points: vec![
            point(0, 0, StitchCommand::Stitch),
            point(i32::MAX, 5, StitchCommand::ColorChange),
            point(10, 0, StitchCommand::Stitch),
        ],
    };
    assert!(writer_arith_fits(&far));
    assert!(preview_fits(&far));
}

#[test]
fn color_changes_without_stitches_read_no_further_thread() {
    // The writer moves to the next thread only after a segment with
    // records; here it never does, so the second color is never parsed.
    let design = Design {
        name: "C".to_owned(),
        threads: vec![thread("#000000"), thread("aébcd")],
        points: vec![point(0, 0, StitchCommand::ColorChange)],
    };
    assert!(writer_threads_are_sliceable(&design));
    assert!(!threads_are_sliceable(&design));
    assert!(!reaches_preview(&design));
    assert_eq!(
        build_shv(&design, &options(None)).unwrap_err(),
        ShvBuildError::NoStitchRecords
    );
}

#[test]
fn writer_reads_the_thread_a_color_change_moves_to() {
    let mut design = square("S", "#df5bd7");
    design.threads.push(thread("aébcd"));
    // Before the End: stitches, then a color change that moves to thread 1.
    design.points.insert(5, point(0, 0, StitchCommand::ColorChange));
    assert!(!writer_threads_are_sliceable(&design));
    design.threads[1] = thread("#112233");
    assert!(writer_threads_are_sliceable(&design));
    assert!(reaches_preview(&design));
    let bytes = build_shv(&design, &options(None)).unwrap();
    assert!(validate_generated_shv(&bytes).is_ok());
}

#[test]
fn ascii_names_read_back_unchanged() {
    let design = square("Rose 7", "#df5bd7");
    let bytes = build_shv(&design, &options(None)).unwrap();
    assert_eq!(parse_generated_shv(&bytes).unwrap().name, "Rose 7");
    assert_eq!(validate_generated_shv(&bytes).unwrap().name, "Rose 7");
}

#[test]
fn split_pieces_add_up_in_the_fewest_records() {
    for (dx, dy) in [(200, 0), (254, -3), (255, 0), (-1000, 700), (127, 127), (0, 0), (1, -1)] {
        let pieces = split_stitch_delta(dx, dy);
        let sum = pieces.iter().fold((0, 0), |a, p| (a.0 + p.0, a.1 + p.1));
        assert_eq!(sum, (dx, dy));
        assert!(pieces.iter().all(|p| (-127..=127).contains(&p.0) && (-127..=127).contains(&p.1)));
        let longest = dx.abs().max(dy.abs());
        let fewest = ((longest + 126) / 127).max(1) as usize;
        assert_eq!(pieces.len(), fewest);
    }
    assert_eq!(split_stitch_delta(255, 0), vec![(85, 0), (85, 0), (85, 0)]);
}
