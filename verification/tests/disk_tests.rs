use std::cmp::Ordering;
use std::path::PathBuf;

use designer1_tools::disk::{
    assign_menu_slots, check_design_count, menu_label_for_design, DiskExportError,
    build_mhv, build_phv, encode_label, render_mhv_preview_pixels, DiskDesignInput,
    MHV_BITMAP_HEIGHT, MHV_BITMAP_OFFSET, MHV_BITMAP_WIDTH, MHV_TEXT_VALUE, PHV_BITMAP_HEIGHT,
    PHV_BITMAP_OFFSET, PHV_BITMAP_WIDTH,
};
use designer1_tools::order::{compare_case_insensitive, compare_paths_case_insensitive};
use designer1_tools::model::{Design, SignatureMode, StitchCommand, StitchPoint, Thread};

fn point(x: i32, y: i32, command: StitchCommand) -> StitchPoint {
    StitchPoint { x, y, command }
}

fn sample_disk_design(slot: u8, name: &str) -> DiskDesignInput {
    DiskDesignInput {
        slot,
        source: PathBuf::from(format!("{name}.json")),
        label: name.to_owned(),
        design: Design {
            name: name.to_owned(),
            threads: vec![Thread {
                color: Some("#df5bd7".to_owned()),
                description: None,
                catalog_number: None,
                brand: None,
            }],
            points: vec![
                point(0, 0, StitchCommand::Jump),
                point(0, 0, StitchCommand::Stitch),
                point(30, 0, StitchCommand::Stitch),
                point(30, 30, StitchCommand::Stitch),
                point(0, 30, StitchCommand::Stitch),
                point(0, 0, StitchCommand::End),
            ],
        },
    }
}

#[test]
fn label_encoding_pads_and_truncates() {
    assert_eq!(encode_label("ABC", 6), b"ABC\0\0\0");
    assert_eq!(encode_label("ABCDEFGHI", 4), b"ABCD");
}

#[test]
fn generated_menu_lengths_match_documented_offsets() {
    let mhv = build_mhv(
        SignatureMode::Official,
        "Menu 1",
        &[sample_disk_design(1, "One"), sample_disk_design(2, "Two")],
    );
    assert_eq!(
        mhv.len(),
        MHV_BITMAP_OFFSET + MHV_BITMAP_HEIGHT * MHV_BITMAP_WIDTH.div_ceil(2)
    );
    assert_eq!(mhv[MHV_BITMAP_OFFSET - 2], MHV_BITMAP_HEIGHT as u8);
    assert_eq!(mhv[MHV_BITMAP_OFFSET - 1], MHV_BITMAP_WIDTH as u8);
    assert_eq!(&mhv[0x0116..0x0119], &[0x77, 0xfb, 0x06]);
    assert_eq!(&mhv[0x0119..0x011d], &[0x01, 0x02, 0x00, 0x00]);

    let phv = build_phv(SignatureMode::Official, "Designer 1 Disk", "Menu 1");
    assert_eq!(
        phv.len(),
        PHV_BITMAP_OFFSET + PHV_BITMAP_HEIGHT * PHV_BITMAP_WIDTH.div_ceil(2)
    );
    assert_eq!(phv[PHV_BITMAP_OFFSET - 2], PHV_BITMAP_HEIGHT as u8);
    assert_eq!(phv[PHV_BITMAP_OFFSET - 1], PHV_BITMAP_WIDTH as u8);
}

#[test]
fn mhv_preview_uses_thread_colors_and_black_labels() {
    let pixels = render_mhv_preview_pixels(&[sample_disk_design(1, "One")]);
    assert!(pixels.contains(&MHV_TEXT_VALUE));
    assert!(pixels.contains(&0x7));
}

#[test]
fn label_encoding_trims_and_replaces_unprintable_bytes() {
    // "é" is two bytes in UTF-8, each replaced by '_'.
    assert_eq!(encode_label("é", 3), b"__\0");
    assert_eq!(encode_label("  AB ", 4), b"AB\0\0");
    assert_eq!(encode_label("a\tb", 3), b"a_b");
    assert_eq!(encode_label("", 2), vec![0x00, 0x00]);
}

#[test]
fn menu_file_lists_one_slot_per_design() {
    let mhv = build_mhv(SignatureMode::Official, "Menu 1", &[sample_disk_design(1, "One")]);
    assert_eq!(&mhv[0x0119..0x011c], &[0x01, 0x00, 0x00]);
    // The 16 menu label fields follow the 86-byte signature.
    assert_eq!(&mhv[86..98], b"Menu 1\0\0\0\0\0\0");
    assert_eq!(&mhv[98..110], b"Menu 1\0\0\0\0\0\0");
}

#[test]
fn menu_without_designs_keeps_grid_and_no_slots() {
    let mhv = build_mhv(SignatureMode::Official, "Menu 1", &[]);
    assert_eq!(mhv.len(), MHV_BITMAP_OFFSET + MHV_BITMAP_HEIGHT * 122);
    assert!(mhv[0x0119..0x013d].iter().all(|b| *b == 0));
    let pixels = render_mhv_preview_pixels(&[]);
    assert_eq!(pixels.len(), 238 * 244);
    assert!(pixels.contains(&5));
    assert!(!pixels.contains(&MHV_TEXT_VALUE));
}

#[test]
fn disk_title_file_holds_titles_and_menu_label() {
    let phv = build_phv(SignatureMode::Official, "Designer 1 Disk", "Menu 1");
    assert_eq!(&phv[86..90], &[0x00, 0x01, 0x00, 0x00]);
    assert_eq!(&phv[90..105], b"Designer 1 Disk");
}

#[test]
fn design_counts_for_one_menu() {
    assert_eq!(check_design_count(0), Err(DiskExportError::NoJsonFiles));
    assert_eq!(check_design_count(1), Ok(()));
    assert_eq!(check_design_count(6), Ok(()));
    assert_eq!(check_design_count(7), Err(DiskExportError::TooManyJsonFiles(7)));
}

#[test]
fn menu_labels_and_slots() {
    let mut a = sample_disk_design(9, "  Alpha ").design;
    assert_eq!(menu_label_for_design(&a), "Alpha");
    a.name = "   ".to_owned();
    assert_eq!(menu_label_for_design(&a), "DESIGN");
    let loaded = vec![
        (PathBuf::from("A.json"), sample_disk_design(0, "Alpha").design),
        (PathBuf::from("b.json"), sample_disk_design(0, " ").design),
    ];
    let inputs = assign_menu_slots(loaded);
    assert_eq!(inputs.len(), 2);
    assert_eq!((inputs[0].slot, inputs[0].label.as_str()), (1, "Alpha"));
    assert_eq!((inputs[1].slot, inputs[1].label.as_str()), (2, "DESIGN"));
    assert_eq!(inputs[1].source, PathBuf::from("b.json"));
}

#[test]
fn file_names_order_case_insensitively() {
    assert_eq!(compare_paths_case_insensitive("A.json", "b.json"), Ordering::Less);
    assert_eq!(compare_paths_case_insensitive("b.json", "A.json"), Ordering::Greater);
    assert_eq!(compare_paths_case_insensitive("a.json", "A.json"), Ordering::Greater);
    assert_eq!(compare_paths_case_insensitive("a.json", "a.json"), Ordering::Equal);
    assert_eq!(compare_paths_case_insensitive("a", "a.json"), Ordering::Less);
    assert_eq!(compare_case_insensitive("MENU_01", "menu_01"), Ordering::Equal);
    assert_eq!(compare_case_insensitive("MENU_02", "menu_01"), Ordering::Greater);
    let mut names = vec!["b.json", "A.json", "a.json"];
    names.sort_by(|a, b| compare_paths_case_insensitive(a, b));
    assert_eq!(names, vec!["A.json", "a.json", "b.json"]);
}
