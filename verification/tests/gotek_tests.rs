use std::path::PathBuf;

use designer1_tools::fat::{build_fat12_image, FLOPPY_SIZE};
use designer1_tools::gotek::{
    check_gotek_device_for_slot, check_image_size, disk_image_roots, device_candidate_label, device_size_check,
    glob_match, gotek_device_check, hash_recorded, inspect_image_data, is_candidate_name,
    is_img_name, is_managed_or_hidden, is_other_entry, is_packable_file, is_packable_root,
    is_slot_name, is_visible_image, list_gotek_device_candidates, pack_decision, pack_slot_report,
    require_initialized, require_write_confirmation, sha256_bytes, slot_count_of, slot_hash_material, slot_image_decision,
    slot_io_report, slot_offset, slot_selected, trimmed_text, validate_slot, verify_slot_data,
    verify_workspace_slots, BlockDeviceProbe, GotekDeviceCheck, GotekError, IgnoreRules,
    PackAction, SlotImage, SlotReading,
};

const EMPTY_SHA: &str = "e3b0c44298fc1c149afbf4c8996fb92427ae41e4649b934ca495991b7852b855";
const ABC_SHA: &str = "ba7816bf8f01cfea414140de5dae2223b00361a396177a9cb410ff61f20015ad";

#[test]
fn sha256_digests_are_lowercase_hex() {
    assert_eq!(sha256_bytes(b""), EMPTY_SHA);
    assert_eq!(sha256_bytes(b"abc"), ABC_SHA);
}

#[test]
fn slot_offsets_and_ranges() {
    assert_eq!(slot_offset(0), 0);
    assert_eq!(slot_offset(1), 1_572_864);
    assert_eq!(slot_offset(999), 999 * 1_572_864);
    assert_eq!(validate_slot(999), Ok(()));
    assert_eq!(validate_slot(1000), Err(GotekError::SlotOutOfRange(1000)));
    assert_eq!(check_image_size(FLOPPY_SIZE), Ok(()));
    assert_eq!(check_image_size(10), Err(GotekError::WrongImageSize(10)));
}

#[test]
fn workspace_names() {
    assert!(is_slot_name("001"));
    assert!(!is_slot_name("01"));
    assert!(!is_slot_name("0a1"));
    assert!(is_managed_or_hidden(".floppy.img"));
    assert!(is_managed_or_hidden(".label"));
    assert!(!is_managed_or_hidden("MENU_01"));
    assert!(is_img_name("disk.IMG"));
    assert!(!is_img_name("img"));
    assert!(is_visible_image("disk.img", true, false));
    assert!(!is_visible_image(".disk.img", true, false));
    assert!(!is_visible_image("disk.img", true, true));
    assert!(is_packable_file("MENU_SEL.PHV", true, false));
    assert!(!is_packable_file(".label", true, false));
    assert!(!is_packable_file("x.img", true, false));
    assert!(is_packable_root("MENU_01", false));
    assert!(!is_packable_root("MENU_01", true));
    assert!(is_other_entry("notes.txt", true, false));
    assert!(!is_other_entry("a.img", true, false));
    assert!(is_other_entry("a.img", false, false));
}

#[test]
fn slot_selection() {
    assert!(slot_selected(&[], 7));
    assert!(slot_selected(&[1, 7], 7));
    assert!(!slot_selected(&[1, 2], 7));
}

#[test]
fn globs_match_case_insensitively() {
    assert!(glob_match("*.TXT", "notes.txt"));
    assert!(glob_match("a?c", "abc"));
    assert!(!glob_match("a?c", "ac"));
    assert!(glob_match("*", ""));
    assert!(!glob_match("", "x"));
    assert!(glob_match("dir/*", "dir/file"));
}

#[test]
fn ignore_rules_skip_blank_lines_and_comments() {
    let rules = IgnoreRules::parse("# comment\n\n  *.bak  \nnotes/*\n");
    assert_eq!(rules.patterns, vec!["*.bak".to_owned(), "notes/*".to_owned()]);
    assert!(rules.matches("old.BAK", "x/old.BAK"));
    assert!(rules.matches("a", "notes/a"));
    assert!(!rules.matches("a.txt", "a.txt"));
}

#[test]
fn hash_material_lists_label_then_files() {
    let files = vec![("A.TXT".to_owned(), "11".to_owned())];
    assert_eq!(
        slot_hash_material(Some("ff"), &files),
        b".label\nff\nA.TXT\n11\n".to_vec()
    );
    assert_eq!(slot_hash_material(None, &[]), Vec::<u8>::new());
}

#[test]
fn pack_decisions() {
    assert_eq!(pack_decision(3, 2, false, false, false), Err(GotekError::MultipleImages(3)));
    assert_eq!(pack_decision(3, 1, true, false, false), Err(GotekError::AmbiguousSlot(3)));
    assert_eq!(pack_decision(3, 1, false, false, true), Ok(PackAction::UnchangedManualImage));
    assert_eq!(pack_decision(3, 1, false, false, false), Ok(PackAction::ManualImageSelected));
    assert_eq!(pack_decision(3, 0, false, false, false), Ok(PackAction::Empty));
    assert_eq!(pack_decision(3, 0, false, true, true), Ok(PackAction::Unchanged));
    assert_eq!(pack_decision(3, 0, false, true, false), Ok(PackAction::Packed));
    assert_eq!(PackAction::Packed.status(), "packed");
    let report = pack_slot_report(1, PackAction::Empty, PathBuf::from("x"), "h".to_owned());
    assert_eq!(report.status, "empty");
    assert!(report.image.is_none() && report.hash.is_none());
    let report = pack_slot_report(1, PackAction::Packed, PathBuf::from("x"), "h".to_owned());
    assert_eq!(report.image, Some(PathBuf::from("x")));
    assert_eq!(report.hash.as_deref(), Some("h"));
}

#[test]
fn slot_images() {
    assert_eq!(slot_image_decision(4, 2, false, true), Err(GotekError::MultipleImages(4)));
    assert_eq!(slot_image_decision(4, 1, true, true), Err(GotekError::AmbiguousSlot(4)));
    assert_eq!(slot_image_decision(4, 1, false, true), Ok(SlotImage::Visible));
    assert_eq!(slot_image_decision(4, 0, false, true), Ok(SlotImage::Managed));
    assert_eq!(slot_image_decision(4, 0, false, false), Ok(SlotImage::Missing));
}

#[test]
fn recorded_hashes() {
    assert_eq!(trimmed_text("  abc \n"), Some("abc".to_owned()));
    assert_eq!(trimmed_text(" \n"), None);
    assert!(hash_recorded(&Some("abc".to_owned()), "abc"));
    assert!(!hash_recorded(&Some("abd".to_owned()), "abc"));
    assert!(!hash_recorded(&None, "abc"));
}

#[test]
fn device_checks() {
    assert_eq!(device_size_check(true, 100), Err(GotekError::DeviceTooSmall(100)));
    assert_eq!(device_size_check(false, 0), Ok(None));
    assert_eq!(device_size_check(true, 3 * FLOPPY_SIZE as u64), Ok(Some(3 * FLOPPY_SIZE as u64)));
    assert_eq!(slot_count_of(Some(3 * FLOPPY_SIZE as u64 + 5)), Some(3));
    assert_eq!(slot_count_of(None), None);
    assert_eq!(require_initialized(false), Err(GotekError::NotInitialized));

    let slot0 = build_fat12_image(&[], Some("GOTEK")).unwrap();
    let bank = (3 * FLOPPY_SIZE) as u64;
    let check = gotek_device_check(PathBuf::from("bank.bin"), true, bank, &slot0).unwrap();
    assert_eq!(check.size_bytes, Some(bank));
    assert_eq!(check.slot_count, Some(3));
    assert!(check.slot0_valid_fat12_1440);
    let check = check_gotek_device_for_slot(check, 2).unwrap();
    assert_eq!(
        check_gotek_device_for_slot(check, 3).unwrap_err(),
        GotekError::SlotBeyondDevice(3)
    );
    let zeros = vec![0u8; FLOPPY_SIZE];
    assert_eq!(
        gotek_device_check(PathBuf::from("bank.bin"), true, bank, &zeros).unwrap_err(),
        GotekError::NotInitialized
    );
    assert_eq!(
        gotek_device_check(PathBuf::from("bank.bin"), true, 10, &slot0).unwrap_err(),
        GotekError::DeviceTooSmall(10)
    );
}

#[test]
fn verify_reports() {
    let image = build_fat12_image(&[], Some("A")).unwrap();
    let report = verify_slot_data(1, PathBuf::from("a.img"), &image, &image).unwrap();
    assert!(report.ok);
    assert_eq!(report.local_sha256, report.device_sha256);
    let other = vec![0u8; FLOPPY_SIZE];
    let report = verify_slot_data(1, PathBuf::from("a.img"), &image, &other).unwrap();
    assert!(!report.ok);
    assert_eq!(
        verify_slot_data(1, PathBuf::from("a.img"), b"abc", &other).unwrap_err(),
        GotekError::WrongImageSize(3)
    );
    assert_eq!(
        verify_slot_data(1000, PathBuf::from("a.img"), &image, &other).unwrap_err(),
        GotekError::SlotOutOfRange(1000)
    );

    let readings = vec![
        SlotReading {
            slot: 1,
            image: PathBuf::from("1.img"),
            local_sha256: ABC_SHA.to_owned(),
            device_data: b"abc".to_vec(),
        },
        SlotReading {
            slot: 2,
            image: PathBuf::from("2.img"),
            local_sha256: ABC_SHA.to_owned(),
            device_data: Vec::new(),
        },
    ];
    let all = verify_workspace_slots(readings);
    assert_eq!(all.slots.len(), 2);
    assert!(all.slots[0].ok);
    assert!(!all.slots[1].ok);
    assert_eq!(all.slots[1].device_sha256, EMPTY_SHA);
    assert!(!all.ok);
    assert!(verify_workspace_slots(Vec::new()).ok);

    let io = slot_io_report(2, PathBuf::from("out.img"), b"abc", "read");
    assert_eq!(io.offset, 2 * 1_572_864);
    assert_eq!(io.bytes, 3);
    assert_eq!(io.sha256, ABC_SHA);
    assert_eq!(io.status, "read");
}

#[test]
fn image_inspection() {
    let image = build_fat12_image(&[], Some("TEST")).unwrap();
    let inspected = inspect_image_data(PathBuf::from("t.img"), &image);
    assert!(inspected.valid_fat12_1440);
    assert_eq!(inspected.label.as_deref(), Some("TEST"));
    assert!(inspected.files.is_empty());
    let inspected = inspect_image_data(PathBuf::from("t.img"), b"nope");
    assert!(!inspected.valid_fat12_1440);
    assert_eq!(inspected.label, None);
}

fn sample_check() -> GotekDeviceCheck {
    GotekDeviceCheck {
        device: PathBuf::from("/dev/sdb"),
        size_bytes: Some(4 * FLOPPY_SIZE as u64),
        slot_count: Some(4),
        is_regular_file: false,
        slot0_valid_fat12_1440: true,
    }
}

#[test]
fn device_candidates() {
    assert!(!is_candidate_name("loop0"));
    assert!(!is_candidate_name("ram1"));
    assert!(is_candidate_name("sdb"));
    assert_eq!(
        device_candidate_label("sdb", true, &Some("Gotek".to_owned()), Some(1000)),
        "/dev/sdb - Gotek (1000 slot(s))"
    );
    assert_eq!(
        device_candidate_label("sdb", true, &None, None),
        "/dev/sdb - removable (raw block device)"
    );
    assert_eq!(device_candidate_label("sdc", false, &None, Some(0)), "/dev/sdc (0 slot(s))");

    let probes = vec![
        BlockDeviceProbe {
            name: "loop0".to_owned(),
            path: PathBuf::from("/dev/loop0"),
            check: Some(sample_check()),
            removable: None,
            model: None,
        },
        BlockDeviceProbe {
            name: "sda".to_owned(),
            path: PathBuf::from("/dev/sda"),
            check: None,
            removable: None,
            model: None,
        },
        BlockDeviceProbe {
            name: "sdb".to_owned(),
            path: PathBuf::from("/dev/sdb"),
            check: Some(sample_check()),
            removable: Some("1\n".to_owned()),
            model: Some("  \n".to_owned()),
        },
    ];
    let found = list_gotek_device_candidates(probes);
    assert_eq!(found.len(), 1);
    assert_eq!(found[0].path, PathBuf::from("/dev/sdb"));
    assert_eq!(found[0].label, "/dev/sdb - removable (4 slot(s))");
}

#[test]
fn disk_image_takes_distinct_top_level_entries() {
    let rel = |parts: &[&str]| parts.iter().map(|p| p.to_string()).collect::<Vec<String>>();
    let rels = vec![
        rel(&["MENU_SEL.PHV"]),
        rel(&["MENU_01", "MENU_01.MHV"]),
        rel(&["MENU_01", "DES01_01.SHV"]),
        rel(&[".hidden"]),
        rel(&["MENU_02"]),
    ];
    assert_eq!(
        disk_image_roots(&rels),
        vec!["MENU_01".to_owned(), "MENU_02".to_owned(), "MENU_SEL.PHV".to_owned()]
    );
    // The root itself contains everything, and is not copied.
    let rels = vec![rel(&["MENU_01"]), rel(&[])];
    assert!(disk_image_roots(&rels).is_empty());
}

#[test]
fn disk_image_roots_sort_without_case_keeping_ties_in_order() {
    let rel = |parts: &[&str]| parts.iter().map(|p| p.to_string()).collect::<Vec<String>>();
    let rels = vec![
        rel(&["b", "x.SHV"]),
        rel(&["Zed"]),
        rel(&["B"]),
        rel(&["a"]),
        rel(&["b", "y.SHV"]),
    ];
    assert_eq!(
        disk_image_roots(&rels),
        vec!["a".to_owned(), "b".to_owned(), "B".to_owned(), "Zed".to_owned()]
    );
    let rels = vec![rel(&["B"]), rel(&["b"])];
    assert_eq!(disk_image_roots(&rels), vec!["B".to_owned(), "b".to_owned()]);
}

#[test]
fn verified_slots_keep_ascending_order() {
    let readings = vec![
        SlotReading {
            slot: 3,
            image: PathBuf::from("3.img"),
            local_sha256: EMPTY_SHA.to_owned(),
            device_data: Vec::new(),
        },
        SlotReading {
            slot: 7,
            image: PathBuf::from("7.img"),
            local_sha256: EMPTY_SHA.to_owned(),
            device_data: Vec::new(),
        },
        SlotReading {
            slot: 12,
            image: PathBuf::from("12.img"),
            local_sha256: ABC_SHA.to_owned(),
            device_data: b"abc".to_vec(),
        },
    ];
    let report = verify_workspace_slots(readings);
    let slots: Vec<u16> = report.slots.iter().map(|s| s.slot).collect();
    assert_eq!(slots, vec![3, 7, 12]);
    assert!(report.ok);
}

#[test]
fn device_candidates_come_by_name() {
    let probe = |name: &str| BlockDeviceProbe {
        name: name.to_owned(),
        path: PathBuf::from("/dev").join(name),
        check: Some(sample_check()),
        removable: None,
        model: None,
    };
    let found = list_gotek_device_candidates(vec![probe("loop1"), probe("sda"), probe("sdb"), probe("sdc")]);
    let paths: Vec<PathBuf> = found.iter().map(|c| c.path.clone()).collect();
    assert_eq!(
        paths,
        vec![PathBuf::from("/dev/sda"), PathBuf::from("/dev/sdb"), PathBuf::from("/dev/sdc")]
    );
}

#[test]
fn raw_writes_need_confirmation() {
    assert_eq!(require_write_confirmation(true), Ok(()));
    assert_eq!(require_write_confirmation(false), Err(GotekError::WriteNotConfirmed));
}

#[test]
fn repacking_an_unchanged_slot_reports_unchanged() {
    let hash = sha256_bytes(b"material");
    let recorded = trimmed_text(&format!("{hash}\n"));
    assert!(hash_recorded(&recorded, &hash));
    assert_eq!(pack_decision(5, 0, false, true, false), Ok(PackAction::Packed));
    assert_eq!(pack_decision(5, 0, false, true, true), Ok(PackAction::Unchanged));
    assert_eq!(pack_decision(5, 1, false, false, false), Ok(PackAction::ManualImageSelected));
    assert_eq!(pack_decision(5, 1, false, false, true), Ok(PackAction::UnchangedManualImage));
    assert_eq!(pack_decision(5, 0, false, false, true), Ok(PackAction::Empty));
}

#[test]
fn verifying_right_after_writing_is_ok() {
    let image = build_fat12_image(&[], Some("W")).unwrap();
    let device_copy = image.clone();
    let report = verify_slot_data(3, PathBuf::from("w.img"), &image, &device_copy).unwrap();
    assert!(report.ok);
    assert_eq!(report.slot, 3);
    assert_eq!(report.local_sha256, report.device_sha256);
}
