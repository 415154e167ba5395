use designer1_tools::fat::{
    build_fat12_image, build_fat12_image_at, cluster_offset, decode_short_name, fat_name_byte,
    is_valid_fat12_1440, path_to_image_path, read_root_entries, short_name_11, split_image_path,
    volume_label_11, ymd_from_unix_days, FatError, FatTimestamp, ImageEntry, BYTES_PER_SECTOR,
    FIRST_ROOT_SECTOR, FLOPPY_SIZE, ROOT_DIR_SECTORS,
};

fn stamp() -> FatTimestamp {
    FatTimestamp { time: 0, date: 33 }
}

fn file(path: &str, data: &[u8]) -> ImageEntry {
    ImageEntry {
        image_path: path.to_owned(),
        is_dir: false,
        timestamp: stamp(),
        data: data.to_vec(),
    }
}

fn dir(path: &str) -> ImageEntry {
    ImageEntry {
        image_path: path.to_owned(),
        is_dir: true,
        timestamp: stamp(),
        data: Vec::new(),
    }
}

fn first_cluster_for_root_name(image: &[u8], name: &[u8; 11]) -> Option<u16> {
    let root_start = FIRST_ROOT_SECTOR * BYTES_PER_SECTOR;
    let root_end = root_start + ROOT_DIR_SECTORS * BYTES_PER_SECTOR;
    for entry in image[root_start..root_end].chunks(32) {
        if entry[0] == 0x00 {
            break;
        }
        if &entry[0..11] == name {
            return Some(u16::from_le_bytes([entry[26], entry[27]]));
        }
    }
    None
}

#[test]
fn creates_valid_blank_image() {
    let image = build_fat12_image(&[], Some("TEST")).unwrap();
    assert_eq!(image.len(), FLOPPY_SIZE);
    assert!(is_valid_fat12_1440(&image));
    let (label, files) = read_root_entries(&image);
    assert_eq!(label.as_deref(), Some("TEST"));
    assert!(files.is_empty());
}

#[test]
fn image_lists_root_files_and_directories() {
    let entries = vec![
        file("MENU_SEL.PHV", b"root"),
        dir("MENU_01"),
        file("MENU_01/MENU_01.MHV", b"menu"),
        file("MENU_01/DES01_01.SHV", b"design"),
        dir("MENU_02"),
    ];
    let image = build_fat12_image_at(&entries, Some("DESIGNER1"), stamp(), 0x1234_5678).unwrap();
    assert!(is_valid_fat12_1440(&image));
    let (label, files) = read_root_entries(&image);
    // The label entry is decoded like a file name: 8 + 3 characters.
    assert_eq!(label.as_deref(), Some("DESIGNER.1"));
    assert!(files.contains(&"MENU_SEL.PHV".to_owned()));
    assert!(files.contains(&"MENU_01".to_owned()));
    assert!(files.contains(&"MENU_02".to_owned()));
    assert_eq!(files.len(), 3);
    // The serial number sits at 0x27 in the boot sector.
    assert_eq!(&image[0x27..0x2b], &[0x78, 0x56, 0x34, 0x12]);
    // The second FAT copies the first.
    let fat1 = &image[512..512 + 9 * 512];
    let fat2 = &image[512 + 9 * 512..512 + 18 * 512];
    assert_eq!(fat1, fat2);
}

#[test]
fn subdirectory_clusters_start_with_dot_entries() {
    let entries = vec![
        file("MENU_SEL.PHV", b"root"),
        dir("MENU_01"),
        file("MENU_01/MENU_01.MHV", b"menu"),
    ];
    let bytes = build_fat12_image_at(&entries, Some("DESIGNER1"), stamp(), 1).unwrap();
    let menu_cluster = first_cluster_for_root_name(&bytes, b"MENU_01    ").unwrap();
    let dir_offset = cluster_offset(menu_cluster);
    assert_eq!(&bytes[dir_offset..dir_offset + 11], b".          ");
    assert_eq!(&bytes[dir_offset + 32..dir_offset + 43], b"..         ");
    assert_eq!(&bytes[dir_offset + 64..dir_offset + 75], b"MENU_01 MHV");
}

#[test]
fn file_contents_land_in_their_cluster() {
    let entries = vec![file("A.BIN", b"hello")];
    let bytes = build_fat12_image_at(&entries, None, stamp(), 1).unwrap();
    let cluster = first_cluster_for_root_name(&bytes, b"A       BIN").unwrap();
    let off = cluster_offset(cluster);
    assert_eq!(&bytes[off..off + 5], b"hello");
    let (label, files) = read_root_entries(&bytes);
    assert_eq!(label, None);
    assert_eq!(files, vec!["A.BIN".to_owned()]);
}

#[test]
fn image_errors() {
    assert_eq!(
        build_fat12_image_at(&[file("TOOLONGNAME.TXT", b"")], None, stamp(), 1).unwrap_err(),
        FatError::NotEightThree
    );
    assert_eq!(
        build_fat12_image_at(&[file("NODIR/A.TXT", b"")], None, stamp(), 1).unwrap_err(),
        FatError::ParentMissing
    );
    assert_eq!(
        build_fat12_image_at(&[file("A+B.TXT", b"")], None, stamp(), 1).unwrap_err(),
        FatError::UnsupportedChar
    );
    let big = vec![0u8; FLOPPY_SIZE];
    assert_eq!(
        build_fat12_image_at(&[file("BIG.BIN", &big)], None, stamp(), 1).unwrap_err(),
        FatError::Full
    );
}

#[test]
fn short_names() {
    assert_eq!(short_name_11("menu_01.mhv").unwrap(), b"MENU_01 MHV");
    assert_eq!(short_name_11("README").unwrap(), b"README     ");
    assert_eq!(short_name_11(".HIDDEN").unwrap_err(), FatError::NotEightThree);
    assert_eq!(short_name_11("A.LONG").unwrap_err(), FatError::NotEightThree);
    assert_eq!(fat_name_byte('a'), Ok(b'A'));
    assert_eq!(fat_name_byte('~'), Ok(b'~'));
    assert_eq!(fat_name_byte('*'), Err(FatError::UnsupportedChar));
    assert_eq!(decode_short_name(b"MENU_01 MHV"), "MENU_01.MHV");
    assert_eq!(decode_short_name(b"MENU_01    "), "MENU_01");
}

#[test]
fn volume_labels() {
    assert_eq!(volume_label_11("test").unwrap(), b"TEST       ");
    assert_eq!(volume_label_11("   ").map(|v| v.len()), None);
    assert!(volume_label_11("ABCDEFGHIJKLMN").is_none());
    assert!(volume_label_11("A.B").is_none());
    assert_eq!(volume_label_11(" my-disk_1 ").unwrap(), b"MY-DISK_1  ");
}

#[test]
fn paths() {
    let (parent, name) = split_image_path(&"MENU_01/DES01_01.SHV".chars().collect());
    assert_eq!(parent.map(|p| p.into_iter().collect::<String>()), Some("MENU_01".to_owned()));
    assert_eq!(name.into_iter().collect::<String>(), "DES01_01.SHV");
    let (parent, name) = split_image_path(&"MENU_SEL.PHV".chars().collect());
    assert!(parent.is_none());
    assert_eq!(name.into_iter().collect::<String>(), "MENU_SEL.PHV");
    let components = vec!["MENU_01".to_owned(), "DES01_01.SHV".to_owned()];
    assert_eq!(path_to_image_path(&components).unwrap(), "MENU_01/DES01_01.SHV");
}

#[test]
fn dates_and_timestamps() {
    assert_eq!(ymd_from_unix_days(0), (1970, 1, 1));
    assert_eq!(ymd_from_unix_days(10957), (2000, 1, 1));
    assert_eq!(ymd_from_unix_days(19675), (2023, 11, 14));
    let t = FatTimestamp::from_unix_seconds(1_700_000_000);
    assert_eq!(t, FatTimestamp { time: 45482, date: 22382 });
    // Dates before 1980 clamp to 1980.
    assert_eq!(FatTimestamp::from_unix_seconds(0), FatTimestamp { time: 0, date: 33 });
    let mut entry = vec![0u8; 32];
    t.write_to_dir_entry(&mut entry);
    assert_eq!(&entry[14..16], &45482u16.to_le_bytes());
    assert_eq!(&entry[16..18], &22382u16.to_le_bytes());
    assert_eq!(&entry[24..26], &22382u16.to_le_bytes());
}

#[test]
fn short_names_read_back_upper_cased() {
    for name in ["menu_01.mhv", " readme ", "Des01_01.Shv", "a~1.x"] {
        let raw = short_name_11(name).unwrap();
        assert_eq!(decode_short_name(&raw), name.trim().to_ascii_uppercase());
    }
    // A bare trailing dot has no room in the entry.
    let raw = short_name_11("NAME.").unwrap();
    assert_eq!(decode_short_name(&raw), "NAME");
}

#[test]
fn root_listing_follows_the_order_entries_were_added() {
    let entries = vec![
        dir("menu_02"),
        file("menu_sel.phv", b"root"),
        dir("MENU_01"),
        dir("menu_02"),
        file("MENU_01/MENU_01.MHV", b"menu"),
        file("readme", b"x"),
    ];
    let image = build_fat12_image_at(&entries, Some("DISK"), stamp(), 7).unwrap();
    let (label, files) = read_root_entries(&image);
    assert_eq!(label.as_deref(), Some("DISK"));
    assert_eq!(files, vec!["MENU_02", "MENU_SEL.PHV", "MENU_01", "README"]);
}
