use rayo::drives::{
    asks_for_all, background_index_path, detect_fixed_ntfs_drives, drive_index_path, is_ntfs_name,
    parse_drive_list, parse_drives, parse_exclude_list, present_letters, service_install_drives_arg,
    DriveReport,
};
use rayo::ntfs::VolumeError;
use rayo::path::{extension_of, joined, name_of, parent_of, renamed, stem_of};

#[test]
fn parse_drive_list_supports_csv_and_dedup() {
    let drives = parse_drive_list("c, D:, c").expect("parse drives");
    assert_eq!(drives, vec!["C:", "D:"]);
}

#[test]
fn drive_index_path_multi_drive_uses_letter_when_base_is_letter() {
    let base = "c.rayo";
    assert_eq!(drive_index_path(base, "C:", true), "c.rayo");
    assert_eq!(drive_index_path(base, "D:", true), "d.rayo");
}

#[test]
fn drive_index_path_uses_letter_file_names_for_letter_base() {
    let base = "c.rayo";
    assert_eq!(drive_index_path(base, "C:", true), "c.rayo");
    assert_eq!(drive_index_path(base, "D:", true), "d.rayo");
}

#[test]
fn service_install_drives_arg_accepts_auto_but_parse_drive_list_rejects_it() {
    let value = service_install_drives_arg(" auto ").expect("auto accepted for service install");
    assert_eq!(value, "auto");
    assert!(parse_drive_list("auto").is_err());
}

#[test]
fn drive_lists_report_their_errors() {
    assert!(matches!(parse_drive_list(" , ,"), Err(VolumeError::NoDrives)));
    assert!(matches!(parse_drive_list(""), Err(VolumeError::NoDrives)));
    match parse_drive_list("c, 12 ,9") {
        Err(VolumeError::InvalidDrive(part)) => assert_eq!(part, "12"),
        other => panic!("{other:?}"),
    }
    assert_eq!(service_install_drives_arg("d,c:,D").unwrap(), "D:,C:");
    assert!(matches!(service_install_drives_arg("x1"), Err(VolumeError::InvalidDrive(_))));
    assert!(matches!(service_install_drives_arg(" ,"), Err(VolumeError::NoDrives)));
}

#[test]
fn service_drives_follow_the_arguments() {
    let found = || Ok(vec!["C:".to_string(), "E:".to_string()]);
    assert_eq!(parse_drives("AUTO", None, found()).unwrap(), vec!["C:", "E:"]);
    assert_eq!(parse_drives("auto", Some("d"), found()).unwrap(), vec!["D:"]);
    assert_eq!(parse_drives("c", Some("Auto"), found()).unwrap(), vec!["C:", "E:"]);
    assert!(matches!(parse_drives("auto", None, Ok(vec![])), Err(VolumeError::NoNtfsDrives)));
    assert!(matches!(
        parse_drives("auto", None, Err(VolumeError::NoLogicalDrives)),
        Err(VolumeError::NoLogicalDrives)
    ));
    assert!(matches!(parse_drives(",", None, found()), Err(VolumeError::NoDrives)));
    assert!(asks_for_all("AuTo"));
    assert!(!asks_for_all(" auto"));
}

#[test]
fn exclude_lists_are_cleaned() {
    assert_eq!(parse_exclude_list(Some(" C:/Temp , ,D:\\x/y")), vec!["C:\\Temp", "D:\\x\\y"]);
    assert!(parse_exclude_list(None).is_empty());
    assert!(parse_exclude_list(Some("")).is_empty());
}

#[test]
fn index_paths_of_drives() {
    assert_eq!(drive_index_path("data\\index.rayo", "D:", false), "data\\index.rayo");
    assert_eq!(drive_index_path("data\\index.rayo", "D:", true), "data\\index-d.rayo");
    assert_eq!(drive_index_path("C:\\all", "E:", true), "C:\\all-e");
    assert_eq!(drive_index_path("z", "E:", true), "e");
    assert_eq!(drive_index_path("C:\\", "E:", true), "C:\\index-e");
    assert_eq!(
        drive_index_path("\\\\server\\share\\all.rayo", "D:", true),
        "\\\\server\\share\\all-d.rayo"
    );
    assert_eq!(
        drive_index_path("\\\\server\\share", "D:", true),
        "\\\\server\\share\\index-d"
    );
    assert_eq!(drive_index_path("\\\\all.rayo", "D:", true), "\\all-d.rayo");
    assert_eq!(
        drive_index_path("\\\\\\data\\all.rayo", "D:", true),
        "\\\\\\data\\all-d.rayo"
    );
    assert_eq!(
        drive_index_path("\\\\server\\\\all.rayo", "D:", true),
        "\\\\server\\all-d.rayo"
    );
    assert_eq!(background_index_path("C:\\ProgramData\\Rayo", "D:"), "C:\\ProgramData\\Rayo\\d.rayo");
}

#[test]
fn path_parts() {
    assert_eq!(name_of("C:\\a\\b.txt").as_deref(), Some("b.txt"));
    assert_eq!(name_of("C:\\a\\b.txt\\.\\").as_deref(), Some("b.txt"));
    assert_eq!(name_of("C:b").as_deref(), Some("b"));
    assert_eq!(name_of("a/..").as_deref(), None);
    assert_eq!(name_of("C:\\").as_deref(), None);
    assert_eq!(name_of(".").as_deref(), None);
    assert_eq!(name_of("").as_deref(), None);
    assert_eq!(extension_of("a.b.C").as_deref(), Some("C"));
    assert_eq!(extension_of(".hidden").as_deref(), None);
    assert_eq!(extension_of("a.").as_deref(), Some(""));
    assert_eq!(extension_of("a.d\\plain").as_deref(), None);
    assert_eq!(stem_of("x/a.tar.gz").as_deref(), Some("a.tar"));
    assert_eq!(stem_of(".hidden").as_deref(), Some(".hidden"));
    assert_eq!(parent_of("C:\\a\\b").as_deref(), Some("C:\\a"));
    assert_eq!(parent_of("C:\\a").as_deref(), Some("C:\\"));
    assert_eq!(parent_of("a").as_deref(), Some(""));
    assert_eq!(parent_of("a/./b").as_deref(), Some("a"));
    assert_eq!(parent_of("./b").as_deref(), Some("."));
    assert_eq!(parent_of(".").as_deref(), Some(""));
    assert_eq!(parent_of("C:\\").as_deref(), None);
    assert_eq!(parent_of("").as_deref(), None);
    assert_eq!(joined("C:\\a", "b"), "C:\\a\\b");
    assert_eq!(joined("C:", "b"), "C:b");
    assert_eq!(joined("a/", "b"), "a/b");
    assert_eq!(joined("C:\\a", "D:x"), "D:x");
    assert_eq!(joined("C:\\a", "\\x"), "C:\\x");
    assert_eq!(joined("", "b"), "b");
    assert_eq!(renamed("C:\\a\\b.txt", "c"), "C:\\a\\c");
    assert_eq!(renamed("C:\\", "c"), "C:\\c");
}

#[test]
fn letters_follow_the_mask() {
    assert!(matches!(present_letters(0), Err(VolumeError::NoLogicalDrives)));
    assert_eq!(present_letters(0b1101).unwrap(), vec![0, 2, 3]);
    assert_eq!(present_letters(1 << 25).unwrap(), vec![25]);
    assert!(present_letters(1 << 30).unwrap().is_empty());
}

#[test]
fn only_fixed_ntfs_drives_count() {
    let name = |text: &str| {
        let mut units: Vec<u16> = text.encode_utf16().collect();
        units.resize(16, 0);
        Some(units)
    };
    let report = |letter: u8, fixed: bool, file_system: Option<Vec<u16>>| DriveReport {
        letter,
        fixed,
        file_system,
    };
    let drives = detect_fixed_ntfs_drives(&vec![
        report(2, true, name("NTFS")),
        report(3, false, name("NTFS")),
        report(4, true, name("FAT32")),
        report(5, true, None),
        report(25, true, name("ntfs")),
    ]);
    assert_eq!(drives, vec!["C:", "Z:"]);
    assert!(!is_ntfs_name(&vec![]));
    assert!(!is_ntfs_name(&vec![0, 0]));
    assert!(!is_ntfs_name(&"NTFS5".encode_utf16().collect()));
}

#[test]
fn prefixes_are_no_file_names() {
    let share = "\\\\server\\share";
    assert_eq!((name_of(share), parent_of(share)), (None, None));
    assert_eq!(name_of("//server/share/a.txt").as_deref(), Some("a.txt"));
    assert_eq!(parent_of("\\\\server\\share\\a.txt").as_deref(), Some("\\\\server\\share\\"));
    assert_eq!(parent_of("\\\\server\\share\\d\\a").as_deref(), Some("\\\\server\\share\\d"));
    assert_eq!(joined(share, "a"), "\\\\server\\share\\a");
    assert_eq!(joined("\\\\server\\share\\d", "\\a"), "\\\\server\\share\\a");
    assert_eq!(joined("C:\\d", share), share);
    assert_eq!(renamed("\\\\server\\share\\a", "b"), "\\\\server\\share\\b");
    assert_eq!(name_of("\\\\server").as_deref(), Some("server"));

    assert_eq!((name_of("\\\\.\\COM42"), parent_of("\\\\.\\COM42")), (None, None));
    assert_eq!(name_of("\\\\.\\pipe\\rayo-query").as_deref(), Some("rayo-query"));

    for bare in ["\\\\?\\C:", "\\\\?\\C:\\", "\\\\?\\UNC\\server\\share", "\\\\?\\pictures"] {
        assert_eq!((name_of(bare), parent_of(bare)), (None, None));
    }
    assert_eq!(name_of("\\\\?\\C:\\d\\a/b.txt").as_deref(), Some("a/b.txt"));
    assert_eq!(parent_of("\\\\?\\UNC\\s\\t\\a").as_deref(), Some("\\\\?\\UNC\\s\\t\\"));
    assert_eq!(name_of("\\\\?\\C:\\d\\."), None);
    assert_eq!(extension_of("\\\\?\\C:\\d.x\\a").as_deref(), None);
    assert_eq!(stem_of("\\\\?\\C:\\a.b.c").as_deref(), Some("a.b"));
}
