use rayo::entry::JournalChange;
use rayo::ntfs::{decode_utf16, normalize_drive, to_utf16_null, VolumeError};
use rayo::usn::{check_journal, decode_changes, MftScan};

fn record(frn: u64, parent: u64, reason: u32, attributes: u32, name: &str) -> Vec<u8> {
    let units: Vec<u16> = name.encode_utf16().collect();
    let mut bytes = vec![0u8; 64];
    bytes[8..16].copy_from_slice(&frn.to_le_bytes());
    bytes[16..24].copy_from_slice(&parent.to_le_bytes());
    bytes[40..44].copy_from_slice(&reason.to_le_bytes());
    bytes[52..56].copy_from_slice(&attributes.to_le_bytes());
    bytes[56..58].copy_from_slice(&((units.len() * 2) as u16).to_le_bytes());
    bytes[58..60].copy_from_slice(&60u16.to_le_bytes());
    bytes.truncate(60);
    for unit in units {
        bytes.extend_from_slice(&unit.to_le_bytes());
    }
    while bytes.len() < 64 || bytes.len() % 8 != 0 {
        bytes.push(0);
    }
    let len = bytes.len() as u32;
    bytes[0..4].copy_from_slice(&len.to_le_bytes());
    bytes
}

fn page(header: u64, records: &[Vec<u8>]) -> Vec<u8> {
    let mut bytes = header.to_le_bytes().to_vec();
    for item in records {
        bytes.extend_from_slice(item);
    }
    bytes
}

#[test]
fn drives_are_normalized() {
    assert_eq!(normalize_drive(" c:\\ ").unwrap(), "C:");
    assert_eq!(normalize_drive("D").unwrap(), "D:");
    assert_eq!(normalize_drive("e::").unwrap(), "E:");
    for bad in ["", "CD", "1", "C:x", "\u{e9}", "c \\"] {
        match normalize_drive(bad) {
            Err(VolumeError::InvalidDrive(given)) => assert_eq!(given, bad),
            other => panic!("{bad}: {other:?}"),
        }
    }
    let once = normalize_drive("q:\\").unwrap();
    assert_eq!(normalize_drive(&once).unwrap(), once);
}

#[test]
fn utf16_is_read_and_written() {
    let text = "a\u{e9}\u{20ac}\u{1f600}z";
    let mut units = to_utf16_null(text);
    assert_eq!(units, vec![0x61, 0xe9, 0x20ac, 0xd83d, 0xde00, 0x7a, 0]);
    units.pop();
    assert_eq!(decode_utf16(&units), Some(text.to_string()));
    assert_eq!(decode_utf16(&vec![0xd83d]), None);
    assert_eq!(decode_utf16(&vec![0xde00, 0x61]), None);
    assert_eq!(decode_utf16(&vec![0xd83d, 0x61]), None);
    assert_eq!(decode_utf16(&vec![]), Some(String::new()));
}

#[test]
fn file_table_is_scanned_page_by_page() {
    let mut scan = MftScan::start();
    let first = page(42, &[record(10, 5, 0, 0x10, "dir"), record(11, 10, 0, 0, "caf\u{e9}.txt")]);
    let mut buffer = first.clone();
    buffer.resize(4096, 0);
    scan.accept_page(&buffer, first.len()).unwrap();
    assert_eq!(scan.next_start, 42);
    assert!(!scan.finished);
    let second = page(43, &[record(11, 10, 0, 0, "renamed")]);
    scan.accept_page(&second, second.len()).unwrap();
    scan.accept_page(&[0u8; 16], 8).unwrap();
    assert!(scan.finished);
    assert_eq!(scan.next_start, 43);
    let snapshot = scan.finish(99, 7);
    assert_eq!((snapshot.next_usn, snapshot.journal_id), (99, 7));
    assert_eq!(snapshot.entries.len(), 2);
    assert!(snapshot.entries[&10].is_directory());
    assert_eq!(snapshot.entries[&11].name, "renamed");
    assert_eq!(snapshot.entries[&11].parent_frn, 10);
}

#[test]
fn scan_stops_at_an_empty_record_and_at_the_end() {
    let mut scan = MftScan::start();
    let mut bytes = page(1, &[record(10, 5, 0, 0, "a")]);
    bytes.extend_from_slice(&[0u8; 64]);
    bytes.extend_from_slice(&record(11, 5, 0, 0, "b"));
    scan.accept_page(&bytes, bytes.len()).unwrap();
    assert_eq!(scan.entries.len(), 1);

    let mut scan = MftScan::start();
    let bytes = page(1, &[record(10, 5, 0, 0, "a"), record(11, 5, 0, 0, "b")]);
    scan.accept_page(&bytes, bytes.len() - 1).unwrap();
    assert_eq!(scan.entries.len(), 1);
}

#[test]
fn broken_names_are_errors() {
    let mut lone = record(10, 5, 0x100, 0, "x");
    lone[60..62].copy_from_slice(&0xd800u16.to_le_bytes());
    let bytes = page(1, &[lone]);
    let mut scan = MftScan::start();
    assert!(matches!(scan.accept_page(&bytes, bytes.len()), Err(VolumeError::InvalidName)));
    assert!(matches!(decode_changes(&bytes, bytes.len(), 0, 1), Err(VolumeError::InvalidName)));

    let mut far = record(10, 5, 0x100, 0, "x");
    far[58..60].copy_from_slice(&5000u16.to_le_bytes());
    let bytes = page(1, &[far]);
    assert!(matches!(decode_changes(&bytes, bytes.len(), 0, 1), Err(VolumeError::InvalidName)));
}

#[test]
fn journal_records_become_changes() {
    let bytes = page(
        u64::MAX,
        &[
            record(10, 5, 0x8000_0100, 0x20, "made.txt"),
            record(11, 5, 0x200 | 0x100, 0, "gone.txt"),
            record(12, 5, 0x1000, 0, "before.txt"),
            record(12, 5, 0x2000, 0, "after.txt"),
        ],
    );
    let batch = decode_changes(&bytes, bytes.len(), 3, 8).unwrap();
    assert_eq!((batch.next_usn, batch.journal_id), (-1, 8));
    assert_eq!(batch.events.len(), 3);
    assert!(matches!(&batch.events[0], JournalChange::Upsert(e) if e.name == "made.txt" && e.attributes == 0x20));
    assert!(matches!(batch.events[1], JournalChange::Delete(11)));
    assert!(matches!(&batch.events[2], JournalChange::Upsert(e) if e.frn == 12 && e.name == "after.txt"));

    let short = decode_changes(&bytes, 7, 3, 8).unwrap();
    assert_eq!(short.next_usn, 3);
    assert!(short.events.is_empty());
}

#[test]
fn replaced_journal_is_noticed() {
    assert!(check_journal(4, 4).is_ok());
    assert!(matches!(check_journal(4, 5), Err(VolumeError::JournalChanged(4, 5))));
}

#[test]
fn volume_errors_say_what_is_wrong() {
    assert_eq!(
        VolumeError::InvalidDrive("x1".to_string()).message(),
        "unidad invalida: x1. Usa por ejemplo C o C:"
    );
    assert_eq!(VolumeError::NoDrives.message(), "no valid drives provided");
    assert_eq!(
        VolumeError::NoNtfsDrives.message(),
        "no NTFS fixed drives detected for --drives auto"
    );
    assert_eq!(VolumeError::NoLogicalDrives.message(), "failed to enumerate logical drives");
    assert_eq!(
        VolumeError::JournalChanged(7, 9).message(),
        "el journal cambio (id previo 7, actual 9)"
    );
    assert_eq!(VolumeError::InvalidName.message(), "nombre UTF-16 invalido en USN_RECORD");
    assert_eq!(
        VolumeError::JournalNotActive("off".to_string()).message(),
        "USN Journal no activo en el volumen: off"
    );
    assert_eq!(VolumeError::System("denied".to_string()).message(), "denied");
}
