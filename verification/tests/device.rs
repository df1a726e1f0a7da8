use libsraid::device::{has_vdisk_magic, serial_from_descriptor, udev_lookup, DevKind};

#[test]
fn udev_targets() {
    assert_eq!(udev_lookup(true, false, 2049), Some((DevKind::Block, 2049)));
    assert_eq!(udev_lookup(false, true, 7), Some((DevKind::Character, 7)));
    assert_eq!(udev_lookup(false, false, 7), None);
    assert_eq!(udev_lookup(true, false, 0), None);
}

#[test]
fn vdisk_magic() {
    assert!(has_vdisk_magic(b"GNAF\x01\x00"));
    assert!(!has_vdisk_magic(b"GNA"));
    assert!(!has_vdisk_magic(b"FANG"));
}

#[test]
fn serial_in_descriptor() {
    let mut buf = vec![7u8; 8];
    buf[5] = 0;
    buf.extend_from_slice(b"  WD-123 \0");
    assert_eq!(serial_from_descriptor(&buf, 8), Some("WD-123".to_string()));
    assert_eq!(serial_from_descriptor(&buf, buf.len()), None);
    assert_eq!(serial_from_descriptor(&buf, 3), None);
    let mut no_nul = buf.clone();
    no_nul.pop();
    assert_eq!(serial_from_descriptor(&no_nul, 8), None);
    let mut bad = vec![0xffu8, 0xfe, 0];
    assert_eq!(serial_from_descriptor(&bad, 0), None);
    bad[0] = b'A';
    bad[1] = b'B';
    assert_eq!(serial_from_descriptor(&bad, 0), Some("AB".to_string()));
}
