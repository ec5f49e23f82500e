use omapic::exif::{is_sideways, minimal_segment, rotation_edit, turned, Edit, Exif, MAKE, MODEL, ORIENTATION, THUMBNAIL_LENGTH, THUMBNAIL_OFFSET};

/// SOI, JFIF stub, APP1 with: IFD0 {make → string data, [orientation]},
/// IFD1 {thumbnail offset, length}, then the data. `little`: byte order.
fn sample_jpeg(orientation: Option<u16>, thumbnail: &[u8], little: bool) -> Vec<u8> {
    let n16 = |v: u16| if little { v.to_le_bytes() } else { v.to_be_bytes() };
    let n32 = |v: u32| if little { v.to_le_bytes() } else { v.to_be_bytes() };
    let entry = |tag: u16, kind: u16, count: u32, value: [u8; 4]| {
        [&n16(tag)[..], &n16(kind), &n32(count), &value].concat()
    };
    let count0 = 1 + orientation.is_some() as u32;
    let ifd1 = 8 + 2 + 12 * count0 + 4;
    let make_at = ifd1 + 2 + 24 + 4;
    let thumb_at = make_at + 6;

    let mut tiff = if little { b"II\x2a\0".to_vec() } else { b"MM\0\x2a".to_vec() };
    tiff.extend(n32(8));
    tiff.extend(n16(count0 as u16));
    tiff.extend(entry(MAKE, 2, 6, n32(make_at)));
    if let Some(o) = orientation {
        let short = n16(o);
        tiff.extend(entry(ORIENTATION, 3, 1, [short[0], short[1], 0, 0]));
    }
    tiff.extend(n32(ifd1));
    tiff.extend(n16(2));
    tiff.extend(entry(THUMBNAIL_OFFSET, 4, 1, n32(thumb_at)));
    tiff.extend(entry(THUMBNAIL_LENGTH, 4, 1, n32(thumbnail.len() as u32)));
    tiff.extend(n32(0));
    tiff.extend(b"ACME\0\0");
    tiff.extend(thumbnail);

    let mut jpeg = vec![0xff, 0xd8, 0xff, 0xe0, 0, 4, b'J', b'F', 0xff, 0xe1];
    jpeg.extend(((tiff.len() + 8) as u16).to_be_bytes());
    jpeg.extend(b"Exif\0\0");
    jpeg.extend(&tiff);
    jpeg.extend([0xff, 0xda, 0, 2, 9, 9, 0xff, 0xd9]);
    jpeg
}

const THUMB: [u8; 7] = [0xff, 0xd8, 1, 2, 3, 0xff, 0xd9];

#[test]
fn reads_both_byte_orders() {
    for little in [false, true] {
        let jpeg = sample_jpeg(Some(6), &THUMB, little);
        let exif = Exif::find(&jpeg).unwrap();
        let (offset, little_endian, value) = exif.orientation().unwrap();
        assert_eq!((little_endian, value), (little, 6));
        assert_eq!(jpeg[offset..offset + 2], if little { [6, 0] } else { [0, 6] });
        assert_eq!(&jpeg[exif.thumbnail().unwrap()], THUMB);
        assert_eq!(exif.text(MAKE).as_deref(), Some("ACME"));
        assert_eq!(exif.text(MODEL), None);
    }
}

#[test]
fn exif_rejects_garbage() {
    assert!(Exif::find(b"junk").is_none());
    assert!(Exif::find(&[0xff, 0xd8, 0xff, 0xda, 0, 2]).is_none());
    let jpeg = sample_jpeg(Some(1), b"not a jpeg", false);
    assert!(Exif::find(&jpeg).unwrap().thumbnail().is_none());
    let mut truncated = sample_jpeg(Some(1), &THUMB, false);
    truncated.truncate(truncated.len() - 12);
    assert!(Exif::find(&truncated).unwrap().thumbnail().is_none());
}

#[test]
fn adds_an_orientation_without_moving_anything() {
    for little in [false, true] {
        let jpeg = sample_jpeg(None, &THUMB, little);
        let exif = Exif::find(&jpeg).unwrap();
        assert!(exif.orientation().is_none());
        let (old, segment) = exif.with_orientation(8).unwrap();

        let mut rebuilt = jpeg[..old.start].to_vec();
        rebuilt.extend(&segment);
        rebuilt.extend(&jpeg[old.end..]);
        let exif = Exif::find(&rebuilt).unwrap();
        assert_eq!(exif.orientation().unwrap().2, 8);
        assert_eq!(exif.text(MAKE).as_deref(), Some("ACME"));
        assert_eq!(&rebuilt[exif.thumbnail().unwrap()], THUMB);
        assert_eq!(rebuilt[rebuilt.len() - 8..], jpeg[jpeg.len() - 8..]); // image data follows intact
        assert!(exif.with_orientation(1).is_none()); // there is one now
    }
}

fn minimal_segment_jpeg() -> Vec<u8> {
    [&[0xff, 0xd8][..], &minimal_segment(6), &[0xff, 0xda, 0, 2]].concat()
}

#[test]
fn turning() {
    assert_eq!([1, 2, 3].map(|q| turned(1, q)), [6, 3, 8]);
    assert_eq!(turned(8, 1), 1);
    assert_eq!(turned(6, 4), 6);
    for mirrored in [2, 4, 5, 7] {
        assert_eq!(turned(turned(mirrored, 1), 3), mirrored);
        assert!([2, 4, 5, 7].contains(&turned(mirrored, 1)));
    }
    assert!(is_sideways(6) && !is_sideways(3));
    assert_eq!(Exif::find(&minimal_segment_jpeg()).unwrap().orientation().unwrap().2, 6);
}

#[test]
fn turns_compose() {
    for o in 1..=8u16 {
        for a in 0..4u8 {
            for b in 0..4u8 {
                assert_eq!(turned(turned(o, a), b), turned(o, (a + b) % 4));
            }
        }
    }
}

#[test]
fn a_summary_of_the_sample() {
    let jpeg = sample_jpeg(Some(6), &THUMB, true);
    let exif = Exif::find(&jpeg).unwrap();
    let summary = exif.summary();
    assert_eq!(summary.camera.as_deref(), Some("ACME"));
    assert_eq!(summary.taken, None);
    assert_eq!(summary.iso, None);
}

/// `head` with `edit` applied.
fn applied(head: &[u8], edit: Edit) -> Vec<u8> {
    match edit {
        Edit::Overwrite { offset, bytes } => {
            let mut out = head.to_vec();
            out[offset..offset + bytes.len()].copy_from_slice(&bytes);
            out
        }
        Edit::Splice { start, end, bytes } => [&head[..start], &bytes[..], &head[end..]].concat(),
    }
}

#[test]
fn a_recorded_orientation_is_overwritten_in_place() {
    for little in [false, true] {
        let jpeg = sample_jpeg(Some(6), &THUMB, little);
        assert!(Exif::rotation_readable(&jpeg));
        let edit = rotation_edit("/p/x.jpg", &jpeg, 1).unwrap();
        let (offset, _, _) = Exif::find(&jpeg).unwrap().orientation().unwrap();
        let want = if little { vec![3, 0] } else { vec![0, 3] };
        assert_eq!(edit, Edit::Overwrite { offset, bytes: want });
        let turned_jpeg = applied(&jpeg, edit);
        assert_eq!(Exif::find(&turned_jpeg).unwrap().orientation().unwrap().2, 3);
        assert_eq!(turned_jpeg.len(), jpeg.len());
    }
}

#[test]
fn a_missing_orientation_grows_the_block() {
    let jpeg = sample_jpeg(None, &THUMB, false);
    let rotated = applied(&jpeg, rotation_edit("/p/x.jpg", &jpeg, 3).unwrap());
    let exif = Exif::find(&rotated).unwrap();
    assert_eq!(exif.orientation().unwrap().2, 8);
    assert_eq!(&rotated[exif.thumbnail().unwrap()], THUMB);
}

#[test]
fn a_jpeg_without_exif_gets_a_minimal_block_after_its_jfif_header() {
    let jpeg = vec![0xff, 0xd8, 0xff, 0xe0, 0, 4, b'J', b'F', 0xff, 0xda, 0, 2, 9, 0xff, 0xd9];
    let edit = rotation_edit("/p/x.jpg", &jpeg, 2).unwrap();
    assert_eq!(edit, Edit::Splice { start: 8, end: 8, bytes: minimal_segment(3) });
    let rotated = applied(&jpeg, edit);
    assert_eq!(Exif::find(&rotated).unwrap().orientation().unwrap().2, 3);
    let bare = vec![0xff, 0xd8, 0xff, 0xda, 0, 2, 9, 0xff, 0xd9];
    assert_eq!(rotation_edit("/p/x.jpg", &bare, 1).unwrap(), Edit::Splice { start: 2, end: 2, bytes: minimal_segment(6) });
}

#[test]
fn only_jpegs_rotate() {
    assert_eq!(rotation_edit("/p/x.png", b"\x89PNG", 1), Err("/p/x.png: only JPEG files can be rotated".to_string()));
    assert_eq!(rotation_edit("/p/e", &[], 1), Err("/p/e: only JPEG files can be rotated".to_string()));
}
