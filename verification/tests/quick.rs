use omapic::quick::{current, exif_thumbnail, oversized, png_text, sharp_enough, size_preference, upright, Turn};

/// SOI, APP0, then APP1 with a big-endian TIFF: IFD0 {orientation},
/// IFD1 {offset, length}, thumbnail bytes.
fn sample_jpeg(orientation: u16, thumbnail: &[u8]) -> Vec<u8> {
    let mut tiff = Vec::new();
    tiff.extend(b"MM\0\x2a");
    tiff.extend(8u32.to_be_bytes()); // IFD0 at 8
    tiff.extend(1u16.to_be_bytes());
    tiff.extend([0x01, 0x12, 0, 3, 0, 0, 0, 1]);
    tiff.extend(orientation.to_be_bytes());
    tiff.extend([0, 0]);
    let ifd1 = 8 + 2 + 12 + 4;
    tiff.extend((ifd1 as u32).to_be_bytes());
    let data = ifd1 + 2 + 24 + 4;
    tiff.extend(2u16.to_be_bytes());
    tiff.extend([0x02, 0x01, 0, 4, 0, 0, 0, 1]);
    tiff.extend((data as u32).to_be_bytes());
    tiff.extend([0x02, 0x02, 0, 4, 0, 0, 0, 1]);
    tiff.extend((thumbnail.len() as u32).to_be_bytes());
    tiff.extend(0u32.to_be_bytes());
    tiff.extend(thumbnail);

    let mut jpeg = vec![0xff, 0xd8, 0xff, 0xe0, 0, 4, b'J', b'F'];
    jpeg.extend([0xff, 0xe1]);
    jpeg.extend(((tiff.len() + 8) as u16).to_be_bytes());
    jpeg.extend(b"Exif\0\0");
    jpeg.extend(&tiff);
    jpeg.extend([0xff, 0xda, 0, 2]);
    jpeg
}

#[test]
fn finds_exif_thumbnail() {
    let thumb = [0xff, 0xd8, 1, 2, 3, 0xff, 0xd9];
    let jpeg = sample_jpeg(6, &thumb);
    let (range, orientation) = exif_thumbnail(&jpeg).unwrap();
    assert_eq!(&jpeg[range], thumb);
    assert_eq!(orientation, 6);
}

#[test]
fn quick_rejects_garbage() {
    assert!(exif_thumbnail(b"junk").is_none());
    assert!(exif_thumbnail(&[0xff, 0xd8, 0xff, 0xda, 0, 2]).is_none());
    assert!(exif_thumbnail(&sample_jpeg(1, b"not a jpeg")).is_none());
    let mut truncated = sample_jpeg(1, &[0xff, 0xd8, 0, 0]);
    truncated.truncate(truncated.len() - 6);
    assert!(exif_thumbnail(&truncated).is_none());
}

fn chunk(png: &mut Vec<u8>, kind: &[u8; 4], data: &[u8]) {
    png.extend((data.len() as u32).to_be_bytes());
    png.extend(kind);
    png.extend(data);
    png.extend([0; 4]);
}

#[test]
fn reads_png_text() {
    let mut png = b"\x89PNG\r\n\x1a\n".to_vec();
    for (kind, data) in [(b"IHDR", &b"0123456789abc"[..]), (b"tEXt", b"Thumb::MTime\x001700000000")] {
        png.extend((data.len() as u32).to_be_bytes());
        png.extend(kind);
        png.extend(data);
        png.extend([0; 4]);
    }
    assert_eq!(png_text(&png, "Thumb::MTime").as_deref(), Some("1700000000"));
    assert_eq!(png_text(&png, "Thumb::URI"), None);
    assert_eq!(png_text(b"nope", "Thumb::MTime"), None);
}

#[test]
fn png_text_stops_at_image_data_and_mends_bad_text() {
    let mut png = b"\x89PNG\r\n\x1a\n".to_vec();
    chunk(&mut png, b"tEXt", b"Thumb::URI\0caf\xe9");
    chunk(&mut png, b"IDAT", b"xx");
    chunk(&mut png, b"tEXt", b"Thumb::MTime\x0042");
    assert_eq!(png_text(&png, "Thumb::URI").as_deref(), Some("caf\u{fffd}"));
    assert_eq!(png_text(&png, "Thumb::MTime"), None);
}

#[test]
fn cache_flavour_order() {
    let names = |t| size_preference(t).into_iter().map(|(n, _)| n).collect::<Vec<_>>();
    assert_eq!(names(336), ["x-large", "xx-large", "large", "normal"]);
    assert_eq!(names(168), ["large", "x-large", "xx-large", "normal"]);
}

#[test]
fn cache_flavours_for_extreme_cells() {
    let sizes = |t| size_preference(t).into_iter().map(|(_, s)| s).collect::<Vec<_>>();
    assert_eq!(sizes(1), [128, 256, 512, 1024]);
    assert_eq!(sizes(5000), [1024, 512, 256, 128]);
}

#[test]
fn cached_thumbnails_must_record_the_image_time() {
    let mut png = b"\x89PNG\r\n\x1a\n".to_vec();
    chunk(&mut png, b"tEXt", b"Thumb::MTime\x001700000000");
    chunk(&mut png, b"IDAT", b"xx");
    assert!(current(&png, 1_700_000_000));
    assert!(!current(&png, 1_700_000_001));
    let mut odd = b"\x89PNG\r\n\x1a\n".to_vec();
    chunk(&mut odd, b"tEXt", b"Thumb::MTime\x00+17");
    assert!(current(&odd, 17));
    let mut bad = b"\x89PNG\r\n\x1a\n".to_vec();
    chunk(&mut bad, b"tEXt", b"Thumb::MTime\x00 17");
    assert!(!current(&bad, 17));
    assert!(!current(b"not a png", 0));
}

#[test]
fn three_quarters_of_the_cell_is_sharp_enough() {
    assert!(sharp_enough(128, 168));
    assert!(!sharp_enough(128, 171));
    assert!(sharp_enough(256, 336));
    assert!(!sharp_enough(256, 342));
}

#[test]
fn orientations_turn_then_mirror() {
    assert_eq!(upright(1), (Turn::Keep, None));
    assert_eq!(upright(2), (Turn::Keep, Some(true)));
    assert_eq!(upright(3), (Turn::UpsideDown, None));
    assert_eq!(upright(4), (Turn::Keep, Some(false)));
    assert_eq!(upright(5), (Turn::Clockwise, Some(true)));
    assert_eq!(upright(6), (Turn::Clockwise, None));
    assert_eq!(upright(7), (Turn::Clockwise, Some(false)));
    assert_eq!(upright(8), (Turn::Counterclockwise, None));
    assert_eq!(upright(0), (Turn::Keep, None));
    assert_eq!(upright(9), (Turn::Keep, None));
}

#[test]
fn a_quarter_over_the_cell_is_too_big() {
    assert!(!oversized(210, 100, 168));
    assert!(oversized(211, 100, 168));
    assert!(oversized(100, 211, 168));
    assert!(!oversized(160, 120, 168));
}
