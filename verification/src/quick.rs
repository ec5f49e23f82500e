//! Thumbnails that already exist somewhere, so nothing has to be decoded at
//! full size: which freedesktop cache flavours to try, whether a cached PNG
//! is current and sharp enough, the preview embedded in a JPEG's EXIF
//! block, and how such a picture is turned upright and whether it must
//! shrink. Pure byte work; reading the files and the pixels is up to the
//! caller.

use vstd::prelude::*;
use std::ops::Range;

use crate::exif::{be16, exif_tag, read};
use vstd::string::StringSliceAdditionalSpecFns;

verus! {

/// The cache flavours and their sizes, smallest first.
pub open spec fn flavours() -> Seq<(Seq<char>, i32)> {
    seq![("normal"@, 128i32), ("large"@, 256i32), ("x-large"@, 512i32), ("xx-large"@, 1024i32)]
}

/// Flavours to try for a `target` sized cell: the smallest that is big
/// enough first, then the smaller ones from the top down.
pub open spec fn preferred(target: i32) -> Seq<(Seq<char>, i32)> {
    flavours().filter(|f: (Seq<char>, i32)| f.1 >= target) + flavours().filter(|f: (Seq<char>, i32)| f.1 < target).reverse()
}

/// Flavours to try for a `target` sized cell: the smallest that is big
/// enough first, then the smaller ones from the top down.
pub fn size_preference(target: i32) -> (r: Vec<(&'static str, i32)>)
    ensures
        r@.map_values(|f: (&'static str, i32)| (f.0@, f.1)) == preferred(target),
{
    let sizes = [("normal", 128i32), ("large", 256i32), ("x-large", 512i32), ("xx-large", 1024i32)];
    let ghost all = flavours();
    assert(sizes@.map_values(|f: (&'static str, i32)| (f.0@, f.1)) =~= all);
    let ghost big = |f: (Seq<char>, i32)| f.1 >= target;
    let ghost small = |f: (Seq<char>, i32)| f.1 < target;
    let mut enough: Vec<(&'static str, i32)> = Vec::new();
    let mut i: usize = 0;
    while i < 4
        invariant
            i <= 4,
            sizes@.map_values(|f: (&'static str, i32)| (f.0@, f.1)) == all,
            all == flavours(),
            big == (|f: (Seq<char>, i32)| f.1 >= target),
            enough@.map_values(|f: (&'static str, i32)| (f.0@, f.1)) == all.subrange(0, i as int).filter(big),
        decreases 4 - i,
    {
        proof {
            all.subrange(0, i as int).lemma_filter_push(all[i as int], big);
            assert(all.subrange(0, i + 1) =~= all.subrange(0, i as int).push(all[i as int]));
            assert(all[i as int] == (sizes@[i as int].0@, sizes@[i as int].1));
        }
        if sizes[i].1 >= target {
            let ghost before = enough@;
            enough.push(sizes[i]);
            proof {
                crate::text::lemma_map_push(before, sizes@[i as int], |f: (&'static str, i32)| (f.0@, f.1));
            }
        }
        i = i + 1;
    }
    let mut k: usize = 4;
    let ghost head = enough@.map_values(|f: (&'static str, i32)| (f.0@, f.1));
    assert(all.subrange(0, 4) =~= all);
    while k > 0
        invariant
            k <= 4,
            sizes@.map_values(|f: (&'static str, i32)| (f.0@, f.1)) == all,
            all == flavours(),
            small == (|f: (Seq<char>, i32)| f.1 < target),
            enough@.map_values(|f: (&'static str, i32)| (f.0@, f.1)) == head + all.subrange(k as int, 4).filter(small).reverse(),
        decreases k,
    {
        proof {
            let tail = all.subrange(k - 1, 4);
            assert(tail =~= seq![all[k - 1]] + all.subrange(k as int, 4));
            all.subrange(k as int, 4).lemma_filter_prepend(all[k - 1], small);
            assert(all[k - 1] == (sizes@[k - 1].0@, sizes@[k - 1].1));
        }
        if sizes[k - 1].1 < target {
            let ghost before = enough@;
            enough.push(sizes[k - 1]);
            proof {
                crate::text::lemma_map_push(before, sizes@[k - 1], |f: (&'static str, i32)| (f.0@, f.1));
                let rest = all.subrange(k as int, 4).filter(small);
                assert((seq![all[k - 1]] + rest).reverse() =~= rest.reverse().push(all[k - 1]));
            }
        }
        k = k - 1;
    }
    assert(head =~= all.filter(big));
    enough
}

/// The PNG file signature.
pub open spec fn png_signature() -> Seq<u8> {
    seq![0x89u8, 0x50, 0x4e, 0x47, 0x0d, 0x0a, 0x1a, 0x0a]
}

/// `IDAT`, the first image data chunk.
pub open spec fn idat() -> Seq<u8> {
    seq![0x49u8, 0x44, 0x41, 0x54]
}

/// `tEXt`, a text chunk.
pub open spec fn text_chunk() -> Seq<u8> {
    seq![0x74u8, 0x45, 0x58, 0x74]
}

/// The four-byte big-endian number at `at`.
pub open spec fn be32(d: Seq<u8>, at: int) -> nat {
    read(d, at, 4, false)->0
}

/// The value of the `tEXt` chunk named `key`, looking at the chunks from
/// `pos` on and no further than the first image data.
pub open spec fn text_from(p: Seq<u8>, key: Seq<u8>, pos: int) -> Option<Seq<char>>
    decreases p.len() - pos,
{
    if pos < 0 || pos + 8 > p.len() {
        None
    } else {
        let length = be32(p, pos);
        let kind = p.subrange(pos + 4, pos + 8);
        if kind == idat() {
            None
        } else if kind == text_chunk() && pos + 8 + length > p.len() {
            None
        } else if kind == text_chunk() && !p.subrange(pos + 8, pos + 8 + length).contains(0u8) {
            None
        } else if kind == text_chunk() && {
            let data = p.subrange(pos + 8, pos + 8 + length);
            data.subrange(0, data.index_of_first(0u8)->0) == key
        } {
            let data = p.subrange(pos + 8, pos + 8 + length);
            Some(crate::text::utf8_lossy(data.subrange(data.index_of_first(0u8)->0 + 1, data.len() as int)))
        } else if pos + 12 + length > p.len() {
            None
        } else {
            text_from(p, key, pos + 12 + length)
        }
    }
}

/// Is a cached thumbnail whose first bytes are `png` current for an image
/// last modified at `mtime` (seconds since the epoch): does its
/// `Thumb::MTime` text give that number?
pub fn current(png: &[u8], mtime: u64) -> (r: bool)
    requires
        png.len() + 0x1_0000_0010 <= u64::MAX,
    ensures
        r == match png_text_spec(png@, "Thumb::MTime".spec_bytes()) {
            Some(t) => crate::text::parsed_u64(t) == Some(mtime),
            None => false,
        },
{
    match png_text(png, "Thumb::MTime") {
        Some(t) => crate::text::parse_u64(&crate::text::chars_of(t.as_str())) == Some(mtime),
        None => false,
    }
}

/// Is a cached thumbnail `size` pixels across sharp enough to keep for a
/// `target` sized cell: at least three quarters of it?
pub fn sharp_enough(size: i32, target: i32) -> (r: bool)
    requires
        i32::MIN <= size * 4 <= i32::MAX,
        i32::MIN <= target * 3 <= i32::MAX,
    ensures
        r == (size * 4 >= target * 3),
{
    size * 4 >= target * 3
}

/// The value of the `tEXt` chunk named `key` in the PNG `png`, looking no
/// further than the first image data.
pub open spec fn png_text_spec(png: Seq<u8>, key: Seq<u8>) -> Option<Seq<char>> {
    if png.len() >= 8 && png.subrange(0, 8) == png_signature() {
        text_from(png, key, 8)
    } else {
        None
    }
}

fn bytes_equal(a: &[u8], from: usize, b: &[u8]) -> (r: bool)
    requires
        from + b.len() <= a.len(),
    ensures
        r == (a@.subrange(from as int, from + b@.len()) == b@),
{
    let mut i: usize = 0;
    while i < b.len()
        invariant
            i <= b.len(),
            from + b.len() <= a.len(),
            forall|j: int| 0 <= j < i ==> a@[from + j] == b@[j],
        decreases b.len() - i,
    {
        if a[from + i] != b[i] {
            assert(a@.subrange(from as int, from + b@.len())[i as int] != b@[i as int]);
            return false;
        }
        i = i + 1;
    }
    assert(a@.subrange(from as int, from + b@.len()) =~= b@);
    true
}

fn be32_at(d: &[u8], at: usize) -> (r: u64)
    requires
        at + 4 <= d.len(),
    ensures
        r == be32(d@, at as int),
        r < 0x1_0000_0000,
{
    16777216 * (d[at] as u64) + 65536 * (d[at + 1] as u64) + 256 * (d[at + 2] as u64) + (d[at + 3] as u64)
}

/// The value of the `tEXt` chunk named `key` in the PNG `png`, looking no
/// further than the first image data. Text that is no UTF-8 comes with
/// replacement characters.
pub fn png_text(png: &[u8], key: &str) -> (r: Option<String>)
    requires
        png.len() + 0x1_0000_0010 <= u64::MAX,
    ensures
        match r {
            Some(s) => png_text_spec(png@, key.spec_bytes()) == Some(s@),
            None => png_text_spec(png@, key.spec_bytes()) is None,
        },
{
    let key_bytes = key.as_bytes();
    let sig: [u8; 8] = [0x89, 0x50, 0x4e, 0x47, 0x0d, 0x0a, 0x1a, 0x0a];
    assert(sig@ =~= png_signature());
    if png.len() < 8 || !bytes_equal(png, 0, &sig) {
        return None;
    }
    let idat_bytes: [u8; 4] = [0x49, 0x44, 0x41, 0x54];
    let text_bytes: [u8; 4] = [0x74, 0x45, 0x58, 0x74];
    assert(idat_bytes@ =~= idat());
    assert(text_bytes@ =~= text_chunk());
    let len = png.len() as u64;
    let mut pos: usize = 8;
    loop
        invariant
            8 <= pos <= png.len(),
            len == png.len(),
            png.len() + 0x1_0000_0010 <= u64::MAX,
            idat_bytes@ == idat(),
            text_bytes@ == text_chunk(),
            key_bytes@ == key.spec_bytes(),
            png_text_spec(png@, key.spec_bytes()) == text_from(png@, key.spec_bytes(), pos as int),
        decreases png.len() - pos,
    {
        if pos as u64 + 8 > len {
            return None;
        }
        let length = be32_at(png, pos);
        let is_idat = bytes_equal(png, pos + 4, &idat_bytes);
        if is_idat {
            return None;
        }
        let is_text = bytes_equal(png, pos + 4, &text_bytes);
        if is_text {
            if pos as u64 + 8 + length > len {
                return None;
            }
            let end = pos + 8 + length as usize;
            let ghost data = png@.subrange(pos + 8, end as int);
            let mut nul = pos + 8;
            while nul < end && png[nul] != 0
                invariant
                    pos + 8 <= nul <= end <= png.len(),
                    data == png@.subrange(pos + 8, end as int),
                    forall|j: int| pos + 8 <= j < nul ==> png@[j] != 0,
                decreases end - nul,
            {
                nul = nul + 1;
            }
            proof {
                data.index_of_first_ensures(0u8);
            }
            if nul == end {
                assert(!data.contains(0u8)) by {
                    if data.contains(0u8) {
                        let j = choose|j: int| 0 <= j < data.len() && data[j] == 0u8;
                        assert(png@[pos + 8 + j] == 0);
                    }
                }
                return None;
            }
            assert(data[nul - pos - 8] == 0u8);
            assert(data.index_of_first(0u8) == Some(nul - pos - 8)) by {
                let f = data.index_of_first(0u8)->0;
                if f < nul - pos - 8 {
                    assert(png@[pos + 8 + f] == data[f]);
                }
            }
            let name_len = nul - (pos + 8);
            let matches = name_len == key_bytes.len() && bytes_equal(png, pos + 8, key_bytes);
            assert(matches == (data.subrange(0, nul - pos - 8) == key.spec_bytes())) by {
                assert(data.subrange(0, nul - pos - 8) =~= png@.subrange(pos + 8, nul as int));
            }
            if matches {
                let value = crate::exif::copy_range(png, nul + 1, end);
                assert(value@ =~= data.subrange(nul - pos - 8 + 1, data.len() as int));
                return Some(crate::text::from_utf8_lossy(&value));
            }
        }
        if pos as u64 + 12 + length > len {
            return None;
        }
        pos = pos + 12 + length as usize;
    }
}

/// After the JPEG segments from `pos` on, the start of the TIFF data of
/// the first APP1 segment that carries EXIF data.
pub open spec fn tiff_start_from(d: Seq<u8>, pos: int) -> Option<int>
    decreases d.len() - pos,
{
    if pos < 0 || pos + 4 > d.len() {
        None
    } else if d[pos] != 0xff || d[pos + 1] == 0xda || d[pos + 1] == 0xd9 {
        None
    } else if d[pos + 1] == 0xe1 && pos + 10 > d.len() {
        None
    } else if d[pos + 1] == 0xe1 && d.subrange(pos + 4, pos + 10) == exif_tag() {
        Some(pos + 10)
    } else if pos + 2 + be16(d, pos + 2) > d.len() {
        None
    } else {
        tiff_start_from(d, pos + 2 + be16(d, pos + 2))
    }
}

/// The orientation after reading the first `i` entries of the directory at
/// `ifd`, starting from 1; `None` where an entry cannot be read.
pub open spec fn scan_orientation(t: Seq<u8>, little: bool, ifd: int, i: nat) -> Option<nat>
    decreases i,
{
    if i == 0 {
        Some(1)
    } else {
        match scan_orientation(t, little, ifd, (i - 1) as nat) {
            None => None,
            Some(o) => {
                let at = ifd + 2 + 12 * (i - 1);
                match read(t, at, 2, little) {
                    None => None,
                    Some(tag) => if tag == 0x0112 {
                        read(t, at + 8, 2, little)
                    } else {
                        Some(o)
                    },
                }
            },
        }
    }
}

/// The preview's (offset, length) after reading the first `i` entries of
/// the directory at `ifd`; `None` where an entry cannot be read.
pub open spec fn scan_preview(t: Seq<u8>, little: bool, ifd: int, i: nat) -> Option<(Option<nat>, Option<nat>)>
    decreases i,
{
    if i == 0 {
        Some((None, None))
    } else {
        match scan_preview(t, little, ifd, (i - 1) as nat) {
            None => None,
            Some((offset, length)) => {
                let at = ifd + 2 + 12 * (i - 1);
                match read(t, at, 2, little) {
                    None => None,
                    Some(tag) => if tag == 0x0201 {
                        Some((read(t, at + 8, 4, little), length))
                    } else if tag == 0x0202 {
                        Some((offset, read(t, at + 8, 4, little)))
                    } else {
                        Some((offset, length))
                    },
                }
            },
        }
    }
}

/// Where the JPEG preview in a JPEG's EXIF data lies, and the orientation
/// IFD0 records (1 where none): the TIFF data runs to the end of the bytes
/// at hand; the preview must lie within them and start like a JPEG.
pub open spec fn exif_thumbnail_spec(jpeg: Seq<u8>) -> Option<((int, int), nat)> {
    if jpeg.len() < 2 || jpeg[0] != 0xff || jpeg[1] != 0xd8 {
        None
    } else {
        match tiff_start_from(jpeg, 2) {
            None => None,
            Some(ts) => {
                let t = jpeg.subrange(ts, jpeg.len() as int);
                if t.len() < 2 || !((t[0] == 0x49 && t[1] == 0x49) || (t[0] == 0x4d && t[1] == 0x4d)) {
                    None
                } else {
                    let little = t[0] == 0x49;
                    match read(t, 4, 4, little) {
                        None => None,
                        Some(ifd0) => match read(t, ifd0 as int, 2, little) {
                            None => None,
                            Some(n0) => match scan_orientation(t, little, ifd0 as int, n0) {
                                None => None,
                                Some(orientation) => match read(t, (ifd0 + 2 + n0 * 12) as int, 4, little) {
                                    None => None,
                                    Some(ifd1) => if ifd1 == 0 {
                                        None
                                    } else {
                                        match read(t, ifd1 as int, 2, little) {
                                            None => None,
                                            Some(n1) => match scan_preview(t, little, ifd1 as int, n1) {
                                                Some((Some(offset), Some(length))) => {
                                                    let start = ts + offset;
                                                    let end = start + length;
                                                    if end <= jpeg.len() && length >= 2 && jpeg[start] == 0xff
                                                        && jpeg[start + 1] == 0xd8 {
                                                        Some(((start, end), orientation))
                                                    } else {
                                                        None
                                                    }
                                                },
                                                _ => None,
                                            },
                                        }
                                    },
                                },
                            },
                        },
                    }
                }
            },
        }
    }
}

/// The number of `len` (2 or 4) bytes at `at` of `jpeg[from..]`.
fn number_at(jpeg: &[u8], from: usize, at: u64, len: u64, little: bool) -> (r: Option<u64>)
    requires
        from <= jpeg.len(),
        len == 2 || len == 4,
        at <= 0x10_0000_0000,
    ensures
        match r {
            Some(v) => read(jpeg@.subrange(from as int, jpeg@.len() as int), at as int, len as int, little)
                == Some(v as nat),
            None => read(jpeg@.subrange(from as int, jpeg@.len() as int), at as int, len as int, little) is None,
        },
{
    let ghost t = jpeg@.subrange(from as int, jpeg@.len() as int);
    let n = (jpeg.len() - from) as u64;
    if at + len > n {
        return None;
    }
    let base = from + at as usize;
    assert(t[at as int] == jpeg@[base as int]);
    assert(t[at + 1] == jpeg@[base + 1]);
    let b0 = jpeg[base] as u64;
    let b1 = jpeg[base + 1] as u64;
    if len == 2 {
        if little {
            Some(b0 + 256 * b1)
        } else {
            Some(256 * b0 + b1)
        }
    } else {
        assert(t[at + 2] == jpeg@[base + 2]);
        assert(t[at + 3] == jpeg@[base + 3]);
        let b2 = jpeg[base + 2] as u64;
        let b3 = jpeg[base + 3] as u64;
        if little {
            Some(b0 + 256 * b1 + 65536 * b2 + 16777216 * b3)
        } else {
            Some(16777216 * b0 + 65536 * b1 + 256 * b2 + b3)
        }
    }
}

/// Locate the JPEG preview in a JPEG's EXIF data: its byte range and the
/// orientation the image records (1 where none).
pub fn exif_thumbnail(jpeg: &[u8]) -> (r: Option<(Range<usize>, u16)>)
    ensures
        match r {
            Some((range, o)) => exif_thumbnail_spec(jpeg@) == Some(((range.start as int, range.end as int), o as nat)),
            None => exif_thumbnail_spec(jpeg@) is None,
        },
{
    if jpeg.len() < 2 || jpeg[0] != 0xff || jpeg[1] != 0xd8 {
        return None;
    }
    let tag: [u8; 6] = [0x45, 0x78, 0x69, 0x66, 0, 0];
    assert(tag@ =~= exif_tag());
    let mut pos: usize = 2;
    loop
        invariant
            2 <= pos <= jpeg.len(),
            tag@ == exif_tag(),
            tiff_start_from(jpeg@, 2) == tiff_start_from(jpeg@, pos as int),
        ensures
            tiff_start_from(jpeg@, 2) == Some(pos + 10),
            pos + 10 <= jpeg.len(),
        decreases jpeg.len() - pos,
    {
        if pos > jpeg.len() || jpeg.len() - pos < 4 {
            return None;
        }
        if jpeg[pos] != 0xff || jpeg[pos + 1] == 0xda || jpeg[pos + 1] == 0xd9 {
            return None;
        }
        let length = 256 * (jpeg[pos + 2] as usize) + jpeg[pos + 3] as usize;
        if jpeg[pos + 1] == 0xe1 {
            if jpeg.len() - pos < 10 {
                return None;
            }
            if bytes_equal(jpeg, pos + 4, &tag) {
                break;
            }
        }
        if length + 2 > jpeg.len() - pos {
            proof {
                let next = pos + 2 + length;
                assert(tiff_start_from(jpeg@, next as int) is None);
            }
            return None;
        }
        pos = pos + 2 + length;
    }
    let tiff_start = pos + 10;
    let ghost t = jpeg@.subrange(tiff_start as int, jpeg@.len() as int);
    if jpeg.len() - tiff_start < 2 {
        return None;
    }
    let a = jpeg[tiff_start];
    let b = jpeg[tiff_start + 1];
    assert(t[0] == a && t[1] == b);
    if !((a == 0x49 && b == 0x49) || (a == 0x4d && b == 0x4d)) {
        return None;
    }
    let little = a == 0x49;
    let ifd0 = match number_at(jpeg, tiff_start, 4, 4, little) {
        Some(v) => v,
        None => return None,
    };
    assert(ifd0 < 0x1_0000_0000) by {
        assert(read(t, 4, 4, little)->0 < 0x1_0000_0000) by (nonlinear_arith)
            requires
                t.len() >= 8,
                read(t, 4, 4, little) == Some(read(t, 4, 4, little)->0),
                read(t, 4, 4, little)->0 == (if little {
                    (t[4] as nat) + 256 * (t[5] as nat) + 65536 * (t[6] as nat) + 16777216 * (t[7] as nat)
                } else {
                    16777216 * (t[4] as nat) + 65536 * (t[5] as nat) + 256 * (t[6] as nat) + (t[7] as nat)
                }),
        ;
    }
    let n0 = match number_at(jpeg, tiff_start, ifd0, 2, little) {
        Some(v) => v,
        None => return None,
    };
    proof {
        lemma_read4_small(t, ifd0 as int, little);
    }
    let mut orientation: u64 = 1;
    let mut i: u64 = 0;
    while i < n0
        invariant
            i <= n0 < 0x10000,
            ifd0 < 0x1_0000_0000,
            tiff_start <= jpeg.len(),
            t == jpeg@.subrange(tiff_start as int, jpeg@.len() as int),
            jpeg@.len() >= 2 && jpeg@[0] == 0xff && jpeg@[1] == 0xd8,
            tiff_start_from(jpeg@, 2) == Some(tiff_start as int),
            t.len() >= 2,
            (t[0] == 0x49 && t[1] == 0x49) || (t[0] == 0x4d && t[1] == 0x4d),
            little == (t[0] == 0x49),
            read(t, 4, 4, little) == Some(ifd0 as nat),
            read(t, ifd0 as int, 2, little) == Some(n0 as nat),
            scan_orientation(t, little, ifd0 as int, i as nat) == Some(orientation as nat),
        decreases n0 - i,
    {
        let at = ifd0 + 2 + 12 * i;
        let tag_value = match number_at(jpeg, tiff_start, at, 2, little) {
            Some(v) => v,
            None => {
                assert(scan_orientation(t, little, ifd0 as int, (i + 1) as nat) is None);
                proof {
                    lemma_scan_orientation_stuck(t, little, ifd0 as int, (i + 1) as nat, n0 as nat);
                }
                return None;
            },
        };
        if tag_value == 0x0112 {
            orientation = match number_at(jpeg, tiff_start, at + 8, 2, little) {
                Some(v) => v,
                None => {
                    assert(scan_orientation(t, little, ifd0 as int, (i + 1) as nat) is None);
                    proof {
                        lemma_scan_orientation_stuck(t, little, ifd0 as int, (i + 1) as nat, n0 as nat);
                    }
                    return None;
                },
            };
        }
        i = i + 1;
    }
    assert(orientation < 0x10000) by {
        lemma_scan_orientation_small(t, little, ifd0 as int, n0 as nat);
    }
    let ifd1 = match number_at(jpeg, tiff_start, ifd0 + 2 + n0 * 12, 4, little) {
        Some(v) => v,
        None => return None,
    };
    if ifd1 == 0 {
        return None;
    }
    assert(ifd1 < 0x1_0000_0000) by {
        lemma_read4_small(t, (ifd0 + 2 + n0 * 12) as int, little);
    }
    let n1 = match number_at(jpeg, tiff_start, ifd1, 2, little) {
        Some(v) => v,
        None => return None,
    };
    proof {
        lemma_read4_small(t, ifd1 as int, little);
    }
    let mut offset: Option<u64> = None;
    let mut length: Option<u64> = None;
    let mut k: u64 = 0;
    while k < n1
        invariant
            k <= n1 < 0x10000,
            ifd1 < 0x1_0000_0000,
            tiff_start <= jpeg.len(),
            t == jpeg@.subrange(tiff_start as int, jpeg@.len() as int),
            jpeg@.len() >= 2 && jpeg@[0] == 0xff && jpeg@[1] == 0xd8,
            tiff_start_from(jpeg@, 2) == Some(tiff_start as int),
            t.len() >= 2,
            (t[0] == 0x49 && t[1] == 0x49) || (t[0] == 0x4d && t[1] == 0x4d),
            little == (t[0] == 0x49),
            read(t, 4, 4, little) == Some(ifd0 as nat),
            read(t, ifd0 as int, 2, little) == Some(n0 as nat),
            scan_orientation(t, little, ifd0 as int, n0 as nat) == Some(orientation as nat),
            read(t, (ifd0 + 2 + n0 * 12) as int, 4, little) == Some(ifd1 as nat),
            ifd1 != 0,
            read(t, ifd1 as int, 2, little) == Some(n1 as nat),
            scan_preview(t, little, ifd1 as int, k as nat) == Some((opt_nat(offset), opt_nat(length))),
        decreases n1 - k,
    {
        let at = ifd1 + 2 + 12 * k;
        let tag_value = match number_at(jpeg, tiff_start, at, 2, little) {
            Some(v) => v,
            None => {
                proof {
                    lemma_scan_preview_stuck(t, little, ifd1 as int, (k + 1) as nat, n1 as nat);
                }
                return None;
            },
        };
        if tag_value == 0x0201 {
            offset = number_at(jpeg, tiff_start, at + 8, 4, little);
        } else if tag_value == 0x0202 {
            length = number_at(jpeg, tiff_start, at + 8, 4, little);
        }
        k = k + 1;
    }
    let (off, len) = match (offset, length) {
        (Some(o), Some(l)) => (o, l),
        _ => return None,
    };
    assert(off < 0x1_0000_0000 && len < 0x1_0000_0000) by {
        lemma_scan_preview_small(t, little, ifd1 as int, n1 as nat);
    }
    if off + len > (jpeg.len() - tiff_start) as u64 {
        return None;
    }
    let start = tiff_start + off as usize;
    let end = start + len as usize;
    if len < 2 || jpeg[start] != 0xff || jpeg[start + 1] != 0xd8 {
        return None;
    }
    Some((start..end, orientation as u16))
}

/// The value of an optional reading.
pub open spec fn opt_nat(o: Option<u64>) -> Option<nat> {
    match o {
        Some(v) => Some(v as nat),
        None => None,
    }
}

proof fn lemma_read4_small(t: Seq<u8>, at: int, little: bool)
    ensures
        read(t, at, 4, little) matches Some(v) ==> v < 0x1_0000_0000,
        read(t, at, 2, little) matches Some(v) ==> v < 0x10000,
{
    if at >= 0 && at + 4 <= t.len() {
        let (b0, b1, b2, b3) = (t[at] as nat, t[at + 1] as nat, t[at + 2] as nat, t[at + 3] as nat);
        assert(b0 + 256 * b1 + 65536 * b2 + 16777216 * b3 < 0x1_0000_0000) by (nonlinear_arith)
            requires
                b0 < 256 && b1 < 256 && b2 < 256 && b3 < 256,
        ;
        assert(16777216 * b0 + 65536 * b1 + 256 * b2 + b3 < 0x1_0000_0000) by (nonlinear_arith)
            requires
                b0 < 256 && b1 < 256 && b2 < 256 && b3 < 256,
        ;
    }
    if at >= 0 && at + 2 <= t.len() {
        let (b0, b1) = (t[at] as nat, t[at + 1] as nat);
        assert(b0 + 256 * b1 < 0x10000 && 256 * b0 + b1 < 0x10000) by (nonlinear_arith)
            requires
                b0 < 256 && b1 < 256,
        ;
    }
}

proof fn lemma_scan_orientation_stuck(t: Seq<u8>, little: bool, ifd: int, i: nat, n: nat)
    requires
        i <= n,
        scan_orientation(t, little, ifd, i) is None,
    ensures
        scan_orientation(t, little, ifd, n) is None,
    decreases n - i,
{
    if i < n {
        lemma_scan_orientation_stuck(t, little, ifd, i + 1, n);
    }
}

proof fn lemma_scan_orientation_small(t: Seq<u8>, little: bool, ifd: int, i: nat)
    ensures
        scan_orientation(t, little, ifd, i) matches Some(o) ==> o < 0x10000,
    decreases i,
{
    if i > 0 {
        lemma_scan_orientation_small(t, little, ifd, (i - 1) as nat);
        lemma_read4_small(t, ifd + 2 + 12 * (i - 1) + 8, little);
    }
}

proof fn lemma_scan_preview_stuck(t: Seq<u8>, little: bool, ifd: int, i: nat, n: nat)
    requires
        i <= n,
        scan_preview(t, little, ifd, i) is None,
    ensures
        scan_preview(t, little, ifd, n) is None,
    decreases n - i,
{
    if i < n {
        lemma_scan_preview_stuck(t, little, ifd, i + 1, n);
    }
}

proof fn lemma_scan_preview_small(t: Seq<u8>, little: bool, ifd: int, i: nat)
    ensures
        scan_preview(t, little, ifd, i) matches Some((o, l)) ==> (o matches Some(v) ==> v < 0x1_0000_0000) && (
        l matches Some(w) ==> w < 0x1_0000_0000),
    decreases i,
{
    if i > 0 {
        lemma_scan_preview_small(t, little, ifd, (i - 1) as nat);
        lemma_read4_small(t, ifd + 2 + 12 * (i - 1) + 8, little);
    }
}


/// A turn that brings a picture upright.
#[derive(Clone, Copy, Debug, PartialEq, Eq, Structural)]
pub enum Turn {
    Keep,
    Clockwise,
    UpsideDown,
    Counterclockwise,
}

/// How a picture stored with EXIF orientation `o` is shown upright: a
/// turn, then, where `Some`, a mirror (`true`: left to right, `false`: top
/// to bottom).
pub open spec fn upright_spec(o: u16) -> (Turn, Option<bool>) {
    if o == 2 {
        (Turn::Keep, Some(true))
    } else if o == 3 {
        (Turn::UpsideDown, None)
    } else if o == 4 {
        (Turn::Keep, Some(false))
    } else if o == 5 {
        (Turn::Clockwise, Some(true))
    } else if o == 6 {
        (Turn::Clockwise, None)
    } else if o == 7 {
        (Turn::Clockwise, Some(false))
    } else if o == 8 {
        (Turn::Counterclockwise, None)
    } else {
        (Turn::Keep, None)
    }
}

/// How a picture stored with EXIF orientation `o` is shown upright.
pub fn upright(o: u16) -> (r: (Turn, Option<bool>))
    ensures
        r == upright_spec(o),
{
    match o {
        2 => (Turn::Keep, Some(true)),
        3 => (Turn::UpsideDown, None),
        4 => (Turn::Keep, Some(false)),
        5 => (Turn::Clockwise, Some(true)),
        6 => (Turn::Clockwise, None),
        7 => (Turn::Clockwise, Some(false)),
        8 => (Turn::Counterclockwise, None),
        _ => (Turn::Keep, None),
    }
}

/// Is a `width` × `height` picture too big for a `max` sized cell: is its
/// longer side more than a quarter over?
pub fn oversized(width: i32, height: i32, max: i32) -> (r: bool)
    requires
        max >= 0,
        max + max / 4 <= i32::MAX,
    ensures
        r == ((if width >= height { width } else { height }) > max + max / 4),
{
    let longer = if width >= height {
        width
    } else {
        height
    };
    longer > max + max / 4
}

} // verus!
