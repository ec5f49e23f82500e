//! Just enough EXIF: find the block in a JPEG, read a handful of tags, the
//! embedded preview and the orientation, and produce the bytes for setting
//! an orientation where none was recorded. Pure byte work, no I/O.

use vstd::prelude::*;
use std::ops::Range;
use crate::text;

verus! {

pub const ORIENTATION: u16 = 0x0112;
pub const MAKE: u16 = 0x010f;
pub const MODEL: u16 = 0x0110;
pub const EXIF_IFD: u16 = 0x8769;
pub const THUMBNAIL_OFFSET: u16 = 0x0201;
pub const THUMBNAIL_LENGTH: u16 = 0x0202;
pub const EXPOSURE_TIME: u16 = 0x829a;
pub const F_NUMBER: u16 = 0x829d;
pub const ISO: u16 = 0x8827;
pub const DATE_TAKEN: u16 = 0x9003;
pub const FOCAL_LENGTH: u16 = 0x920a;

/// Where the EXIF block of a JPEG lies.
pub struct Header {
    /// Start of the APP1 segment (its marker).
    pub segment_start: nat,
    /// End of the segment as its length field gives it.
    pub segment_end: nat,
    /// File offset all TIFF offsets are relative to.
    pub tiff_start: nat,
    pub little_endian: bool,
}

/// Can every offset a segment length reaches past `len` still be held
/// in a `usize`?
pub open spec fn addressable(len: nat) -> bool {
    len + 0x100000 <= usize::MAX
}

/// Is the segment long enough to hold its own TIFF header position?
pub open spec fn readable(h: Header) -> bool {
    h.tiff_start <= h.segment_end
}

/// The two-byte big-endian number at `at`.
pub open spec fn be16(d: Seq<u8>, at: int) -> nat {
    (d[at] as nat) * 256 + (d[at + 1] as nat)
}

/// The APP1 "Exif\0\0" marker text.
pub open spec fn exif_tag() -> Seq<u8> {
    seq![0x45u8, 0x78, 0x69, 0x66, 0, 0]
}

/// Walk the JPEG segments from `pos` to the first APP1 segment carrying
/// EXIF data; stop at the start of the image data or at anything that is
/// no segment.
pub open spec fn find_from(d: Seq<u8>, pos: int) -> Option<Header>
    decreases d.len() - pos,
{
    if pos < 0 || pos + 4 > d.len() {
        None
    } else if d[pos] != 0xff || d[pos + 1] == 0xda || d[pos + 1] == 0xd9 {
        None
    } else {
        let end = pos + 2 + be16(d, pos + 2);
        if d[pos + 1] == 0xe1 && (pos + 10 > d.len() || d.subrange(pos + 4, pos + 10)
            == exif_tag()) {
            if pos + 12 > d.len() {
                None
            } else if d[pos + 10] == 0x49 && d[pos + 11] == 0x49 {
                Some(
                    Header {
                        segment_start: pos as nat,
                        segment_end: end as nat,
                        tiff_start: (pos + 10) as nat,
                        little_endian: true,
                    },
                )
            } else if d[pos + 10] == 0x4d && d[pos + 11] == 0x4d {
                Some(
                    Header {
                        segment_start: pos as nat,
                        segment_end: end as nat,
                        tiff_start: (pos + 10) as nat,
                        little_endian: false,
                    },
                )
            } else {
                None
            }
        } else if end + 4 > d.len() {
            None
        } else {
            find_from(d, end)
        }
    }
}

/// The EXIF block of a JPEG: the start of image marker, then segments.
pub open spec fn find_spec(d: Seq<u8>) -> Option<Header> {
    if d.len() < 2 || d[0] != 0xff || d[1] != 0xd8 {
        None
    } else {
        find_from(d, 2)
    }
}

/// The TIFF data: from the TIFF header to the end of the segment, or of
/// the bytes at hand if they end sooner.
pub open spec fn tiff(d: Seq<u8>, h: Header) -> Seq<u8> {
    let end = if h.segment_end < d.len() {
        h.segment_end as int
    } else {
        d.len() as int
    };
    d.subrange(h.tiff_start as int, end)
}

/// The unsigned number of `len` (2 or 4) bytes at `at` of `t`, in the byte order given.
pub open spec fn read(t: Seq<u8>, at: int, len: int, little: bool) -> Option<nat> {
    if at < 0 || at + len > t.len() {
        None
    } else if len == 2 {
        Some(
            if little {
                (t[at] as nat) + 256 * (t[at + 1] as nat)
            } else {
                256 * (t[at] as nat) + (t[at + 1] as nat)
            },
        )
    } else {
        Some(
            if little {
                (t[at] as nat) + 256 * (t[at + 1] as nat) + 65536 * (t[at + 2] as nat) + 16777216
                    * (t[at + 3] as nat)
            } else {
                16777216 * (t[at] as nat) + 65536 * (t[at + 1] as nat) + 256 * (t[at + 2] as nat)
                    + (t[at + 3] as nat)
            },
        )
    }
}

/// One directory entry.
#[derive(Clone, Copy)]
pub struct Entry {
    pub tag: u16,
    pub kind: u16,
    pub count: usize,
    /// TIFF offset of the entry's 4 value bytes.
    pub value_at: usize,
}

/// How many entries of the directory at `ifd` can be read: as many as its
/// count says, but only while an entry's first 8 bytes lie inside `t`.
pub open spec fn entry_count(t: Seq<u8>, ifd: int, little: bool) -> int {
    let count = match read(t, ifd, 2, little) {
        Some(c) => c as int,
        None => 0,
    };
    let fit = if ifd + 10 > t.len() {
        0
    } else {
        (t.len() - ifd - 10) / 12 + 1
    };
    if count < fit {
        count
    } else {
        fit
    }
}

/// The entry whose 12 bytes start at `at`.
pub open spec fn entry_at(t: Seq<u8>, at: int, little: bool) -> Entry {
    Entry {
        tag: read(t, at, 2, little).unwrap() as u16,
        kind: read(t, at + 2, 2, little).unwrap() as u16,
        count: read(t, at + 4, 4, little).unwrap() as usize,
        value_at: (at + 8) as usize,
    }
}

/// The readable entries of the directory at `ifd`.
pub open spec fn entries(t: Seq<u8>, ifd: int, little: bool) -> Seq<Entry> {
    Seq::new(entry_count(t, ifd, little) as nat, |i: int| entry_at(t, ifd + 2 + 12 * i, little))
}

/// The first entry of `es` with `tag`.
pub open spec fn first_tag(es: Seq<Entry>, tag: u16) -> Option<Entry>
    decreases es.len(),
{
    if es.len() == 0 {
        None
    } else if es[0].tag == tag {
        Some(es[0])
    } else {
        first_tag(es.drop_first(), tag)
    }
}

/// Where the first directory (IFD0) starts.
pub open spec fn ifd0(t: Seq<u8>, little: bool) -> int {
    match read(t, 4, 4, little) {
        Some(v) => v as int,
        None => 0,
    }
}

/// Where the second directory (IFD1, the preview's) starts, if there is one.
pub open spec fn ifd1(t: Seq<u8>, little: bool) -> Option<int> {
    let i0 = ifd0(t, little);
    match read(t, i0, 2, little) {
        None => None,
        Some(n) => match read(t, i0 + 2 + n * 12, 4, little) {
            Some(v) => if v != 0 {
                Some(v as int)
            } else {
                None
            },
            None => None,
        },
    }
}

/// The entry for `tag` in IFD0 or, failing that, in the Exif sub-directory.
pub open spec fn entry(t: Seq<u8>, tag: u16, little: bool) -> Option<Entry> {
    let main = entries(t, ifd0(t, little), little);
    match first_tag(main, tag) {
        Some(e) => Some(e),
        None => match first_tag(main, EXIF_IFD) {
            None => None,
            Some(sub) => match read(t, sub.value_at as int, 4, little) {
                None => None,
                Some(at) => first_tag(entries(t, at as int, little), tag),
            },
        },
    }
}

/// File offset of the two orientation bytes, their byte order, the value.
pub open spec fn orientation_spec(d: Seq<u8>, h: Header) -> Option<(usize, bool, u16)> {
    let t = tiff(d, h);
    match entry(t, ORIENTATION, h.little_endian) {
        None => None,
        Some(e) => match read(t, e.value_at as int, 2, h.little_endian) {
            None => None,
            Some(v) => Some(((h.tiff_start + e.value_at) as usize, h.little_endian, v as u16)),
        },
    }
}

/// The 4-byte value of the first entry with `tag` in `es`.
pub open spec fn value_of(t: Seq<u8>, es: Seq<Entry>, tag: u16, little: bool) -> Option<nat> {
    match first_tag(es, tag) {
        None => None,
        Some(e) => read(t, e.value_at as int, 4, little),
    }
}

/// Byte range of the embedded JPEG preview: IFD1's offset and length,
/// inside the bytes at hand, starting with a JPEG start-of-image marker.
pub open spec fn thumbnail_spec(d: Seq<u8>, h: Header) -> Option<(int, int)> {
    let t = tiff(d, h);
    let little = h.little_endian;
    match ifd1(t, little) {
        None => None,
        Some(i1) => {
            let es = entries(t, i1, little);
            match (value_of(t, es, THUMBNAIL_OFFSET, little), value_of(t, es, THUMBNAIL_LENGTH, little)) {
                (Some(off), Some(len)) => {
                    let start = h.tiff_start + off;
                    let end = start + len;
                    if end <= d.len() && len >= 2 && d[start as int] == 0xff && d[start as int + 1] == 0xd8 {
                        Some((start as int, end as int))
                    } else {
                        None
                    }
                },
                _ => None,
            }
        },
    }
}

/// Index of the first zero byte of `b`, or its length.
pub open spec fn nul_pos(b: Seq<u8>) -> nat
    decreases b.len(),
{
    if b.len() == 0 || b[0] == 0 {
        0
    } else {
        1 + nul_pos(b.drop_first())
    }
}

/// `b` up to its first zero byte.
pub open spec fn before_nul(b: Seq<u8>) -> Seq<u8> {
    b.subrange(0, nul_pos(b) as int)
}

/// The text of an ASCII entry: its bytes up to the first zero, decoded,
/// trimmed; nothing when that leaves it empty.
pub open spec fn text_spec(d: Seq<u8>, h: Header, tag: u16) -> Option<Seq<char>> {
    let t = tiff(d, h);
    let little = h.little_endian;
    match entry(t, tag, little) {
        None => None,
        Some(e) => if e.kind != 2 {
            None
        } else {
            let at = if e.count <= 4 {
                Some(e.value_at as nat)
            } else {
                read(t, e.value_at as int, 4, little)
            };
            match at {
                None => None,
                Some(a) => if a + e.count > t.len() {
                    None
                } else {
                    let s = text::trim(
                        text::utf8_lossy(before_nul(t.subrange(a as int, a + e.count))),
                    );
                    if s.len() == 0 {
                        None
                    } else {
                        Some(s)
                    }
                },
            }
        },
    }
}

/// A SHORT or LONG entry's number.
pub open spec fn integer_spec(d: Seq<u8>, h: Header, tag: u16) -> Option<nat> {
    let t = tiff(d, h);
    let little = h.little_endian;
    match entry(t, tag, little) {
        None => None,
        Some(e) => if e.kind == 3 {
            read(t, e.value_at as int, 2, little)
        } else if e.kind == 4 {
            read(t, e.value_at as int, 4, little)
        } else {
            None
        },
    }
}

/// A RATIONAL entry's (numerator, denominator), unless the denominator is 0.
pub open spec fn rational_spec(d: Seq<u8>, h: Header, tag: u16) -> Option<(nat, nat)> {
    let t = tiff(d, h);
    let little = h.little_endian;
    match entry(t, tag, little) {
        None => None,
        Some(e) => if e.kind != 5 {
            None
        } else {
            match read(t, e.value_at as int, 4, little) {
                None => None,
                Some(at) => match (read(t, at as int, 4, little), read(t, at as int + 4, 4, little)) {
                    (Some(n), Some(q)) => if q != 0 {
                        Some((n, q))
                    } else {
                        None
                    },
                    _ => None,
                },
            }
        },
    }
}

/// The first `len` bytes of `time`, if they end on a character boundary;
/// otherwise, or if it is shorter, all of it (`str::get(..5).unwrap_or`).
pub open spec fn cut_bytes(s: Seq<char>, k: int, used: nat, len: nat) -> Seq<char>
    decreases s.len() - k,
{
    if used == len {
        s.subrange(0, k)
    } else if used > len || k < 0 || k >= s.len() {
        s
    } else {
        cut_bytes(s, k + 1, used + text::utf8_width(s[k]), len)
    }
}

/// Index of the first space in `s`, if any.
pub open spec fn space_pos(s: Seq<char>) -> Option<nat>
    decreases s.len(),
{
    if s.len() == 0 {
        None
    } else if s[0] == ' ' {
        Some(0)
    } else {
        match space_pos(s.drop_first()) {
            Some(k) => Some(k + 1),
            None => None,
        }
    }
}

/// `s` with every `:` turned into `-`.
pub open spec fn colons_to_dashes(s: Seq<char>) -> Seq<char> {
    s.map_values(|c: char| if c == ':' { '-' } else { c })
}

/// "2024:05:01 12:30:00" → "taken 2024-05-01 12:30".
pub open spec fn taken_line(date: Seq<char>) -> Seq<char> {
    let (day, time) = match space_pos(date) {
        Some(k) => (date.subrange(0, k as int), date.subrange(k as int + 1, date.len() as int)),
        None => (date, Seq::empty()),
    };
    text::trim(
        seq!['t', 'a', 'k', 'e', 'n', ' '] + colons_to_dashes(day) + seq![' '] + cut_bytes(
            time,
            0,
            0,
            5,
        ),
    )
}

/// Make and model together, the model alone when it already names the make.
pub open spec fn camera_line(make: Option<Seq<char>>, model: Option<Seq<char>>) -> Option<Seq<char>> {
    match (make, model) {
        (Some(a), Some(m)) => if !(a.len() <= m.len() && m.subrange(0, a.len() as int) == a) {
            Some(a + seq![' '] + m)
        } else {
            Some(m)
        },
        (_, Some(m)) => Some(m),
        (a, None) => a,
    }
}

/// The text held, if any.
pub open spec fn opt_text(o: Option<String>) -> Option<Seq<char>> {
    match o {
        Some(s) => Some(s@),
        None => None,
    }
}

/// The numbers held, if any.
pub open spec fn opt_pair(o: Option<(usize, usize)>) -> Option<(nat, nat)> {
    match o {
        Some((a, b)) => Some((a as nat, b as nat)),
        None => None,
    }
}

/// The two bytes of `v` (its low 16 bits) in big-endian order.
pub open spec fn be2(v: nat) -> Seq<u8> {
    seq![((v / 256) % 256) as u8, (v % 256) as u8]
}

/// `v` (its low `len` bytes, `len` 2 or 4) in the TIFF's byte order.
pub open spec fn put(v: nat, len: nat, little: bool) -> Seq<u8> {
    if len == 2 {
        if little {
            seq![(v % 256) as u8, ((v / 256) % 256) as u8]
        } else {
            be2(v)
        }
    } else if little {
        seq![(v % 256) as u8, ((v / 256) % 256) as u8, ((v / 65536) % 256) as u8, ((v / 16777216) % 256) as u8]
    } else {
        seq![((v / 16777216) % 256) as u8, ((v / 65536) % 256) as u8, ((v / 256) % 256) as u8, (v % 256) as u8]
    }
}

/// The 12 bytes of an orientation entry: SHORT, one value, `orientation`.
pub open spec fn orientation_entry(orientation: u16, little: bool) -> Seq<u8> {
    put(ORIENTATION as nat, 2, little) + put(3, 2, little) + put(1, 4, little) + put(
        orientation as nat,
        2,
        little,
    ) + seq![0u8, 0u8]
}

/// `t` (sorted by tag) with `x` put in after the last entry whose tag is not larger.
pub open spec fn insert_by_tag(t: Seq<(u16, Seq<u8>)>, x: (u16, Seq<u8>)) -> Seq<(u16, Seq<u8>)>
    decreases t.len(),
{
    if t.len() == 0 {
        seq![x]
    } else if t.last().0 > x.0 {
        insert_by_tag(t.drop_last(), x).push(t.last())
    } else {
        t.push(x)
    }
}

/// `s` sorted by tag, entries with equal tags in their order (a stable sort).
pub open spec fn sort_by_tag(s: Seq<(u16, Seq<u8>)>) -> Seq<(u16, Seq<u8>)>
    decreases s.len(),
{
    if s.len() == 0 {
        s
    } else {
        insert_by_tag(sort_by_tag(s.drop_last()), s.last())
    }
}

/// All entries' bytes, one after the other.
pub open spec fn joined(s: Seq<(u16, Seq<u8>)>) -> Seq<u8>
    decreases s.len(),
{
    if s.len() == 0 {
        Seq::empty()
    } else {
        joined(s.drop_last()) + s.last().1
    }
}

/// The raw 12 bytes of each entry of `es`, with its tag.
pub open spec fn raw_entries(t: Seq<u8>, es: Seq<Entry>) -> Seq<(u16, Seq<u8>)> {
    es.map_values(|e: Entry| (e.tag, t.subrange(e.value_at - 8, e.value_at + 4)))
}

/// The APP1 segment that records `orientation` in TIFF data `t` (found as
/// `h` says) that has no orientation entry. Nothing inside the data moves:
/// a copy of IFD0 with the new entry (entries sorted by tag) is appended,
/// after a pad byte if the data has odd length, and the header pointed at
/// it; IFD0's link to the next directory is kept.
#[verifier::opaque]
pub open spec fn new_segment(t: Seq<u8>, little: bool, orientation: u16) -> Option<Seq<u8>> {
    let i0 = ifd0(t, little);
    let old = entries(t, i0, little);
    let n = old.len() as int;
    if i0 + 6 + 12 * n > t.len() {
        None
    } else if exists|k: int| 0 <= k < n && old[k].value_at + 4 > t.len() {
        None
    } else {
        let next = t.subrange(i0 + 2 + 12 * n, i0 + 6 + 12 * n);
        let raw = raw_entries(t, old).push((ORIENTATION, orientation_entry(orientation, little)));
        let padded = if t.len() % 2 == 1 {
            t.push(0)
        } else {
            t
        };
        let body = padded.subrange(0, 4) + put(padded.len(), 4, little) + padded.subrange(
            8,
            padded.len() as int,
        ) + put(raw.len(), 2, little) + joined(sort_by_tag(raw)) + next;
        framed(body)
    }
}

/// `body` as an APP1 segment: marker, length and EXIF tag before it;
/// `None` where the length does not fit its two bytes.
pub open spec fn framed(body: Seq<u8>) -> Option<Seq<u8>> {
    let length = body.len() + 8;
    if length > 65535 {
        None
    } else {
        Some(seq![0xffu8, 0xe1u8] + be2(length) + exif_tag() + body)
    }
}

/// For a block without an orientation entry, wholly at hand: the APP1
/// segment recording `orientation`, and the range of the one it replaces.
pub open spec fn with_orientation_spec(d: Seq<u8>, h: Header, orientation: u16) -> Option<((nat, nat), Seq<u8>)> {
    if h.segment_end > d.len() || orientation_spec(d, h) is Some {
        None
    } else {
        match new_segment(tiff(d, h), h.little_endian, orientation) {
            Some(seg) => Some(((h.segment_start, h.segment_end), seg)),
            None => None,
        }
    }
}

/// The camera facts for the info line. The exposure time, aperture and
/// focal length come as the recorded fractions: written out they take
/// floating point.
pub struct Summary {
    /// "taken 2024-05-01 12:30"
    pub taken: Option<String>,
    /// Make and model.
    pub camera: Option<String>,
    /// Exposure time in seconds, as (numerator, denominator); never 0.
    pub exposure: Option<(usize, usize)>,
    /// Aperture as (numerator, denominator).
    pub f_number: Option<(usize, usize)>,
    /// "ISO 200"
    pub iso: Option<String>,
    /// Focal length in mm as (numerator, denominator).
    pub focal_length: Option<(usize, usize)>,
}

fn cut5(s: &[char]) -> (r: Vec<char>)
    ensures
        r@ == cut_bytes(s@, 0, 0, 5),
{
    let mut k: usize = 0;
    let mut used: usize = 0;
    while used < 5 && k < s.len()
        invariant
            k <= s.len(),
            used <= 8,
            cut_bytes(s@, 0, 0, 5) == cut_bytes(s@, k as int, used as nat, 5),
        decreases s.len() - k,
    {
        used = used + text::char_width(s[k]);
        k = k + 1;
    }
    if used == 5 {
        text::slice_chars(s, 0, k)
    } else {
        text::slice_chars(s, 0, s.len())
    }
}

fn space_index(s: &[char]) -> (r: Option<usize>)
    ensures
        match r {
            Some(k) => space_pos(s@) == Some(k as nat) && k < s.len(),
            None => space_pos(s@) is None,
        },
{
    let mut k: usize = 0;
    while k < s.len()
        invariant
            k <= s.len(),
            forall|j: int| 0 <= j < k ==> s@[j] != ' ',
        decreases s.len() - k,
    {
        if s[k] == ' ' {
            proof {
                lemma_space_pos_at(s@, k as int);
            }
            return Some(k);
        }
        k = k + 1;
    }
    proof {
        lemma_space_pos_none(s@);
    }
    None
}

proof fn lemma_space_pos_at(s: Seq<char>, k: int)
    requires
        0 <= k < s.len(),
        s[k] == ' ',
        forall|j: int| 0 <= j < k ==> s[j] != ' ',
    ensures
        space_pos(s) == Some(k as nat),
    decreases k,
{
    if k > 0 {
        lemma_space_pos_at(s.drop_first(), k - 1);
    }
}

proof fn lemma_space_pos_none(s: Seq<char>)
    requires
        forall|j: int| 0 <= j < s.len() ==> s[j] != ' ',
    ensures
        space_pos(s) is None,
    decreases s.len(),
{
    if s.len() > 0 {
        lemma_space_pos_none(s.drop_first());
    }
}

fn taken(date: &[char]) -> (r: Vec<char>)
    ensures
        r@ == taken_line(date@),
{
    let (day, time) = match space_index(date) {
        Some(k) => (text::slice_chars(date, 0, k), text::slice_chars(date, k + 1, date.len())),
        None => (text::slice_chars(date, 0, date.len()), Vec::new()),
    };
    assert(date@.subrange(0, date@.len() as int) =~= date@);
    let ghost sday = match space_pos(date@) {
        Some(k) => date@.subrange(0, k as int),
        None => date@,
    };
    assert(day@ == sday);
    let mut line: Vec<char> = vec!['t', 'a', 'k', 'e', 'n', ' '];
    let ghost start = line@;
    assert(start =~= seq!['t', 'a', 'k', 'e', 'n', ' ']);
    let mut k: usize = 0;
    while k < day.len()
        invariant
            k <= day.len(),
            line@ == start + colons_to_dashes(day@.subrange(0, k as int)),
        decreases day.len() - k,
    {
        let c = if day[k] == ':' {
            '-'
        } else {
            day[k]
        };
        line.push(c);
        k = k + 1;
        assert(colons_to_dashes(day@.subrange(0, k as int)) =~= colons_to_dashes(
            day@.subrange(0, k - 1),
        ).push(c));
    }
    assert(day@.subrange(0, day.len() as int) =~= day@);
    line.push(' ');
    let tail = cut5(&time);
    let line = text::concat(&line, &tail);
    assert(time@ =~= match space_pos(date@) {
        Some(k) => date@.subrange(k as int + 1, date@.len() as int),
        None => Seq::<char>::empty(),
    });
    assert(line@ =~= seq!['t', 'a', 'k', 'e', 'n', ' '] + colons_to_dashes(sday) + seq![' '] + cut_bytes(time@, 0, 0, 5));
    text::trimmed(&line)
}

/// The tags and bytes held.
pub open spec fn items(v: Seq<(u16, Vec<u8>)>) -> Seq<(u16, Seq<u8>)> {
    v.map_values(|p: (u16, Vec<u8>)| (p.0, p.1@))
}

fn put_bytes(v: usize, len: usize, little: bool) -> (r: Vec<u8>)
    requires
        len == 2 || len == 4,
    ensures
        r@ == put(v as nat, len as nat, little),
{
    let b0 = (v % 256) as u8;
    let b1 = ((v / 256) % 256) as u8;
    if len == 2 {
        if little {
            vec![b0, b1]
        } else {
            vec![b1, b0]
        }
    } else {
        let b2 = ((v / 65536) % 256) as u8;
        let b3 = ((v / 16777216) % 256) as u8;
        if little {
            vec![b0, b1, b2, b3]
        } else {
            vec![b3, b2, b1, b0]
        }
    }
}

fn append_bytes(to: &mut Vec<u8>, more: &[u8])
    ensures
        final(to)@ == old(to)@ + more@,
{
    let mut k: usize = 0;
    let ghost start = to@;
    while k < more.len()
        invariant
            k <= more.len(),
            to@ == start + more@.subrange(0, k as int),
        decreases more.len() - k,
    {
        to.push(more[k]);
        k = k + 1;
        assert(to@ =~= start + more@.subrange(0, k as int));
    }
    assert(more@.subrange(0, more.len() as int) =~= more@);
}

/// `body` as an APP1 segment, where its length fits.
fn frame(body: &Vec<u8>) -> (r: Option<Vec<u8>>)
    ensures
        match r {
            Some(seg) => framed(body@) == Some(seg@),
            None => framed(body@) is None,
        },
{
    if body.len() > 65535 - 8 {
        return None;
    }
    let length = body.len() + 8;
    let mut segment: Vec<u8> = vec![0xff, 0xe1, (length / 256) as u8, (length % 256) as u8, 0x45, 0x78, 0x69, 0x66, 0, 0];
    append_bytes(&mut segment, body.as_slice());
    assert(segment@ =~= seq![0xffu8, 0xe1u8] + be2(length as nat) + exif_tag() + body@);
    Some(segment)
}

fn sort_items(raw: Vec<(u16, Vec<u8>)>) -> (r: Vec<(u16, Vec<u8>)>)
    ensures
        items(r@) == sort_by_tag(items(raw@)),
{
    let mut sorted: Vec<(u16, Vec<u8>)> = Vec::new();
    let mut rest = raw;
    let ghost all = items(rest@);
    let ghost mut i: int = 0;
    assert(all.subrange(0, 0) =~= Seq::<(u16, Seq<u8>)>::empty());
    assert(all.subrange(0, all.len() as int) =~= all);
    while rest.len() > 0
        invariant
            0 <= i <= all.len(),
            rest.len() + i == all.len(),
            items(rest@) == all.subrange(i, all.len() as int),
            items(sorted@) == sort_by_tag(all.subrange(0, i)),
        decreases rest.len(),
    {
        let ghost old_rest = rest@;
        let x = rest.remove(0);
        assert(items(old_rest)[0] == all.subrange(i, all.len() as int)[0]);
        assert((x.0, x.1@) == all[i]);
        assert forall|j: int| 0 <= j < rest.len() implies #[trigger] items(rest@)[j] == all.subrange(i + 1, all.len() as int)[j] by {
            assert(rest@[j] == old_rest[j + 1]);
            assert(items(old_rest)[j + 1] == all.subrange(i, all.len() as int)[j + 1]);
        }
        assert(items(rest@) =~= all.subrange(i + 1, all.len() as int));
        let ghost t = items(sorted@);
        let mut j = sorted.len();
        assert(t.subrange(0, j as int) =~= t);
        assert(t.subrange(j as int, t.len() as int) =~= Seq::<(u16, Seq<u8>)>::empty());
        while j > 0 && sorted[j - 1].0 > x.0
            invariant
                j <= sorted.len(),
                t == items(sorted@),
                insert_by_tag(t, (x.0, x.1@)) == insert_by_tag(t.subrange(0, j as int), (x.0, x.1@))
                    + t.subrange(j as int, t.len() as int),
            decreases j,
        {
            let ghost u = t.subrange(0, j as int);
            assert(u.last() == t[j - 1]);
            assert(u.drop_last() =~= t.subrange(0, j - 1));
            assert(t.subrange(j - 1, t.len() as int) =~= seq![u.last()] + t.subrange(
                j as int,
                t.len() as int,
            ));
            j = j - 1;
        }
        proof {
            let u = t.subrange(0, j as int);
            if j == 0 {
                assert(u =~= Seq::<(u16, Seq<u8>)>::empty());
            } else {
                assert(u.last() == t[j - 1]);
            }
        }
        let ghost xv = (x.0, x.1@);
        sorted.insert(j, x);
        assert(items(sorted@) =~= t.subrange(0, j as int).push(xv) + t.subrange(
            j as int,
            t.len() as int,
        ));
        proof {
            let s2 = all.subrange(0, i + 1);
            assert(s2.drop_last() =~= all.subrange(0, i));
            i = i + 1;
        }
    }
    sorted
}

fn orientation_bytes(orientation: u16, little: bool) -> (entry: Vec<u8>)
    ensures
        entry@ == orientation_entry(orientation, little),
{
    let mut entry = put_bytes(ORIENTATION as usize, 2, little);
    append_bytes(&mut entry, put_bytes(3, 2, little).as_slice());
    append_bytes(&mut entry, put_bytes(1, 4, little).as_slice());
    append_bytes(&mut entry, put_bytes(orientation as usize, 2, little).as_slice());
    entry.push(0);
    entry.push(0);
    assert(entry@ =~= orientation_entry(orientation, little));
    entry
}

pub(crate) fn copy_range(d: &[u8], from: usize, to: usize) -> (r: Vec<u8>)
    requires
        from <= to <= d.len(),
    ensures
        r@ == d@.subrange(from as int, to as int),
{
    let mut r: Vec<u8> = Vec::new();
    let mut k = from;
    while k < to
        invariant
            from <= k <= to,
            to <= d.len(),
            r@ == d@.subrange(from as int, k as int),
        decreases to - k,
    {
        r.push(d[k]);
        k = k + 1;
        assert(r@ =~= d@.subrange(from as int, k as int));
    }
    r
}

fn joined_bytes(v: &Vec<(u16, Vec<u8>)>) -> (r: Vec<u8>)
    ensures
        r@ == joined(items(v@)),
{
    let mut r: Vec<u8> = Vec::new();
    let mut k: usize = 0;
    while k < v.len()
        invariant
            k <= v.len(),
            r@ == joined(items(v@).subrange(0, k as int)),
        decreases v.len() - k,
    {
        append_bytes(&mut r, v[k].1.as_slice());
        k = k + 1;
        assert(items(v@).subrange(0, k as int).drop_last() =~= items(v@).subrange(0, k - 1));
    }
    assert(items(v@).subrange(0, v.len() as int) =~= items(v@));
    r
}

proof fn lemma_entries_value_at(t: Seq<u8>, ifd: int, little: bool)
    requires
        0 <= ifd,
        t.len() <= usize::MAX,
    ensures
        entries(t, ifd, little).len() <= 65535,
        forall|j: int|
            0 <= j < entries(t, ifd, little).len() ==> #[trigger] entries(t, ifd, little)[j].value_at
                == ifd + 10 + 12 * j && ifd + 10 + 12 * j <= t.len() && ifd + 10 + 12 * j >= 8,
{
    let es = entries(t, ifd, little);
    assert forall|j: int| 0 <= j < es.len() implies #[trigger] es[j].value_at == ifd + 10 + 12 * j
        && ifd + 10 + 12 * j <= t.len() && ifd + 10 + 12 * j >= 8 by {
        let fit = (t.len() - ifd - 10) / 12 + 1;
        assert(ifd + 10 <= t.len());
        assert(j < fit);
        assert(12 * j + 10 + ifd <= t.len()) by (nonlinear_arith)
            requires
                j < fit,
                fit == (t.len() - ifd - 10) / 12 + 1,
                ifd + 10 <= t.len(),
        ;
        if ifd < 0 {
            assert(read(t, ifd, 2, little) is None);
        }
    }
}

proof fn lemma_nul_pos(b: Seq<u8>, k: int)
    requires
        0 <= k <= b.len(),
        forall|j: int| 0 <= j < k ==> b[j] != 0,
        k == b.len() || b[k] == 0,
    ensures
        nul_pos(b) == k,
    decreases k,
{
    if k > 0 {
        lemma_nul_pos(b.drop_first(), k - 1);
    }
}

/// The EXIF block of a JPEG, which is a small TIFF file.
pub struct Exif<'a> {
    jpeg: &'a [u8],
    /// The whole APP1 segment, marker included.
    segment: Range<usize>,
    /// File offset all TIFF offsets are relative to.
    tiff_start: usize,
    little_endian: bool,
}

impl<'a> Exif<'a> {
    /// The bytes the block was found in.
    pub closed spec fn data(&self) -> Seq<u8> {
        self.jpeg@
    }

    /// Where the block lies in them.
    pub closed spec fn header(&self) -> Header {
        Header {
            segment_start: self.segment.start as nat,
            segment_end: self.segment.end as nat,
            tiff_start: self.tiff_start as nat,
            little_endian: self.little_endian,
        }
    }

    /// What `find` establishes of the block.
    pub closed spec fn wf(&self) -> bool {
        &&& self.tiff_start + 2 <= self.jpeg@.len()
        &&& self.segment.start < self.tiff_start
        &&& addressable(self.jpeg@.len())
    }

    /// The TIFF data.
    pub open spec fn tiff_bytes(&self) -> Seq<u8> {
        tiff(self.data(), self.header())
    }

    /// Is the segment long enough to be read (its length field reaches
    /// past the TIFF header position)? Reading one that is not panics.
    pub fn is_readable(&self) -> (r: bool)
        requires
            self.wf(),
        ensures
            r == readable(self.header()),
    {
        self.tiff_start <= self.segment.end
    }

    /// Can `with_orientation` rewrite the header? Not for a block of
    /// exactly 6 TIFF bytes wholly at hand; trying panics.
    pub fn header_has_room(&self) -> (r: bool)
        requires
            self.wf(),
            readable(self.header()),
        ensures
            r == !(self.header().segment_end <= self.data().len() && self.tiff_bytes().len() == 6),
    {
        !(self.segment.end <= self.jpeg.len() && self.tiff_len() == 6)
    }

    fn tiff_len(&self) -> (n: usize)
        requires
            self.wf(),
            readable(self.header()),
        ensures
            n == self.tiff_bytes().len(),
            self.tiff_start + n <= self.data().len(),
    {
        let end = if self.segment.end < self.jpeg.len() {
            self.segment.end
        } else {
            self.jpeg.len()
        };
        end - self.tiff_start
    }

    fn number(&self, at: usize, len: usize) -> (r: Option<usize>)
        requires
            self.wf(),
            readable(self.header()),
            len == 2 || len == 4,
        ensures
            match r {
                Some(v) => read(self.tiff_bytes(), at as int, len as int, self.header().little_endian) == Some(v as nat),
                None => read(self.tiff_bytes(), at as int, len as int, self.header().little_endian) is None,
            },
    {
        let n = self.tiff_len();
        if at > n || len > n - at {
            return None;
        }
        let base = self.tiff_start + at;
        let ghost t = self.tiff_bytes();
        assert(t[at as int] == self.jpeg@[base as int]);
        assert(t[at + 1] == self.jpeg@[base + 1]);
        let b0 = self.jpeg[base] as usize;
        let b1 = self.jpeg[base + 1] as usize;
        if len == 2 {
            if self.little_endian {
                Some(b0 + 256 * b1)
            } else {
                Some(256 * b0 + b1)
            }
        } else {
            assert(t[at + 2] == self.jpeg@[base + 2]);
            assert(t[at + 3] == self.jpeg@[base + 3]);
            let b2 = self.jpeg[base + 2] as usize;
            let b3 = self.jpeg[base + 3] as usize;
            if self.little_endian {
                Some(b0 + 256 * b1 + 65536 * b2 + 16777216 * b3)
            } else {
                Some(16777216 * b0 + 65536 * b1 + 256 * b2 + b3)
            }
        }
    }

    fn entries(&self, ifd: usize) -> (r: Vec<Entry>)
        requires
            self.wf(),
            readable(self.header()),
        ensures
            r@ == entries(self.tiff_bytes(), ifd as int, self.header().little_endian),
    {
        let ghost t = self.tiff_bytes();
        let ghost little = self.header().little_endian;
        let count = match self.number(ifd, 2) {
            Some(c) => c,
            None => 0,
        };
        let n = self.tiff_len();
        let fit = if ifd > n || n - ifd < 10 {
            0
        } else {
            (n - ifd - 10) / 12 + 1
        };
        let total = if count < fit {
            count
        } else {
            fit
        };
        assert(total == entry_count(t, ifd as int, little));
        let mut r: Vec<Entry> = Vec::new();
        let mut i: usize = 0;
        while i < total
            invariant
                i <= total,
                total == entry_count(t, ifd as int, little),
                total <= fit,
                fit > 0 ==> ifd + 10 <= n && fit == (n - ifd - 10) / 12 + 1,
                n == t.len(),
                t == self.tiff_bytes(),
                little == self.header().little_endian,
                self.wf(),
                readable(self.header()),
                r@ =~= entries(t, ifd as int, little).subrange(0, i as int),
            decreases total - i,
        {
            assert(12 * i + 10 + ifd <= n) by (nonlinear_arith)
                requires
                    i < fit,
                    fit == (n - ifd - 10) / 12 + 1,
                    ifd + 10 <= n,
            ;
            let at = ifd + 2 + 12 * i;
            let tag = match self.number(at, 2) {
                Some(v) => v,
                None => 0,
            };
            let kind = match self.number(at + 2, 2) {
                Some(v) => v,
                None => 0,
            };
            let cnt = match self.number(at + 4, 4) {
                Some(v) => v,
                None => 0,
            };
            let e = Entry { tag: tag as u16, kind: kind as u16, count: cnt, value_at: at + 8 };
            assert(e == entry_at(t, at as int, little));
            r.push(e);
            i = i + 1;
        }
        r
    }

    fn first_tag(es: &Vec<Entry>, tag: u16) -> (r: Option<Entry>)
        ensures
            r == first_tag(es@, tag),
    {
        let mut k: usize = 0;
        assert(es@.subrange(0, es.len() as int) =~= es@);
        while k < es.len()
            invariant
                k <= es.len(),
                first_tag(es@, tag) == first_tag(es@.subrange(k as int, es.len() as int), tag),
            decreases es.len() - k,
        {
            if es[k].tag == tag {
                return Some(es[k]);
            }
            assert(es@.subrange(k as int, es.len() as int).drop_first() =~= es@.subrange(
                k + 1,
                es.len() as int,
            ));
            k = k + 1;
        }
        None
    }

    fn ifd0(&self) -> (r: usize)
        requires
            self.wf(),
            readable(self.header()),
        ensures
            r as int == ifd0(self.tiff_bytes(), self.header().little_endian),
    {
        match self.number(4, 4) {
            Some(v) => v,
            None => 0,
        }
    }

    fn ifd1(&self) -> (r: Option<usize>)
        requires
            self.wf(),
            readable(self.header()),
        ensures
            match r {
                Some(v) => ifd1(self.tiff_bytes(), self.header().little_endian) == Some(v as int),
                None => ifd1(self.tiff_bytes(), self.header().little_endian) is None,
            },
    {
        let i0 = self.ifd0();
        let n = match self.number(i0, 2) {
            Some(n) => n,
            None => return None,
        };
        let at = i0 + 2 + n * 12;
        match self.number(at, 4) {
            Some(v) => if v != 0 {
                Some(v)
            } else {
                None
            },
            None => None,
        }
    }

    fn entry(&self, tag: u16) -> (r: Option<Entry>)
        requires
            self.wf(),
            readable(self.header()),
        ensures
            r == entry(self.tiff_bytes(), tag, self.header().little_endian),
    {
        let main = self.entries(self.ifd0());
        match Self::first_tag(&main, tag) {
            Some(e) => Some(e),
            None => match Self::first_tag(&main, EXIF_IFD) {
                None => None,
                Some(sub) => match self.number(sub.value_at, 4) {
                    None => None,
                    Some(at) => Self::first_tag(&self.entries(at), tag),
                },
            },
        }
    }

    /// File offset of the two orientation bytes, their byte order, the value.
    pub fn orientation(&self) -> (r: Option<(usize, bool, u16)>)
        requires
            self.wf(),
            readable(self.header()),
        ensures
            r == orientation_spec(self.data(), self.header()),
    {
        let e = match self.entry(ORIENTATION) {
            Some(e) => e,
            None => return None,
        };
        let value = match self.number(e.value_at, 2) {
            Some(v) => v,
            None => return None,
        };
        Some((self.tiff_start + e.value_at, self.little_endian, value as u16))
    }

    /// Byte range of the embedded JPEG preview.
    pub fn thumbnail(&self) -> (r: Option<Range<usize>>)
        requires
            self.wf(),
            readable(self.header()),
        ensures
            match r {
                Some(range) => thumbnail_spec(self.data(), self.header()) == Some(
                    (range.start as int, range.end as int),
                ),
                None => thumbnail_spec(self.data(), self.header()) is None,
            },
    {
        let i1 = match self.ifd1() {
            Some(i) => i,
            None => return None,
        };
        let es = self.entries(i1);
        let off = match Self::first_tag(&es, THUMBNAIL_OFFSET) {
            Some(e) => self.number(e.value_at, 4),
            None => None,
        };
        let len = match Self::first_tag(&es, THUMBNAIL_LENGTH) {
            Some(e) => self.number(e.value_at, 4),
            None => None,
        };
        let (off, len) = match (off, len) {
            (Some(o), Some(l)) => (o, l),
            _ => return None,
        };
        if off > self.jpeg.len() - self.tiff_start {
            return None;
        }
        let start = self.tiff_start + off;
        if len > self.jpeg.len() - start || len < 2 {
            return None;
        }
        if self.jpeg[start] == 0xff && self.jpeg[start + 1] == 0xd8 {
            Some(start..start + len)
        } else {
            None
        }
    }

    /// The text of an ASCII (`kind` 2) entry, trimmed; `None` when empty.
    pub fn text(&self, tag: u16) -> (r: Option<String>)
        requires
            self.wf(),
            readable(self.header()),
        ensures
            match r {
                Some(s) => text_spec(self.data(), self.header(), tag) == Some(s@),
                None => text_spec(self.data(), self.header(), tag) is None,
            },
    {
        let ghost t = self.tiff_bytes();
        let e = match self.entry(tag) {
            Some(e) => e,
            None => return None,
        };
        if e.kind != 2 {
            return None;
        }
        let at = if e.count <= 4 {
            e.value_at
        } else {
            match self.number(e.value_at, 4) {
                Some(a) => a,
                None => return None,
            }
        };
        let n = self.tiff_len();
        if at > n || e.count > n - at {
            return None;
        }
        let mut bytes: Vec<u8> = Vec::new();
        let mut k: usize = 0;
        let ghost b = t.subrange(at as int, at + e.count);
        while k < e.count && self.jpeg[self.tiff_start + at + k] != 0
            invariant
                k <= e.count,
                at + e.count <= n,
                n == t.len(),
                t == self.tiff_bytes(),
                self.tiff_start + n <= self.jpeg@.len(),
                self.wf(),
                readable(self.header()),
                b == t.subrange(at as int, at + e.count),
                bytes@ == b.subrange(0, k as int),
                forall|j: int| 0 <= j < k ==> b[j] != 0,
            decreases e.count - k,
        {
            assert(t[at + k] == self.jpeg@[self.tiff_start + at + k]);
            bytes.push(self.jpeg[self.tiff_start + at + k]);
            k = k + 1;
            assert(bytes@ =~= b.subrange(0, k as int));
        }
        proof {
            if k < e.count {
                assert(t[at + k] == self.jpeg@[self.tiff_start + at + k]);
            }
            lemma_nul_pos(b, k as int);
        }
        let decoded = text::from_utf8_lossy(&bytes);
        let chars = text::chars_of(decoded.as_str());
        let trimmed = text::trimmed(&chars);
        if trimmed.len() == 0 {
            None
        } else {
            Some(text::string_of(&trimmed))
        }
    }

    /// Camera facts for the info line, most telling first.
    pub fn summary(&self) -> (r: Summary)
        requires
            self.wf(),
            readable(self.header()),
        ensures
            opt_text(r.taken) == match text_spec(self.data(), self.header(), DATE_TAKEN) {
                Some(date) => Some(taken_line(date)),
                None => None,
            },
            opt_text(r.camera) == camera_line(
                text_spec(self.data(), self.header(), MAKE),
                text_spec(self.data(), self.header(), MODEL),
            ),
            opt_pair(r.exposure) == match rational_spec(self.data(), self.header(), EXPOSURE_TIME) {
                Some((n, q)) => if n != 0 {
                    Some((n, q))
                } else {
                    None
                },
                None => None,
            },
            opt_pair(r.f_number) == rational_spec(self.data(), self.header(), F_NUMBER),
            opt_text(r.iso) == match integer_spec(self.data(), self.header(), ISO) {
                Some(v) => Some(seq!['I', 'S', 'O', ' '] + text::decimal(v)),
                None => None,
            },
            opt_pair(r.focal_length) == rational_spec(self.data(), self.header(), FOCAL_LENGTH),
    {
        let taken = match self.text(DATE_TAKEN) {
            Some(date) => {
                let line = taken(&text::chars_of(date.as_str()));
                Some(text::string_of(&line))
            },
            None => None,
        };
        let camera = match (self.text(MAKE), self.text(MODEL)) {
            (Some(make), Some(model)) => {
                let a = text::chars_of(make.as_str());
                let m = text::chars_of(model.as_str());
                if !text::starts_with(&m, &a) {
                    let mut both = text::concat(&a, &vec![' ']);
                    both = text::concat(&both, &m);
                    Some(text::string_of(&both))
                } else {
                    Some(model)
                }
            },
            (_, Some(model)) => Some(model),
            (make, None) => make,
        };
        let exposure = match self.rational(EXPOSURE_TIME) {
            Some((n, q)) => if n != 0 {
                Some((n, q))
            } else {
                None
            },
            None => None,
        };
        let iso = match self.integer(ISO) {
            Some(v) => {
                let mut line = String::new();
                line.push('I');
                line.push('S');
                line.push('O');
                line.push(' ');
                let digits = text::decimal_string(v);
                let line = line.concat(digits.as_str());
                assert(line@ =~= seq!['I', 'S', 'O', ' '] + text::decimal(v as nat));
                Some(line)
            },
            None => None,
        };
        Summary {
            taken,
            camera,
            exposure,
            f_number: self.rational(F_NUMBER),
            iso,
            focal_length: self.rational(FOCAL_LENGTH),
        }
    }

    fn raw_items(&self, old: &Vec<Entry>, ifd: usize) -> (r: Option<Vec<(u16, Vec<u8>)>>)
        requires
            self.wf(),
            readable(self.header()),
            old@ == entries(self.tiff_bytes(), ifd as int, self.header().little_endian),
        ensures
            match r {
                Some(v) => items(v@) == raw_entries(self.tiff_bytes(), old@) && (forall|k: int|
                    0 <= k < old@.len() ==> old@[k].value_at + 4 <= self.tiff_bytes().len()),
                None => exists|k: int|
                    0 <= k < old@.len() && old@[k].value_at + 4 > self.tiff_bytes().len(),
            },
    {
        let ghost t = self.tiff_bytes();
        let n = self.tiff_len();
        proof {
            lemma_entries_value_at(t, ifd as int, self.header().little_endian);
            assert forall|j: int| 0 <= j < old@.len() implies old@[j].value_at >= 8 by {
                assert(old@[j] == entries(t, ifd as int, self.header().little_endian)[j]);
            }
        }
        let mut raw: Vec<(u16, Vec<u8>)> = Vec::new();
        let mut k: usize = 0;
        assert(t =~= self.jpeg@.subrange(self.tiff_start as int, self.tiff_start + n));
        assert(items(raw@) =~= raw_entries(t, old@).subrange(0, 0));
        while k < old.len()
            invariant
                k <= old.len(),
                n == t.len(),
                t == self.tiff_bytes(),
                self.wf(),
                self.tiff_start + n <= self.jpeg@.len(),
                t == self.jpeg@.subrange(self.tiff_start as int, self.tiff_start + n),
                forall|j: int| 0 <= j < old@.len() ==> old@[j].value_at >= 8,
                forall|j: int| 0 <= j < k ==> old@[j].value_at + 4 <= n,
                items(raw@) == raw_entries(t, old@).subrange(0, k as int),
            decreases old.len() - k,
        {
            let e = old[k];
            if n < 4 || e.value_at > n - 4 {
                assert(old@[k as int].value_at + 4 > t.len());
                return None;
            }
            let start = self.tiff_start + e.value_at - 8;
            let bytes = copy_range(self.jpeg, start, start + 12);
            assert(bytes@ =~= t.subrange(e.value_at - 8, e.value_at + 4));
            let ghost old_raw = raw@;
            let ghost item = (e.tag, bytes@);
            raw.push((e.tag, bytes));
            assert(items(raw@) =~= items(old_raw).push(item));
            assert(raw_entries(t, old@).subrange(0, k + 1) =~= raw_entries(t, old@).subrange(0, k as int).push(item));
            k = k + 1;
        }
        assert(raw_entries(t, old@).subrange(0, old.len() as int) =~= raw_entries(t, old@));
        Some(raw)
    }

    /// For a block that has no orientation entry: the APP1 segment to put in
    /// place of the old one (whose range comes along), recording `orientation`.
    ///
    /// Nothing inside the block moves, so maker notes and other data with
    /// absolute offsets stay valid: a copy of IFD0 with the extra entry is
    /// appended and the header pointed at it; the old directory stays behind
    /// as a few dead bytes. A block of exactly 6 TIFF bytes, wholly at hand,
    /// is left out (the header rewrite would not fit).
    /// For a block that has no orientation entry: the APP1 segment to put in
    /// place of the old one (whose range comes along), recording `orientation`.
    ///
    /// Nothing inside the block moves, so maker notes and other data with
    /// absolute offsets stay valid: a copy of IFD0 with the extra entry is
    /// appended and the header pointed at it; the old directory stays behind
    /// as a few dead bytes. A block of exactly 6 TIFF bytes, wholly at hand,
    /// is left out (the header rewrite would not fit).
    pub fn with_orientation(&self, orientation: u16) -> (r: Option<(Range<usize>, Vec<u8>)>)
        requires
            self.wf(),
            readable(self.header()),
            !(self.header().segment_end <= self.data().len() && self.tiff_bytes().len() == 6),
        ensures
            match r {
                Some((range, segment)) => with_orientation_spec(
                    self.data(),
                    self.header(),
                    orientation,
                ) == Some(((range.start as nat, range.end as nat), segment@)),
                None => with_orientation_spec(self.data(), self.header(), orientation) is None,
            },
    {
        if self.segment.end > self.jpeg.len() {
            return None;
        }
        if self.orientation().is_some() {
            return None;
        }
        match self.segment_with(orientation) {
            Some(segment) => Some((self.segment.start..self.segment.end, segment)),
            None => None,
        }
    }

    #[verifier::rlimit(60)]
    #[verifier::spinoff_prover]
    fn segment_with(&self, orientation: u16) -> (r: Option<Vec<u8>>)
        requires
            self.wf(),
            readable(self.header()),
            self.header().segment_end <= self.data().len(),
            self.tiff_bytes().len() != 6,
        ensures
            match r {
                Some(seg) => new_segment(self.tiff_bytes(), self.header().little_endian, orientation) == Some(seg@),
                None => new_segment(self.tiff_bytes(), self.header().little_endian, orientation) is None,
            },
    {
        reveal(new_segment);
        let little = self.little_endian;
        let ghost t = self.tiff_bytes();
        let n = self.tiff_len();
        let i0 = self.ifd0();
        let old = self.entries(i0);
        let count = old.len();
        proof {
            lemma_entries_value_at(t, i0 as int, little);
        }
        if i0 > n || n - i0 < 6 || count > (n - i0 - 6) / 12 {
            proof {
                if i0 <= n && n - i0 >= 6 {
                    assert(i0 + 6 + 12 * count > n) by (nonlinear_arith)
                        requires
                            count > (n - i0 - 6) / 12,
                            n >= i0 + 6,
                    ;
                }
            }
            return None;
        }
        assert(i0 + 6 + 12 * count <= n) by (nonlinear_arith)
            requires
                count <= (n - i0 - 6) / 12,
                n >= i0 + 6,
        ;
        let mut raw = match self.raw_items(&old, i0) {
            Some(raw) => raw,
            None => return None,
        };
        let entry = orientation_bytes(orientation, little);
        raw.push((ORIENTATION, entry));
        let ghost spec_raw = raw_entries(t, old@).push((ORIENTATION, orientation_entry(orientation, little)));
        assert(items(raw@) =~= spec_raw);
        let raw_len = raw.len();
        let sorted = sort_items(raw);
        let at = self.tiff_start + i0 + 2 + 12 * count;
        let next = copy_range(self.jpeg, at, at + 4);
        assert(next@ =~= t.subrange(i0 + 2 + 12 * count, i0 + 6 + 12 * count));
        let body = self.rebuilt(little, raw_len, &sorted, &next);
        frame(&body)
    }

    /// The TIFF data, padded to even length, pointed at a new IFD0 made of
    /// `raw_len` and `sorted` entries and `next`, appended.
    fn rebuilt(&self, little: bool, raw_len: usize, sorted: &Vec<(u16, Vec<u8>)>, next: &Vec<u8>) -> (body: Vec<u8>)
        requires
            self.wf(),
            readable(self.header()),
            self.tiff_bytes().len() >= 7,
            raw_len <= 0x10000,
        ensures
            body@ == ({
                let t = self.tiff_bytes();
                let padded = if t.len() % 2 == 1 {
                    t.push(0)
                } else {
                    t
                };
                padded.subrange(0, 4) + put(padded.len(), 4, little) + padded.subrange(
                    8,
                    padded.len() as int,
                ) + put(raw_len as nat, 2, little) + joined(items(sorted@)) + next@
            }),
    {
        let ghost t = self.tiff_bytes();
        let n = self.tiff_len();
        let mut padded = copy_range(self.jpeg, self.tiff_start, self.tiff_start + n);
        assert(padded@ =~= t);
        if n % 2 == 1 {
            padded.push(0);
        }
        let mut body: Vec<u8> = Vec::new();
        body.push(padded[0]);
        body.push(padded[1]);
        body.push(padded[2]);
        body.push(padded[3]);
        append_bytes(&mut body, put_bytes(padded.len(), 4, little).as_slice());
        let mut k: usize = 8;
        let ghost head = body@;
        assert(head =~= padded@.subrange(0, 4) + put(padded@.len(), 4, little));
        while k < padded.len()
            invariant
                8 <= k <= padded.len(),
                body@ == head + padded@.subrange(8, k as int),
            decreases padded.len() - k,
        {
            body.push(padded[k]);
            k = k + 1;
            assert(body@ =~= head + padded@.subrange(8, k as int));
        }
        append_bytes(&mut body, put_bytes(raw_len, 2, little).as_slice());
        append_bytes(&mut body, joined_bytes(sorted).as_slice());
        append_bytes(&mut body, next.as_slice());
        body
    }

    /// The number of a SHORT (3) or LONG (4) entry.
    pub fn integer(&self, tag: u16) -> (r: Option<usize>)
        requires
            self.wf(),
            readable(self.header()),
        ensures
            match r {
                Some(v) => integer_spec(self.data(), self.header(), tag) == Some(v as nat),
                None => integer_spec(self.data(), self.header(), tag) is None,
            },
    {
        let e = match self.entry(tag) {
            Some(e) => e,
            None => return None,
        };
        if e.kind == 3 {
            self.number(e.value_at, 2)
        } else if e.kind == 4 {
            self.number(e.value_at, 4)
        } else {
            None
        }
    }

    /// (numerator, denominator) of a RATIONAL (5) entry.
    pub fn rational(&self, tag: u16) -> (r: Option<(usize, usize)>)
        requires
            self.wf(),
            readable(self.header()),
        ensures
            match r {
                Some((n, q)) => rational_spec(self.data(), self.header(), tag) == Some(
                    (n as nat, q as nat),
                ),
                None => rational_spec(self.data(), self.header(), tag) is None,
            },
    {
        let e = match self.entry(tag) {
            Some(e) => e,
            None => return None,
        };
        if e.kind != 5 {
            return None;
        }
        let at = match self.number(e.value_at, 4) {
            Some(a) => a,
            None => return None,
        };
        if at > self.tiff_len() {
            return None;
        }
        match (self.number(at, 4), self.number(at + 4, 4)) {
            (Some(n), Some(q)) => if q != 0 {
                Some((n, q))
            } else {
                None
            },
            _ => None,
        }
    }

    /// `jpeg` may be just the beginning of the file, as long as it holds the block.
    pub fn find(jpeg: &'a [u8]) -> (r: Option<Self>)
        requires
            addressable(jpeg@.len()),
        ensures
            match r {
                Some(e) => e.data() == jpeg@ && find_spec(jpeg@) == Some(e.header()) && e.wf(),
                None => find_spec(jpeg@) is None,
            },
    {
        if jpeg.len() < 2 || jpeg[0] != 0xff || jpeg[1] != 0xd8 {
            return None;
        }
        let mut pos: usize = 2;
        loop
            invariant
                2 <= pos,
                addressable(jpeg@.len()),
                find_spec(jpeg@) == find_from(jpeg@, pos as int),
            decreases jpeg.len() - pos,
        {
            if pos > jpeg.len() || jpeg.len() - pos < 4 {
                return None;
            }
            let (m0, m1, m2, m3) = (jpeg[pos], jpeg[pos + 1], jpeg[pos + 2], jpeg[pos + 3]);
            if m0 != 0xff || m1 == 0xda || m1 == 0xd9 {
                return None;
            }
            let length = (m2 as usize) * 256 + (m3 as usize);
            if m1 == 0xe1 {
                if jpeg.len() - pos < 10 {
                    return None;
                }
                let is_exif = jpeg[pos + 4] == 0x45 && jpeg[pos + 5] == 0x78 && jpeg[pos + 6]
                    == 0x69 && jpeg[pos + 7] == 0x66 && jpeg[pos + 8] == 0 && jpeg[pos + 9] == 0;
                assert(is_exif == (jpeg@.subrange(pos + 4, pos + 10) == exif_tag())) by {
                    if is_exif {
                        assert(jpeg@.subrange(pos + 4, pos + 10) =~= exif_tag());
                    }
                    if jpeg@.subrange(pos + 4, pos + 10) == exif_tag() {
                        assert(jpeg@.subrange(pos + 4, pos + 10)[0] == exif_tag()[0]);
                        assert(jpeg@.subrange(pos + 4, pos + 10)[1] == exif_tag()[1]);
                        assert(jpeg@.subrange(pos + 4, pos + 10)[2] == exif_tag()[2]);
                        assert(jpeg@.subrange(pos + 4, pos + 10)[3] == exif_tag()[3]);
                        assert(jpeg@.subrange(pos + 4, pos + 10)[4] == exif_tag()[4]);
                        assert(jpeg@.subrange(pos + 4, pos + 10)[5] == exif_tag()[5]);
                    }
                }
                if is_exif {
                    if jpeg.len() - pos < 12 {
                        return None;
                    }
                    let (b0, b1) = (jpeg[pos + 10], jpeg[pos + 11]);
                    let little_endian = if b0 == 0x49 && b1 == 0x49 {
                        true
                    } else if b0 == 0x4d && b1 == 0x4d {
                        false
                    } else {
                        return None;
                    };
                    let end = pos + 2 + length;
                    assert(be16(jpeg@, pos + 2) == length);
                    return Some(Exif { jpeg, segment: pos..end, tiff_start: pos + 10, little_endian });
                }
            }
            if length > jpeg.len() - pos - 2 || jpeg.len() - (pos + 2 + length) < 4 {
                proof {
                    let end = pos + 2 + length;
                    if end + 4 <= jpeg@.len() {
                        assert(false);
                    }
                }
                return None;
            }
            pos = pos + 2 + length;
        }
    }
}


/// The APP1 segment for a JPEG without any EXIF data: a big-endian TIFF
/// whose IFD0 holds the one orientation entry.
pub open spec fn minimal_segment_spec(orientation: u16) -> Seq<u8> {
    seq![
        0xffu8, 0xe1, 0, 34,
        0x45, 0x78, 0x69, 0x66, 0, 0,
        0x4d, 0x4d, 0, 0x2a, 0, 0, 0, 8, 0, 1,
        0x01, 0x12, 0, 3, 0, 0, 0, 1,
    ] + be2(orientation as nat) + seq![0u8, 0, 0, 0, 0, 0]
}

/// A minimal APP1 segment for a JPEG without any EXIF data.
pub fn minimal_segment(orientation: u16) -> (segment: Vec<u8>)
    ensures
        segment@ == minimal_segment_spec(orientation),
{
    let mut segment: Vec<u8> = vec![
        0xff, 0xe1, 0, 34,
        0x45, 0x78, 0x69, 0x66, 0, 0,
        0x4d, 0x4d, 0, 0x2a, 0, 0, 0, 8, 0, 1,
        0x01, 0x12, 0, 3, 0, 0, 0, 1,
    ];
    segment.push((orientation / 256) as u8);
    segment.push((orientation % 256) as u8);
    let mut k: usize = 0;
    while k < 6
        invariant
            k <= 6,
            segment@ == seq![
                0xffu8, 0xe1, 0, 34,
                0x45, 0x78, 0x69, 0x66, 0, 0,
                0x4d, 0x4d, 0, 0x2a, 0, 0, 0, 8, 0, 1,
                0x01, 0x12, 0, 3, 0, 0, 0, 1,
            ] + be2(orientation as nat) + Seq::new(k as nat, |i: int| 0u8),
        decreases 6 - k,
    {
        segment.push(0);
        k = k + 1;
        assert(Seq::new(k as nat, |i: int| 0u8) =~= Seq::new((k - 1) as nat, |i: int| 0u8).push(0));
    }
    assert(Seq::new(6, |i: int| 0u8) =~= seq![0u8, 0, 0, 0, 0, 0]);
    segment
}

/// One quarter turn clockwise of an EXIF orientation. The mirrored
/// orientations cycle among themselves; anything unknown becomes 6.
pub open spec fn turn_once(o: u16) -> u16 {
    if o == 6 {
        3
    } else if o == 3 {
        8
    } else if o == 8 {
        1
    } else if o == 2 {
        7
    } else if o == 7 {
        4
    } else if o == 4 {
        5
    } else if o == 5 {
        2
    } else {
        6
    }
}

/// `k` quarter turns of `o`.
pub open spec fn turns(o: u16, k: nat) -> u16
    decreases k,
{
    if k == 0 {
        o
    } else {
        turn_once(turns(o, (k - 1) as nat))
    }
}

/// The EXIF orientation that shows an image `quarters` further clockwise.
pub open spec fn turned_spec(o: u16, quarters: u8) -> u16 {
    turns(o, (quarters % 4) as nat)
}

/// The EXIF orientation that shows an image `quarters` further clockwise.
pub fn turned(orientation: u16, quarters: u8) -> (r: u16)
    ensures
        r == turned_spec(orientation, quarters),
{
    let steps = quarters % 4;
    let mut o = orientation;
    let mut k: u8 = 0;
    while k < steps
        invariant
            k <= steps,
            steps == quarters % 4,
            o == turns(orientation, k as nat),
        decreases steps - k,
    {
        o = if o == 6 {
            3
        } else if o == 3 {
            8
        } else if o == 8 {
            1
        } else if o == 2 {
            7
        } else if o == 7 {
            4
        } else if o == 4 {
            5
        } else if o == 5 {
            2
        } else {
            6
        };
        k = k + 1;
    }
    o
}

/// Does this orientation swap width and height?
pub open spec fn sideways(o: u16) -> bool {
    5 <= o <= 8
}

/// Does this orientation swap width and height?
pub fn is_sideways(orientation: u16) -> (r: bool)
    ensures
        r == sideways(orientation),
{
    5 <= orientation && orientation <= 8
}

/// A valid EXIF orientation.
pub open spec fn valid_orientation(o: u16) -> bool {
    1 <= o <= 8
}

proof fn lemma_turns_add(o: u16, a: nat, b: nat)
    ensures
        turns(turns(o, a), b) == turns(o, a + b),
    decreases b,
{
    if b > 0 {
        lemma_turns_add(o, a, (b - 1) as nat);
    }
}

proof fn lemma_four_turns(o: u16)
    requires
        valid_orientation(o),
    ensures
        turns(o, 4) == o,
{
    reveal_with_fuel(turns, 5);
}

proof fn lemma_turns_mod(o: u16, k: nat)
    requires
        valid_orientation(o),
    ensures
        turns(o, k) == turns(o, k % 4),
    decreases k,
{
    if k >= 4 {
        lemma_turns_mod(o, (k - 4) as nat);
        lemma_turns_add(o, 4, (k - 4) as nat);
        lemma_four_turns(o);
    }
}

/// Turning a valid orientation by `a` and then by `b` quarters is turning it
/// by `a + b`: four quarter turns come back to the start.
pub proof fn turned_composes(o: u16, a: u8, b: u8)
    requires
        valid_orientation(o),
    ensures
        turned_spec(turned_spec(o, a), b) == turns(o, ((a as nat) + (b as nat)) % 4),
{
    lemma_turns_add(o, (a % 4) as nat, (b % 4) as nat);
    lemma_turns_mod(o, (a % 4) as nat + (b % 4) as nat);
    assert(((a % 4) as nat + (b % 4) as nat) % 4 == ((a as nat) + (b as nat)) % 4);
}

/// A turn keeps a valid orientation valid, keeps a mirrored one mirrored and
/// a plain one plain, and a quarter turn swaps width and height.
pub proof fn turning_keeps_kind(o: u16, quarters: u8)
    requires
        valid_orientation(o),
    ensures
        valid_orientation(turned_spec(o, quarters)),
        (o == 2 || o == 4 || o == 5 || o == 7) == (turned_spec(o, quarters) == 2 || turned_spec(o, quarters) == 4
            || turned_spec(o, quarters) == 5 || turned_spec(o, quarters) == 7),
        quarters % 2 == 1 ==> sideways(turned_spec(o, quarters)) != sideways(o),
        quarters % 2 == 0 ==> sideways(turned_spec(o, quarters)) == sideways(o),
{
    reveal_with_fuel(turns, 4);
}


/// A change to a file's bytes.
#[derive(Debug, PartialEq, Eq)]
pub enum Edit {
    /// Write `bytes` at `offset`, over what is there.
    Overwrite { offset: usize, bytes: Vec<u8> },
    /// Put `bytes` in place of the bytes `start..end` (`start == end`:
    /// insert them there).
    Splice { start: usize, end: usize, bytes: Vec<u8> },
}

/// `v` as two bytes, little- or big-endian.
pub open spec fn u16_bytes(v: u16, little_endian: bool) -> Seq<u8> {
    if little_endian {
        seq![(v % 256) as u8, (v / 256) as u8]
    } else {
        seq![(v / 256) as u8, (v % 256) as u8]
    }
}

/// Where a new EXIF block goes in a JPEG that has none: after a JFIF
/// header where there is one, else right after the start marker.
pub open spec fn insert_at(head: Seq<u8>) -> nat {
    if head.len() >= 6 && head[2] == 0xff && head[3] == 0xe0 {
        4 + be16(head, 4)
    } else {
        2
    }
}

/// Can the rotation of a JPEG starting with `head` be worked out without
/// reading past its EXIF block: one that reaches its own TIFF header, and
/// that, lacking an orientation, is not wholly at hand with exactly six
/// TIFF bytes?
pub open spec fn rotation_readable(head: Seq<u8>) -> bool {
    match find_spec(head) {
        None => true,
        Some(h) => readable(h) && (orientation_spec(head, h) is None ==> !(h.segment_end <= head.len() && tiff(
            head,
            h,
        ).len() == 6)),
    }
}

impl<'a> Exif<'a> {
    /// Can the rotation of a JPEG starting with `head` be worked out?
    pub fn rotation_readable(head: &[u8]) -> (r: bool)
        requires
            addressable(head@.len()),
        ensures
            r == rotation_readable(head@),
    {
        match Exif::find(head) {
            None => true,
            Some(exif) => {
                if !exif.is_readable() {
                    return false;
                }
                if exif.orientation().is_some() {
                    return true;
                }
                exif.header_has_room()
            },
        }
    }
}

/// How to rotate the JPEG at `path`, whose first bytes are `head`, by
/// `quarters` clockwise, changing nothing but its EXIF orientation: write
/// the new orientation over the old; without one, grow the EXIF block by a
/// directory that records it; without an EXIF block, insert a minimal one.
pub fn rotation_edit(path: &str, head: &[u8], quarters: u8) -> (r: Result<Edit, String>)
    requires
        addressable(head@.len()),
        rotation_readable(head@),
    ensures
        !(head.len() >= 2 && head[0] == 0xff && head[1] == 0xd8) ==> (r matches Err(e) && e@ == path@
            + ": only JPEG files can be rotated"@),
        head.len() >= 2 && head[0] == 0xff && head[1] == 0xd8 ==> match find_spec(head@) {
            None => r matches Ok(Edit::Splice { start, end, bytes }) && start == insert_at(head@) && end
                == start && bytes@ == minimal_segment_spec(turned_spec(1, quarters)),
            Some(h) => match orientation_spec(head@, h) {
                Some((offset, little_endian, value)) => r matches Ok(Edit::Overwrite { offset: o, bytes })
                    && o == offset && bytes@ == u16_bytes(turned_spec(value, quarters), little_endian),
                None => match with_orientation_spec(head@, h, turned_spec(1, quarters)) {
                    Some(((s, e), segment)) => r matches Ok(Edit::Splice { start, end, bytes }) && start == s
                        && end == e && bytes@ == segment,
                    None => r matches Err(e) && e@ == path@ + ": no room for an orientation in its EXIF data"@,
                },
            },
        },
{
    if !(head.len() >= 2 && head[0] == 0xff && head[1] == 0xd8) {
        return Err(text::cat(path, ": only JPEG files can be rotated"));
    }
    let exif = match Exif::find(head) {
        Some(exif) => exif,
        None => {
            let at: usize = if head.len() >= 6 && head[2] == 0xff && head[3] == 0xe0 {
                4 + 256 * (head[4] as usize) + (head[5] as usize)
            } else {
                2
            };
            return Ok(Edit::Splice { start: at, end: at, bytes: minimal_segment(turned(1, quarters)) });
        },
    };
    match exif.orientation() {
        Some((offset, little_endian, value)) => {
            let new = turned(value, quarters);
            let low = (new % 256) as u8;
            let high = (new / 256) as u8;
            let bytes = if little_endian {
                vec![low, high]
            } else {
                vec![high, low]
            };
            assert(bytes@ =~= u16_bytes(new, little_endian));
            Ok(Edit::Overwrite { offset, bytes })
        },
        None => match exif.with_orientation(turned(1, quarters)) {
            Some((range, segment)) => Ok(Edit::Splice { start: range.start, end: range.end, bytes: segment }),
            None => Err(text::cat(path, ": no room for an orientation in its EXIF data")),
        },
    }
}


/// The rebuilt EXIF block leaves the data where it was: it is asked for
/// only where the block is wholly at hand and records no orientation; it
/// replaces exactly the old block; it is an APP1 segment whose length field
/// gives its length, tagged `Exif`; and every byte of the old TIFF data
/// but the pointer to the first directory (bytes 4 to 7) stands at the same
/// place after the tag. (A block of exactly six TIFF bytes, which
/// `with_orientation` refuses to take, is left out.)
pub proof fn rebuilt_segment_keeps_the_data(d: Seq<u8>, h: Header, orientation: u16)
    requires
        with_orientation_spec(d, h, orientation) is Some,
        tiff(d, h).len() != 6,
    ensures
        ({
            let ((start, end), seg) = with_orientation_spec(d, h, orientation)->0;
            let t = tiff(d, h);
            &&& h.segment_end <= d.len()
            &&& orientation_spec(d, h) is None
            &&& start == h.segment_start && end == h.segment_end
            &&& t.len() >= 7
            &&& seg.len() >= 10 + t.len()
            &&& seg[0] == 0xff && seg[1] == 0xe1
            &&& be16(seg, 2) == seg.len() - 2
            &&& seg.subrange(4, 10) == exif_tag()
            &&& forall|i: int| 0 <= i < t.len() && !(4 <= i < 8) ==> seg[10 + i] == t[i]
        }),
{
    reveal(new_segment);
    let t = tiff(d, h);
    let little = h.little_endian;
    let seg = new_segment(t, little, orientation)->0;
    let i0 = ifd0(t, little);
    let old = entries(t, i0, little);
    let n = old.len() as int;
    let next = t.subrange(i0 + 2 + 12 * n, i0 + 6 + 12 * n);
    let raw = raw_entries(t, old).push((ORIENTATION, orientation_entry(orientation, little)));
    let padded = if t.len() % 2 == 1 {
        t.push(0)
    } else {
        t
    };
    let head = padded.subrange(0, 4) + put(padded.len(), 4, little);
    let body = head + padded.subrange(8, padded.len() as int) + put(raw.len(), 2, little) + joined(
        sort_by_tag(raw),
    ) + next;
    assert(t.len() >= 7) by {
        assert(i0 + 6 + 12 * n <= t.len());
        assert(i0 >= 0);
    }
    assert(padded.len() >= 8);
    let length = body.len() + 8;
    assert(length <= 65535);
    assert(seg == seq![0xffu8, 0xe1u8] + be2(length) + exif_tag() + body);
    assert(head.len() == 8);
    assert(seg.len() == body.len() + 10);
    assert(((length / 256) % 256) * 256 + length % 256 == length) by (nonlinear_arith)
        requires
            length <= 65535,
    ;
    assert(seg[2] == ((length / 256) % 256) as u8);
    assert(seg[3] == (length % 256) as u8);
    assert(seg.subrange(4, 10) =~= exif_tag());
    assert forall|i: int| 0 <= i < t.len() && !(4 <= i < 8) implies seg[10 + i] == t[i] by {
        assert(seg[10 + i] == body[i]);
        if i < 4 {
            assert(body[i] == head[i]);
            assert(head[i] == padded[i]);
        } else {
            assert(body[i] == padded.subrange(8, padded.len() as int)[i - 8]);
        }
    }
}


proof fn lemma_read_put(v: nat, len: nat, little: bool)
    requires
        len == 2 || len == 4,
        len == 2 ==> v < 0x10000,
        len == 4 ==> v < 0x1_0000_0000,
    ensures
        put(v, len, little).len() == len,
        read(put(v, len, little), 0, len as int, little) == Some(v),
{
    let b = put(v, len, little);
    let b0 = v % 256;
    let b1 = (v / 256) % 256;
    let b2 = (v / 65536) % 256;
    let b3 = (v / 16777216) % 256;
    if len == 2 {
        assert(b0 + 256 * b1 == v) by (nonlinear_arith)
            requires
                v < 0x10000,
                b0 == v % 256,
                b1 == (v / 256) % 256,
        ;
    } else {
        assert(b0 + 256 * b1 + 65536 * b2 + 16777216 * b3 == v) by (nonlinear_arith)
            requires
                v < 0x1_0000_0000,
                b0 == v % 256,
                b1 == (v / 256) % 256,
                b2 == (v / 65536) % 256,
                b3 == (v / 16777216) % 256,
        ;
    }
}

proof fn lemma_read_same(a: Seq<u8>, at: int, b: Seq<u8>, off: int, len: int, little: bool)
    requires
        len == 2 || len == 4,
        0 <= at,
        at + len <= a.len(),
        0 <= off,
        off + len <= b.len(),
        forall|k: int| 0 <= k < len ==> #[trigger] a[at + k] == b[off + k],
    ensures
        read(a, at, len, little) == read(b, off, len, little),
{
    assert(a[at + 0] == b[off + 0]);
    assert(a[at + 1] == b[off + 1]);
    if len == 4 {
        assert(a[at + 2] == b[off + 2]);
        assert(a[at + 3] == b[off + 3]);
    }
}

proof fn lemma_read_small(t: Seq<u8>, at: int, little: bool)
    requires
        read(t, at, 2, little) is Some,
    ensures
        read(t, at, 2, little)->0 < 0x10000,
{
    let x = t[at] as nat;
    let y = t[at + 1] as nat;
    assert(x + 256 * y < 0x10000 && 256 * x + y < 0x10000) by (nonlinear_arith)
        requires
            x < 256,
            y < 256,
    ;
}

proof fn lemma_insert_by_tag(t: Seq<(u16, Seq<u8>)>, x: (u16, Seq<u8>), p: spec_fn((u16, Seq<u8>)) -> bool)
    ensures
        insert_by_tag(t, x).len() == t.len() + 1,
        exists|i: int| 0 <= i < t.len() + 1 && insert_by_tag(t, x)[i] == x,
        (forall|i: int| 0 <= i < t.len() ==> p(#[trigger] t[i])) && p(x) ==> forall|i: int|
            0 <= i < t.len() + 1 ==> p(#[trigger] insert_by_tag(t, x)[i]),
    decreases t.len(),
{
    let r = insert_by_tag(t, x);
    if t.len() == 0 {
        assert(r[0] == x);
    } else if t.last().0 > x.0 {
        let u = t.drop_last();
        lemma_insert_by_tag(u, x, p);
        let i = choose|i: int| 0 <= i < u.len() + 1 && insert_by_tag(u, x)[i] == x;
        assert(r[i] == x);
        if (forall|i: int| 0 <= i < t.len() ==> p(#[trigger] t[i])) && p(x) {
            assert forall|i: int| 0 <= i < u.len() implies p(#[trigger] u[i]) by {
                assert(u[i] == t[i]);
            }
            assert forall|i: int| 0 <= i < t.len() + 1 implies p(#[trigger] r[i]) by {
                if i < t.len() {
                    assert(r[i] == insert_by_tag(u, x)[i]);
                } else {
                    assert(r[i] == t[t.len() - 1]);
                }
            }
        }
    } else {
        assert(r[t.len() as int] == x);
    }
}

proof fn lemma_sort_by_tag(s: Seq<(u16, Seq<u8>)>, p: spec_fn((u16, Seq<u8>)) -> bool)
    ensures
        sort_by_tag(s).len() == s.len(),
        (forall|i: int| 0 <= i < s.len() ==> p(#[trigger] s[i])) ==> forall|i: int|
            0 <= i < s.len() ==> p(#[trigger] sort_by_tag(s)[i]),
    decreases s.len(),
{
    if s.len() > 0 {
        let u = s.drop_last();
        lemma_sort_by_tag(u, p);
        lemma_insert_by_tag(sort_by_tag(u), s.last(), p);
        if forall|i: int| 0 <= i < s.len() ==> p(#[trigger] s[i]) {
            assert forall|i: int| 0 <= i < u.len() implies p(#[trigger] u[i]) by {
                assert(u[i] == s[i]);
            }
            assert(p(s[s.len() - 1]));
        }
    }
}

proof fn lemma_joined_at(s: Seq<(u16, Seq<u8>)>)
    requires
        forall|i: int| 0 <= i < s.len() ==> (#[trigger] s[i]).1.len() == 12,
    ensures
        joined(s).len() == 12 * s.len(),
        forall|k: int, m: int| 0 <= k < s.len() && 0 <= m < 12 ==> joined(s)[12 * k + m] == s[k].1[m],
    decreases s.len(),
{
    if s.len() > 0 {
        let u = s.drop_last();
        assert forall|i: int| 0 <= i < u.len() implies (#[trigger] u[i]).1.len() == 12 by {
            assert(u[i] == s[i]);
        }
        lemma_joined_at(u);
        assert(s.last().1.len() == 12);
        assert forall|k: int, m: int| 0 <= k < s.len() && 0 <= m < 12 implies joined(s)[12 * k + m]
            == s[k].1[m] by {
            if k < u.len() {
                assert(12 * k + m < 12 * u.len()) by (nonlinear_arith)
                    requires
                        k < u.len(),
                        m < 12,
                ;
                assert(u[k] == s[k]);
            } else {
                assert(k == u.len());
            }
        }
    }
}

proof fn lemma_first_tag(es: Seq<Entry>, tag: u16)
    ensures
        match first_tag(es, tag) {
            None => forall|k: int| 0 <= k < es.len() ==> (#[trigger] es[k]).tag != tag,
            Some(e) => e.tag == tag && exists|j: int| 0 <= j < es.len() && es[j] == e,
        },
    decreases es.len(),
{
    if es.len() > 0 {
        let u = es.drop_first();
        lemma_first_tag(u, tag);
        if es[0].tag != tag {
            match first_tag(u, tag) {
                None => {
                    assert forall|k: int| 0 <= k < es.len() implies (#[trigger] es[k]).tag != tag by {
                        if k > 0 {
                            assert(es[k] == u[k - 1]);
                        }
                    }
                },
                Some(e) => {
                    let j = choose|j: int| 0 <= j < u.len() && u[j] == e;
                    assert(es[j + 1] == e);
                },
            }
        } else {
            assert(es[0] == es[0]);
        }
    }
}

/// `d` with the bytes from `start` to `end` replaced by `seg`.
pub open spec fn spliced(d: Seq<u8>, start: nat, end: nat, seg: Seq<u8>) -> Seq<u8> {
    d.subrange(0, start as int) + seg + d.subrange(end as int, d.len() as int)
}

proof fn lemma_found(d: Seq<u8>, pos: int)
    requires
        find_from(d, pos) is Some,
    ensures
        ({
            let h = find_from(d, pos)->0;
            let s = h.segment_start as int;
            &&& 0 <= pos <= s
            &&& s + 12 <= d.len()
            &&& d[s] == 0xff && d[s + 1] == 0xe1
            &&& d.subrange(s + 4, s + 10) == exif_tag()
            &&& h.tiff_start == s + 10
            &&& h.segment_end == s + 2 + be16(d, s + 2)
            &&& h.little_endian == (d[s + 10] == 0x49 && d[s + 11] == 0x49)
        }),
    decreases d.len() - pos,
{
    let end = pos + 2 + be16(d, pos + 2);
    if d[pos + 1] == 0xe1 && (pos + 10 > d.len() || d.subrange(pos + 4, pos + 10) == exif_tag()) {
    } else {
        lemma_found(d, end);
    }
}

proof fn lemma_walk(d: Seq<u8>, d2: Seq<u8>, pos: int, seg: Seq<u8>)
    requires
        find_from(d, pos) is Some,
        d2.len() >= d.len(),
        ({
            let s = find_from(d, pos)->0.segment_start as int;
            &&& s + seg.len() <= d2.len()
            &&& forall|i: int| 0 <= i < s ==> #[trigger] d2[i] == d[i]
            &&& forall|i: int| 0 <= i < seg.len() ==> #[trigger] d2[s + i] == seg[i]
        }),
        seg.len() >= 12,
        seg[0] == 0xff && seg[1] == 0xe1,
        be16(seg, 2) == seg.len() - 2,
        seg.subrange(4, 10) == exif_tag(),
        seg[10] == d[find_from(d, pos)->0.segment_start + 10int],
        seg[11] == d[find_from(d, pos)->0.segment_start + 11int],
    ensures
        ({
            let h = find_from(d, pos)->0;
            find_from(d2, pos) == Some(
                Header {
                    segment_start: h.segment_start,
                    segment_end: h.segment_start + seg.len(),
                    tiff_start: h.tiff_start,
                    little_endian: h.little_endian,
                },
            )
        }),
    decreases d.len() - pos,
{
    lemma_found(d, pos);
    let h = find_from(d, pos)->0;
    let s = h.segment_start as int;
    if pos == s {
        assert(d2[pos + 0] == seg[0]);
        assert(d2[pos + 1] == seg[1]);
        assert(d2[pos + 2] == seg[2]);
        assert(d2[pos + 3] == seg[3]);
        assert(d2[pos + 10] == seg[10]);
        assert(d2[pos + 11] == seg[11]);
        assert(d2.subrange(pos + 4, pos + 10) =~= seg.subrange(4, 10)) by {
            assert forall|k: int| 0 <= k < 6 implies #[trigger] d2.subrange(pos + 4, pos + 10)[k]
                == seg.subrange(4, 10)[k] by {
                assert(d2[pos + (4 + k)] == seg[4 + k]);
            }
        }
    } else {
        let end = pos + 2 + be16(d, pos + 2);
        assert(!(d[pos + 1] == 0xe1 && (pos + 10 > d.len() || d.subrange(pos + 4, pos + 10)
            == exif_tag())));
        lemma_found(d, end);
        assert(find_from(d, end) == Some(h));
        assert(end <= s);
        assert(d[s + 0] == 0xff && d[s + 1] == 0xe1);
        assert(pos + 4 <= s);
        assert(d2[pos] == d[pos]);
        assert(d2[pos + 1] == d[pos + 1]);
        assert(d2[pos + 2] == d[pos + 2]);
        assert(d2[pos + 3] == d[pos + 3]);
        assert(be16(d2, pos + 2) == be16(d, pos + 2));
        if d[pos + 1] == 0xe1 {
            assert(pos + 10 <= d2.len());
            if pos + 10 <= s {
                assert(d2.subrange(pos + 4, pos + 10) =~= d.subrange(pos + 4, pos + 10)) by {
                    assert forall|k: int| 0 <= k < 6 implies #[trigger] d2.subrange(pos + 4, pos + 10)[k]
                        == d.subrange(pos + 4, pos + 10)[k] by {
                        assert(d2[pos + 4 + k] == d[pos + 4 + k]);
                    }
                }
            } else {
                assert(d2[s + 0] == seg[0]);
                assert(d2.subrange(pos + 4, pos + 10)[s - pos - 4] == 0xff);
                assert(exif_tag()[s - pos - 4] != 0xff);
            }
        }
        lemma_walk(d, d2, end, seg);
    }
}

/// A 12-byte entry whose tag field reads as its tag; only `oe` carries
/// the orientation tag.
spec fn well_tagged(item: (u16, Seq<u8>), little: bool, oe: Seq<u8>) -> bool {
    &&& item.1.len() == 12
    &&& read(item.1, 0, 2, little) == Some(item.0 as nat)
    &&& item.0 == ORIENTATION ==> item.1 == oe
}

proof fn lemma_sorted_entries(t: Seq<u8>, little: bool, orientation: u16)
    requires
        t.len() <= 65535,
        first_tag(entries(t, ifd0(t, little), little), ORIENTATION) is None,
        forall|k: int|
            0 <= k < entries(t, ifd0(t, little), little).len() ==> #[trigger] entries(
                t,
                ifd0(t, little),
                little,
            )[k].value_at + 4 <= t.len(),
    ensures
        ({
            let oe = orientation_entry(orientation, little);
            let raw = raw_entries(t, entries(t, ifd0(t, little), little)).push((ORIENTATION, oe));
            let sorted = sort_by_tag(raw);
            &&& sorted.len() == raw.len()
            &&& forall|i: int| 0 <= i < sorted.len() ==> well_tagged(#[trigger] sorted[i], little, oe)
            &&& exists|i: int| 0 <= i < sorted.len() && sorted[i] == (ORIENTATION, oe)
        }),
{
    let i0 = ifd0(t, little);
    let old = entries(t, i0, little);
    let oe = orientation_entry(orientation, little);
    let raw_old = raw_entries(t, old);
    let raw = raw_old.push((ORIENTATION, oe));
    let p = |item: (u16, Seq<u8>)| well_tagged(item, little, oe);
    lemma_entries_value_at(t, i0, little);
    lemma_first_tag(old, ORIENTATION);
    assert forall|k: int| 0 <= k < raw_old.len() implies p(#[trigger] raw_old[k]) by {
        let e = old[k];
        let at = i0 + 2 + 12 * k;
        assert(e.value_at == at + 8);
        assert(e.value_at + 4 <= t.len());
        assert(read(t, at, 2, little) is Some);
        lemma_read_small(t, at, little);
        let bytes = t.subrange(e.value_at - 8, e.value_at + 4);
        assert(raw_old[k] == (e.tag, bytes));
        lemma_read_same(bytes, 0, t, at, 2, little);
        assert(e.tag != ORIENTATION);
    }
    lemma_read_put(ORIENTATION as nat, 2, little);
    assert(oe.len() == 12);
    lemma_read_same(oe, 0, put(ORIENTATION as nat, 2, little), 0, 2, little);
    assert(p((ORIENTATION, oe)));
    assert(raw.drop_last() =~= raw_old);
    lemma_sort_by_tag(raw_old, p);
    lemma_insert_by_tag(sort_by_tag(raw_old), (ORIENTATION, oe), p);
    assert(sort_by_tag(raw) == insert_by_tag(sort_by_tag(raw_old), (ORIENTATION, oe)));
}

/// The orientation entry of TIFF data `body` is found and reads `orientation`.
#[verifier::opaque]
spec fn reads_orientation(body: Seq<u8>, little: bool, orientation: u16) -> bool {
    &&& entry(body, ORIENTATION, little) is Some
    &&& read(body, entry(body, ORIENTATION, little)->0.value_at as int, 2, little) == Some(
        orientation as nat,
    )
}

proof fn lemma_directory_reads(
    body: Seq<u8>,
    sorted: Seq<(u16, Seq<u8>)>,
    pl: int,
    little: bool,
    oe: Seq<u8>,
    orientation: u16,
)
    requires
        8 <= pl,
        1 <= sorted.len() < 0x10000,
        body.len() == pl + 2 + 12 * sorted.len() + 4,
        body.len() <= 65535,
        forall|i: int| 0 <= i < sorted.len() ==> well_tagged(#[trigger] sorted[i], little, oe),
        exists|i: int| 0 <= i < sorted.len() && sorted[i] == (ORIENTATION, oe),
        forall|m: int| 0 <= m < 2 ==> #[trigger] oe[8 + m] == put(orientation as nat, 2, little)[m],
        read(body, 4, 4, little) == Some(pl as nat),
        read(body, pl, 2, little) == Some(sorted.len()),
        forall|k: int, m: int|
            0 <= k < sorted.len() && 0 <= m < 12 ==> #[trigger] body[pl + 2 + 12 * k + m]
                == sorted[k].1[m],
    ensures
        reads_orientation(body, little, orientation),
{
    reveal(reads_orientation);
    let n1 = sorted.len() as int;
    assert(ifd0(body, little) == pl);
    assert((body.len() - pl - 10) / 12 + 1 == n1) by (nonlinear_arith)
        requires
            body.len() == pl + 2 + 12 * n1 + 4,
            n1 >= 1,
    ;
    let main = entries(body, pl, little);
    assert(main.len() == n1);
    assert forall|k: int| 0 <= k < n1 implies (#[trigger] main[k]).tag == sorted[k].0 by {
        assert(well_tagged(sorted[k], little, oe));
        assert forall|m: int| 0 <= m < 2 implies #[trigger] body[pl + 2 + 12 * k + m] == sorted[k].1[0 + m] by {
            assert(body[pl + 2 + 12 * k + m] == sorted[k].1[m]);
        }
        lemma_read_same(body, pl + 2 + 12 * k, sorted[k].1, 0, 2, little);
    }
    let w = choose|i: int| 0 <= i < n1 && sorted[i] == (ORIENTATION, oe);
    assert(main[w].tag == ORIENTATION);
    lemma_first_tag(main, ORIENTATION);
    let e = first_tag(main, ORIENTATION)->0;
    let j = choose|j: int| 0 <= j < main.len() && main[j] == e;
    assert(well_tagged(sorted[j], little, oe));
    assert(sorted[j].1 == oe);
    assert(entry(body, ORIENTATION, little) == Some(e));
    assert(e.value_at == pl + 2 + 12 * j + 8);
    lemma_read_put(orientation as nat, 2, little);
    assert forall|m: int| 0 <= m < 2 implies #[trigger] body[e.value_at + m] == put(orientation as nat, 2, little)[0 + m] by {
        assert(body[pl + 2 + 12 * j + (8 + m)] == sorted[j].1[8 + m]);
        assert(oe[8 + m] == put(orientation as nat, 2, little)[m]);
    }
    lemma_read_same(body, e.value_at as int, put(orientation as nat, 2, little), 0, 2, little);
}

proof fn lemma_concat_at(a: Seq<u8>, b: Seq<u8>, c: Seq<u8>)
    ensures
        (a + b + c).len() == a.len() + b.len() + c.len(),
        forall|i: int| 0 <= i < a.len() ==> #[trigger] (a + b + c)[i] == a[i],
        forall|i: int| 0 <= i < b.len() ==> #[trigger] (a + b + c)[a.len() + i] == b[i],
        forall|i: int| 0 <= i < c.len() ==> #[trigger] (a + b + c)[a.len() + b.len() + i] == c[i],
{
}

/// The TIFF data grown by a new directory: the header pointed at it, the
/// count, the entries and the link to the next directory.
#[verifier::opaque]
spec fn rebuilt_body(padded: Seq<u8>, jn: Seq<u8>, next: Seq<u8>, count: nat, little: bool) -> Seq<u8> {
    padded.subrange(0, 4) + put(padded.len(), 4, little) + padded.subrange(8, padded.len() as int)
        + put(count, 2, little) + jn + next
}

spec fn padded_of(t: Seq<u8>) -> Seq<u8> {
    if t.len() % 2 == 1 {
        t.push(0)
    } else {
        t
    }
}

spec fn new_raw(t: Seq<u8>, little: bool, orientation: u16) -> Seq<(u16, Seq<u8>)> {
    raw_entries(t, entries(t, ifd0(t, little), little)).push(
        (ORIENTATION, orientation_entry(orientation, little)),
    )
}

spec fn next_link(t: Seq<u8>, little: bool) -> Seq<u8> {
    let i0 = ifd0(t, little);
    let n = entries(t, i0, little).len() as int;
    t.subrange(i0 + 2 + 12 * n, i0 + 6 + 12 * n)
}

proof fn lemma_new_segment_parts(t: Seq<u8>, little: bool, orientation: u16)
    requires
        new_segment(t, little, orientation) is Some,
        t.len() != 6,
    ensures
        ({
            let seg = new_segment(t, little, orientation)->0;
            let i0 = ifd0(t, little);
            let old = entries(t, i0, little);
            let raw = new_raw(t, little, orientation);
            let body = rebuilt_body(padded_of(t), joined(sort_by_tag(raw)), next_link(t, little), raw.len(), little);
            &&& seg.len() >= 10
            &&& seg.subrange(10, seg.len() as int) == body
            &&& body.len() + 8 <= 65535
            &&& t.len() >= 7
            &&& padded_of(t).len() >= 8
            &&& next_link(t, little).len() == 4
            &&& forall|k: int| 0 <= k < old.len() ==> #[trigger] old[k].value_at + 4 <= t.len()
        }),
{
    reveal(new_segment);
    reveal(rebuilt_body);
    let i0 = ifd0(t, little);
    let n = entries(t, i0, little).len() as int;
    let raw = new_raw(t, little, orientation);
    let body = rebuilt_body(padded_of(t), joined(sort_by_tag(raw)), next_link(t, little), raw.len(), little);
    let seg = new_segment(t, little, orientation)->0;
    assert(seg == seq![0xffu8, 0xe1u8] + be2((body.len() + 8) as nat) + exif_tag() + body);
    assert(seg.subrange(10, seg.len() as int) =~= body);
    assert(t.len() >= 7) by {
        assert(i0 + 6 + 12 * n <= t.len());
    }
}

proof fn lemma_body_layout(padded: Seq<u8>, jn: Seq<u8>, next: Seq<u8>, sorted: Seq<(u16, Seq<u8>)>, little: bool)
    requires
        8 <= padded.len() < 0x1_0000_0000,
        sorted.len() < 0x10000,
        jn.len() == 12 * sorted.len(),
        forall|k: int, m: int|
            0 <= k < sorted.len() && 0 <= m < 12 ==> #[trigger] jn[12 * k + m] == sorted[k].1[m],
    ensures
        ({
            let pl = padded.len() as int;
            let body = rebuilt_body(padded, jn, next, sorted.len(), little);
            &&& body.len() == pl + 2 + 12 * sorted.len() + next.len()
            &&& read(body, 4, 4, little) == Some(pl as nat)
            &&& read(body, pl, 2, little) == Some(sorted.len())
            &&& forall|k: int, m: int|
                0 <= k < sorted.len() && 0 <= m < 12 ==> #[trigger] body[pl + 2 + 12 * k + m]
                    == sorted[k].1[m]
        }),
{
    reveal(rebuilt_body);
    let pl = padded.len() as int;
    let head = padded.subrange(0, 4) + put(pl as nat, 4, little);
    let mid = head + padded.subrange(8, pl) + put(sorted.len(), 2, little);
    let body = mid + jn + next;
    assert(body == rebuilt_body(padded, jn, next, sorted.len(), little));
    lemma_read_put(pl as nat, 4, little);
    lemma_read_put(sorted.len(), 2, little);
    assert(head.len() == 8);
    assert(mid.len() == pl + 2);
    lemma_concat_at(mid, jn, next);
    lemma_concat_at(head, padded.subrange(8, pl), put(sorted.len(), 2, little));
    assert forall|m: int| 0 <= m < 4 implies #[trigger] body[4 + m] == put(pl as nat, 4, little)[0 + m] by {
        assert(body[4 + m] == mid[4 + m]);
        assert(mid[4 + m] == head[4 + m]);
    }
    lemma_read_same(body, 4, put(pl as nat, 4, little), 0, 4, little);
    assert forall|m: int| 0 <= m < 2 implies #[trigger] body[pl + m] == put(sorted.len(), 2, little)[0 + m] by {
        assert(body[pl + m] == mid[pl + m]);
        assert(mid[8 + (pl - 8) + m] == put(sorted.len(), 2, little)[m]);
    }
    lemma_read_same(body, pl, put(sorted.len(), 2, little), 0, 2, little);
    assert forall|k: int, m: int| 0 <= k < sorted.len() && 0 <= m < 12 implies #[trigger] body[pl + 2 + 12 * k + m]
        == sorted[k].1[m] by {
        assert(12 * k + m < 12 * sorted.len()) by (nonlinear_arith)
            requires
                k < sorted.len(),
                m < 12,
        ;
        assert(body[mid.len() + (12 * k + m)] == jn[12 * k + m]);
    }
}

#[verifier::spinoff_prover]
proof fn lemma_new_directory(t: Seq<u8>, little: bool, orientation: u16)
    requires
        new_segment(t, little, orientation) is Some,
        t.len() != 6,
        t.len() <= 65535,
        first_tag(entries(t, ifd0(t, little), little), ORIENTATION) is None,
    ensures
        ({
            let oe = orientation_entry(orientation, little);
            let raw = new_raw(t, little, orientation);
            let pl = padded_of(t).len() as int;
            let sorted = sort_by_tag(raw);
            let body = rebuilt_body(padded_of(t), joined(sorted), next_link(t, little), raw.len(), little);
            &&& 8 <= pl
            &&& 1 <= sorted.len() < 0x10000
            &&& body.len() == pl + 2 + 12 * sorted.len() + 4
            &&& body.len() <= 65535
            &&& forall|i: int| 0 <= i < sorted.len() ==> well_tagged(#[trigger] sorted[i], little, oe)
            &&& exists|i: int| 0 <= i < sorted.len() && sorted[i] == (ORIENTATION, oe)
            &&& forall|m: int| 0 <= m < 2 ==> #[trigger] oe[8 + m] == put(orientation as nat, 2, little)[m]
            &&& read(body, 4, 4, little) == Some(pl as nat)
            &&& read(body, pl, 2, little) == Some(sorted.len())
            &&& forall|k: int, m: int|
                0 <= k < sorted.len() && 0 <= m < 12 ==> #[trigger] body[pl + 2 + 12 * k + m]
                    == sorted[k].1[m]
        }),
{
    let oe = orientation_entry(orientation, little);
    let raw = new_raw(t, little, orientation);
    let pl = padded_of(t).len() as int;
    let sorted = sort_by_tag(raw);
    let body = rebuilt_body(padded_of(t), joined(sorted), next_link(t, little), raw.len(), little);
    assert({
        &&& 8 <= pl
        &&& 1 <= sorted.len() < 0x10000
        &&& body.len() == pl + 2 + 12 * sorted.len() + 4
        &&& body.len() <= 65535
        &&& forall|i: int| 0 <= i < sorted.len() ==> well_tagged(#[trigger] sorted[i], little, oe)
        &&& exists|i: int| 0 <= i < sorted.len() && sorted[i] == (ORIENTATION, oe)
        &&& forall|m: int| 0 <= m < 2 ==> #[trigger] oe[8 + m] == put(orientation as nat, 2, little)[m]
        &&& read(body, 4, 4, little) == Some(pl as nat)
        &&& read(body, pl, 2, little) == Some(sorted.len())
        &&& forall|k: int, m: int|
            0 <= k < sorted.len() && 0 <= m < 12 ==> #[trigger] body[pl + 2 + 12 * k + m]
                == sorted[k].1[m]
    }) by {
        lemma_new_segment_parts(t, little, orientation);
        let i0 = ifd0(t, little);
        let n = entries(t, i0, little).len() as int;
        let oe = orientation_entry(orientation, little);
        let raw = new_raw(t, little, orientation);
        let padded = padded_of(t);
        let pl = padded.len() as int;
        let sorted = sort_by_tag(raw);
        let jn = joined(sorted);
        let next = next_link(t, little);
        let body = rebuilt_body(padded, jn, next, raw.len(), little);
        lemma_sorted_entries(t, little, orientation);
        assert forall|i: int| 0 <= i < sorted.len() implies (#[trigger] sorted[i]).1.len() == 12 by {
            assert(well_tagged(sorted[i], little, oe));
        }
        lemma_joined_at(sorted);
        assert(sorted.len() == n + 1);
        assert(pl <= t.len() + 1);
        assert(n + 1 < 0x10000) by {
            lemma_entries_value_at(t, i0, little);
            if n > 0 {
                assert(entries(t, i0, little)[n - 1].value_at == i0 + 10 + 12 * (n - 1));
            }
        }
        lemma_body_layout(padded, jn, next, sorted, little);
        assert forall|m: int| 0 <= m < 2 implies #[trigger] oe[8 + m] == put(orientation as nat, 2, little)[m] by {}
        assert(body == rebuilt_body(padded, jn, next, sorted.len(), little));
    }
}

#[verifier::spinoff_prover]
proof fn lemma_new_data_reads_back(t: Seq<u8>, little: bool, orientation: u16)
    requires
        new_segment(t, little, orientation) is Some,
        t.len() != 6,
        t.len() <= 65535,
        first_tag(entries(t, ifd0(t, little), little), ORIENTATION) is None,
    ensures
        ({
            let seg = new_segment(t, little, orientation)->0;
            let body = seg.subrange(10, seg.len() as int);
            &&& seg.len() >= 10
            &&& reads_orientation(body, little, orientation)
        }),
{
    lemma_new_segment_parts(t, little, orientation);
    lemma_new_directory(t, little, orientation);
    let oe = orientation_entry(orientation, little);
    let raw = new_raw(t, little, orientation);
    let pl = padded_of(t).len() as int;
    let sorted = sort_by_tag(raw);
    let body = rebuilt_body(padded_of(t), joined(sorted), next_link(t, little), raw.len(), little);
    lemma_directory_reads(body, sorted, pl, little, oe, orientation);
    let seg = new_segment(t, little, orientation)->0;
    assert(seg.subrange(10, seg.len() as int) == body);
}

/// Putting the rebuilt segment in place of the old block gives a JPEG
/// whose EXIF block is found at the same place, is the whole new segment,
/// keeps the byte order and records `orientation`. (A block of exactly six
/// TIFF bytes, which `with_orientation` refuses to take, is left out.)
pub proof fn rebuilt_segment_reads_back(d: Seq<u8>, h: Header, orientation: u16)
    requires
        find_spec(d) == Some(h),
        readable(h),
        tiff(d, h).len() != 6,
        with_orientation_spec(d, h, orientation) is Some,
    ensures
        ({
            let ((start, end), seg) = with_orientation_spec(d, h, orientation)->0;
            let d2 = spliced(d, start, end, seg);
            let h2 = Header {
                segment_start: start,
                segment_end: start + seg.len(),
                tiff_start: start + 10,
                little_endian: h.little_endian,
            };
            &&& find_spec(d2) == Some(h2)
            &&& tiff(d2, h2) == seg.subrange(10, seg.len() as int)
            &&& match orientation_spec(d2, h2) {
                Some((_, little_endian, value)) => little_endian == h.little_endian && value
                    == orientation,
                None => false,
            }
        }),
{
    rebuilt_segment_keeps_the_data(d, h, orientation);
    let ((start, end), seg) = with_orientation_spec(d, h, orientation)->0;
    let t = tiff(d, h);
    let little = h.little_endian;
    lemma_found(d, 2);
    assert(start == h.segment_start && end == h.segment_end);
    assert(t.len() == end - start - 10);
    assert(seg == new_segment(t, little, orientation)->0);
    // The walk reaches the new segment.
    let d2 = spliced(d, start, end, seg);
    let h2 = Header {
        segment_start: start,
        segment_end: start + seg.len(),
        tiff_start: start + 10,
        little_endian: little,
    };
    assert(d2.len() >= d.len());
    assert forall|i: int| 0 <= i < start implies #[trigger] d2[i] == d[i] by {}
    assert forall|i: int| 0 <= i < seg.len() implies #[trigger] d2[start + i] == seg[i] by {}
    assert(seg[10int + 0] == t[0] && seg[10int + 1] == t[1]);
    lemma_walk(d, d2, 2, seg);
    assert(d2[0] == d[0] && d2[1] == d[1]);
    assert(find_spec(d2) == Some(h2));
    let body = seg.subrange(10, seg.len() as int);
    assert(tiff(d2, h2) =~= body) by {
        assert forall|i: int| 0 <= i < body.len() implies #[trigger] tiff(d2, h2)[i] == body[i] by {
            assert(d2[start + (10 + i)] == seg[10 + i]);
        }
    }
    // The old directory has no orientation entry: one would have been read.
    reveal(new_segment);
    let old = entries(t, ifd0(t, little), little);
    lemma_entries_value_at(t, ifd0(t, little), little);
    lemma_first_tag(old, ORIENTATION);
    if first_tag(old, ORIENTATION) is Some {
        let e = first_tag(old, ORIENTATION)->0;
        let j = choose|j: int| 0 <= j < old.len() && old[j] == e;
        assert(old[j].value_at + 4 <= t.len());
        assert(entry(t, ORIENTATION, little) == Some(e));
        assert(read(t, e.value_at as int, 2, little) is Some);
        assert(false);
    }
    lemma_new_data_reads_back(t, little, orientation);
    reveal(reads_orientation);
}

/// A 2×2 integer matrix `(a, b, c, d)`, rows `(a, b)` and `(c, d)`: where
/// the stored picture's x (rightward) and y (downward) axes end up.
pub type Axes = (int, int, int, int);

/// `m` after `n`.
pub open spec fn after(m: Axes, n: Axes) -> Axes {
    (m.0 * n.0 + m.1 * n.2, m.0 * n.1 + m.1 * n.3, m.2 * n.0 + m.3 * n.2, m.2 * n.1 + m.3 * n.3)
}

/// A quarter turn clockwise on screen (y pointing down).
pub open spec fn clockwise() -> Axes {
    (0, -1, 1, 0)
}

/// `k` quarter turns clockwise.
pub open spec fn clockwise_times(k: nat) -> Axes
    decreases k,
{
    if k == 0 {
        (1, 0, 0, 1)
    } else {
        after(clockwise(), clockwise_times((k - 1) as nat))
    }
}

/// How a picture stored with EXIF orientation `o` is shown, as the EXIF
/// standard tables it: 1 as stored, 2 mirrored left to right, 3 turned
/// half round, 4 mirrored top to bottom, 5 transposed, 6 turned a quarter
/// clockwise, 7 transversed, 8 turned a quarter anticlockwise.
pub open spec fn shown_axes(o: u16) -> Axes {
    if o == 2 {
        (-1, 0, 0, 1)
    } else if o == 3 {
        (-1, 0, 0, -1)
    } else if o == 4 {
        (1, 0, 0, -1)
    } else if o == 5 {
        (0, 1, 1, 0)
    } else if o == 6 {
        (0, -1, 1, 0)
    } else if o == 7 {
        (0, -1, -1, 0)
    } else if o == 8 {
        (0, 1, -1, 0)
    } else {
        (1, 0, 0, 1)
    }
}

/// The axes of `crate::quick::upright`'s answer: its turn, then its mirror.
pub open spec fn upright_axes(u: (crate::quick::Turn, Option<bool>)) -> Axes {
    let turn = match u.0 {
        crate::quick::Turn::Keep => clockwise_times(0),
        crate::quick::Turn::Clockwise => clockwise_times(1),
        crate::quick::Turn::UpsideDown => clockwise_times(2),
        crate::quick::Turn::Counterclockwise => clockwise_times(3),
    };
    match u.1 {
        Some(true) => after((-1, 0, 0, 1), turn),
        Some(false) => after((1, 0, 0, -1), turn),
        None => turn,
    }
}

/// Turning an orientation by `quarters` shows the picture as before,
/// turned that many quarters further clockwise: for a mirrored picture
/// too, the turn comes after the mirror. An invalid orientation counts as
/// 1 (as stored) once it is turned at all.
pub proof fn turning_turns_what_is_shown(o: u16, quarters: u8)
    ensures
        valid_orientation(o) ==> shown_axes(turned_spec(o, quarters)) == after(
            clockwise_times((quarters % 4) as nat),
            shown_axes(o),
        ),
        !valid_orientation(o) && quarters % 4 != 0 ==> turned_spec(o, quarters) == turned_spec(1, quarters),
{
    reveal_with_fuel(turns, 4);
    lemma_clockwise_times();
    let k = (quarters % 4) as nat;
    if valid_orientation(o) {
        if k == 0 {
        } else if k == 1 {
            assert(turns(o, 1) == turn_once(o));
        } else if k == 2 {
            assert(turns(o, 2) == turn_once(turn_once(o)));
        } else {
            assert(turns(o, 3) == turn_once(turn_once(turn_once(o))));
        }
    }
}

proof fn lemma_clockwise_times()
    ensures
        clockwise_times(0) == (1int, 0int, 0int, 1int),
        clockwise_times(1) == (0int, -1int, 1int, 0int),
        clockwise_times(2) == (-1int, 0int, 0int, -1int),
        clockwise_times(3) == (0int, 1int, -1int, 0int),
{
    reveal_with_fuel(clockwise_times, 4);
    assert(clockwise_times(1) == after(clockwise(), clockwise_times(0)));
    assert(clockwise_times(2) == after(clockwise(), clockwise_times(1)));
    assert(clockwise_times(3) == after(clockwise(), clockwise_times(2)));
}

/// What `quick::upright` does to show a picture upright is the EXIF
/// standard's reading of its orientation.
pub proof fn upright_shows_the_orientation(o: u16)
    requires
        valid_orientation(o),
    ensures
        upright_axes(crate::quick::upright_spec(o)) == shown_axes(o),
{
    lemma_clockwise_times();
}

} // verus!
