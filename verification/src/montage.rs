//! Contact sheets via ImageMagick's `magick montage`: the command line.
//! Running it is the caller's.

use vstd::prelude::*;

use crate::text::decimal;

verus! {

/// What a contact sheet looks like and where it goes.
#[derive(Debug)]
pub struct ContactSheet {
    pub output: String,
    pub columns: u32,
    pub thumb_size: u32,
    pub labels: bool,
    pub background: String,
    pub foreground: String,
    /// Font file for the labels; ImageMagick's default when `None`.
    pub font: Option<String>,
}

/// The arguments of `magick` for a sheet of `files`: read JPEGs at twice
/// the thumbnail size, turn them upright, colours, font, labels, the
/// files (absolute, so no name can be mistaken for an option), layout,
/// output.
pub open spec fn args_spec(
    output: Seq<char>,
    columns: u32,
    size: u32,
    labels: bool,
    background: Seq<char>,
    foreground: Seq<char>,
    font: Option<Seq<char>>,
    files: Seq<Seq<char>>,
) -> Seq<Seq<char>> {
    let twice = decimal((2 * size) as nat);
    let font_args = match font {
        Some(f) => seq!["-font"@, f],
        None => Seq::empty(),
    };
    seq!["montage"@, "-define"@, "jpeg:size="@ + twice + seq!['x'] + twice, "-auto-orient"@, "-background"@, background, "-fill"@, foreground]
        + font_args + seq!["-label"@, if labels { "%t"@ } else { Seq::empty() }] + files + seq![
        "-tile"@,
        decimal(columns as nat) + seq!['x'],
        "-geometry"@,
        decimal(size as nat) + seq!['x'] + decimal(size as nat) + "+6+6"@,
        output,
    ]
}

/// The text of an optional string.
pub open spec fn opt_view(o: Option<String>) -> Option<Seq<char>> {
    match o {
        Some(f) => Some(f@),
        None => None,
    }
}

fn append_arg(args: &mut Vec<String>, a: String)
    ensures
        final(args)@.map_values(|x: String| x@) == old(args)@.map_values(|x: String| x@).push(a@),
{
    let ghost before = args@;
    args.push(a);
    proof {
        crate::text::lemma_map_push(before, a, |x: String| x@);
    }
}

fn text(s: &str) -> (r: String)
    ensures
        r@ == s@,
{
    s.to_owned()
}

fn chars(s: &String) -> (r: Vec<char>)
    ensures
        r@ == s@,
{
    crate::text::chars_of(s.as_str())
}

impl ContactSheet {
    /// The arguments of `magick` for a sheet of `files`.
    pub fn args(&self, files: &[String]) -> (r: Vec<String>)
        requires
            2 * self.thumb_size <= u32::MAX,
        ensures
            r@.map_values(|a: String| a@) == args_spec(
                self.output@,
                self.columns,
                self.thumb_size,
                self.labels,
                self.background@,
                self.foreground@,
                opt_view(self.font),
                files@.map_values(|f: String| f@),
            ),
    {
        let size = self.thumb_size;
        let twice = crate::text::decimal_string((size * 2) as usize);
        let mut define = crate::text::chars_of("jpeg:size=");
        crate::text::push_all(&mut define, &chars(&twice));
        define.push('x');
        crate::text::push_all(&mut define, &chars(&twice));
        let mut args: Vec<String> = Vec::new();
        assert(args@.map_values(|a: String| a@) =~= Seq::<Seq<char>>::empty());
        append_arg(&mut args, text("montage"));
        append_arg(&mut args, text("-define"));
        append_arg(&mut args, crate::text::string_of(&define));
        append_arg(&mut args, text("-auto-orient"));
        append_arg(&mut args, text("-background"));
        append_arg(&mut args, self.background.clone());
        append_arg(&mut args, text("-fill"));
        append_arg(&mut args, self.foreground.clone());
        let ghost twice_text = decimal((2 * size) as nat);
        assert(define@ =~= "jpeg:size="@ + twice_text + seq!['x'] + twice_text);
        assert(args@.map_values(|a: String| a@) =~= seq!["montage"@, "-define"@, "jpeg:size="@ + twice_text + seq!['x'] + twice_text, "-auto-orient"@, "-background"@, self.background@, "-fill"@, self.foreground@]);
        let ghost start = args@.map_values(|a: String| a@);
        match &self.font {
            Some(font) => {
                append_arg(&mut args, text("-font"));
                append_arg(&mut args, font.clone());
            },
            None => {},
        }
        append_arg(&mut args, text("-label"));
        let label = if self.labels {
            text("%t")
        } else {
            String::new()
        };
        append_arg(&mut args, label);
        let ghost head = args@.map_values(|a: String| a@);
        assert(head =~= start + (match opt_view(self.font) {
            Some(f) => seq!["-font"@, f],
            None => Seq::empty(),
        }) + seq!["-label"@, if self.labels { "%t"@ } else { Seq::empty() }]);
        let mut k: usize = 0;
        while k < files.len()
            invariant
                k <= files.len(),
                args@.map_values(|a: String| a@) == head + files@.subrange(0, k as int).map_values(|f: String| f@),
            decreases files.len() - k,
        {
            let f = files[k].clone();
            append_arg(&mut args, f);
            proof {
                assert(files@.subrange(0, k + 1) =~= files@.subrange(0, k as int).push(files@[k as int]));
                crate::text::lemma_map_push(files@.subrange(0, k as int), files@[k as int], |f: String| f@);
            }
            k = k + 1;
        }
        assert(files@.subrange(0, files.len() as int) =~= files@);
        let ghost middle = args@.map_values(|a: String| a@);
        let columns = crate::text::decimal_string(self.columns as usize);
        let mut tile = chars(&columns);
        tile.push('x');
        let side = crate::text::decimal_string(size as usize);
        let mut geometry = chars(&side);
        geometry.push('x');
        crate::text::push_all(&mut geometry, &chars(&side));
        crate::text::push_all(&mut geometry, &crate::text::chars_of("+6+6"));
        append_arg(&mut args, text("-tile"));
        append_arg(&mut args, crate::text::string_of(&tile));
        append_arg(&mut args, text("-geometry"));
        append_arg(&mut args, crate::text::string_of(&geometry));
        append_arg(&mut args, self.output.clone());
        proof {
            let want = args_spec(
                self.output@,
                self.columns,
                self.thumb_size,
                self.labels,
                self.background@,
                self.foreground@,
                opt_view(self.font),
                files@.map_values(|f: String| f@),
            );
            let tail = seq![
                "-tile"@,
                decimal(self.columns as nat) + seq!['x'],
                "-geometry"@,
                decimal(size as nat) + seq!['x'] + decimal(size as nat) + "+6+6"@,
                self.output@,
            ];
            assert(middle == head + files@.map_values(|f: String| f@));
            assert(tile@ =~= decimal(self.columns as nat) + seq!['x']);
            assert(geometry@ =~= decimal(size as nat) + seq!['x'] + decimal(size as nat) + "+6+6"@);
            assert(args@.map_values(|a: String| a@) =~= middle + tail);
            assert(args@.map_values(|a: String| a@) =~= want);
        }
        args
    }
}


/// What a failed `magick` is reported with: the first line it wrote to
/// stderr, or "magick failed" where it wrote none.
pub open spec fn failure_spec(stderr: Seq<u8>) -> Seq<char> {
    let ls = crate::text::lines(crate::text::utf8_lossy(stderr));
    if ls.len() > 0 {
        ls[0]
    } else {
        "magick failed"@
    }
}

/// What a failed `magick` is reported with.
pub fn failure(stderr: &[u8]) -> (r: String)
    ensures
        r@ == failure_spec(stderr@),
{
    let text = crate::text::from_utf8_lossy(stderr);
    let ls = crate::text::lines_of(&crate::text::chars_of(text.as_str()));
    if ls.len() > 0 {
        crate::text::string_of(&ls[0])
    } else {
        "magick failed".to_owned()
    }
}


/// The files go on the sheet in the order given, one argument each, right
/// after `-label` and its value (which follow the font, where there is
/// one) and right before `-tile`; the output is the last argument.
pub proof fn sheet_keeps_the_order(
    output: Seq<char>,
    columns: u32,
    size: u32,
    labels: bool,
    background: Seq<char>,
    foreground: Seq<char>,
    font: Option<Seq<char>>,
    files: Seq<Seq<char>>,
)
    ensures
        ({
            let a = args_spec(output, columns, size, labels, background, foreground, font, files);
            let h = if font is Some { 12int } else { 10int };
            &&& a.len() == h + files.len() + 5
            &&& a[h - 2] == "-label"@
            &&& forall|k: int| 0 <= k < files.len() ==> #[trigger] a[h + k] == files[k]
            &&& a[h + files.len()] == "-tile"@
            &&& a[h + files.len() + 1] == decimal(columns as nat) + seq!['x']
            &&& a[h + files.len() + 2] == "-geometry"@
            &&& a[h + files.len() + 3] == decimal(size as nat) + seq!['x'] + decimal(size as nat) + "+6+6"@
            &&& a[a.len() - 1] == output
            &&& a[0] == "montage"@
            &&& a[4] == "-background"@ && a[5] == background
            &&& a[6] == "-fill"@ && a[7] == foreground
            &&& (font matches Some(f) ==> a[8] == "-font"@ && a[9] == f)
            &&& a[h - 1] == if labels { "%t"@ } else { Seq::<char>::empty() }
        }),
{
    let a = args_spec(output, columns, size, labels, background, foreground, font, files);
    let h = if font is Some { 12int } else { 10int };
    assert forall|k: int| 0 <= k < files.len() implies #[trigger] a[h + k] == files[k] by {}
}
} // verus!
