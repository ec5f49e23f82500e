//! Shell commands over a set of images: placeholder expansion and a few
//! ready-made ImageMagick lines. Running the lines through `sh` is up to
//! the caller.

use vstd::prelude::*;

use crate::paths::{file_name, parent, without_extension};
use crate::text::{occurs, trim};

verus! {

/// What the placeholders mean, shown under the prompt.
pub const PLACEHOLDERS: &'static str = "{} file · {.} no ext · {/} name · {/.} name, no ext · {//} folder · {+} all at once";

/// The ready-made lines offered under the prompt, each with its note.
/// ImageMagick 7 syntax; `mogrify` works in place.
pub open spec fn suggestion_list() -> Seq<(Seq<char>, Seq<char>)> {
    seq![
        ("magick mogrify -resize 50% {}"@, "halve, in place"@),
        ("magick mogrify -resize '2048x2048>' {}"@, "fit into 2048 px, in place (never enlarges)"@),
        ("magick {} -resize '1600x1600>' -quality 85 {.}_web.jpg"@, "web-sized copy next to the original"@),
        ("magick {} -thumbnail '400x400^' -gravity center -extent 400x400 {.}_thumb.jpg"@, "square 400 px thumbnail copy"@),
        ("magick mogrify -quality 85 {}"@, "recompress JPEG, in place"@),
        ("magick mogrify -strip {}"@, "remove all metadata (EXIF, GPS, profiles), in place"@),
        ("magick mogrify -auto-orient {}"@, "bake the EXIF rotation into the pixels"@),
        ("magick {} {.}.jpg"@, "convert to JPEG (copy)"@),
        ("magick {} {.}.png"@, "convert to PNG (copy)"@),
        ("magick {} {.}.webp"@, "convert to WebP (copy)"@),
        ("magick mogrify -colorspace Gray {}"@, "black and white, in place"@),
        ("magick mogrify -auto-level {}"@, "stretch contrast to the full range, in place"@),
        ("magick mogrify -trim +repage {}"@, "cut off uniform borders, in place"@),
        ("magick mogrify -gravity center -crop 1:1 +repage {}"@, "centre-crop to a square, in place"@),
        ("magick mogrify -bordercolor white -border 5% {}"@, "add a white border, in place"@),
        ("magick {+} +append strip.jpg"@, "all images side by side → strip.jpg"@),
        ("magick {+} -append stack.jpg"@, "all images on top of each other → stack.jpg"@),
        ("magick -delay 50 -loop 0 {+} animation.gif"@, "animated GIF in display order"@),
        ("magick {+} images.pdf"@, "one PDF, a page per image"@),
    ]
}

/// Offered under the prompt, with a note each. ImageMagick 7 syntax;
/// `mogrify` works in place.
pub fn suggestions() -> (r: Vec<(&'static str, &'static str)>)
    ensures
        r@.map_values(|p: (&'static str, &'static str)| (p.0@, p.1@)) == suggestion_list(),
{
    let r = vec![
        ("magick mogrify -resize 50% {}", "halve, in place"),
        ("magick mogrify -resize '2048x2048>' {}", "fit into 2048 px, in place (never enlarges)"),
        ("magick {} -resize '1600x1600>' -quality 85 {.}_web.jpg", "web-sized copy next to the original"),
        ("magick {} -thumbnail '400x400^' -gravity center -extent 400x400 {.}_thumb.jpg", "square 400 px thumbnail copy"),
        ("magick mogrify -quality 85 {}", "recompress JPEG, in place"),
        ("magick mogrify -strip {}", "remove all metadata (EXIF, GPS, profiles), in place"),
        ("magick mogrify -auto-orient {}", "bake the EXIF rotation into the pixels"),
        ("magick {} {.}.jpg", "convert to JPEG (copy)"),
        ("magick {} {.}.png", "convert to PNG (copy)"),
        ("magick {} {.}.webp", "convert to WebP (copy)"),
        ("magick mogrify -colorspace Gray {}", "black and white, in place"),
        ("magick mogrify -auto-level {}", "stretch contrast to the full range, in place"),
        ("magick mogrify -trim +repage {}", "cut off uniform borders, in place"),
        ("magick mogrify -gravity center -crop 1:1 +repage {}", "centre-crop to a square, in place"),
        ("magick mogrify -bordercolor white -border 5% {}", "add a white border, in place"),
        ("magick {+} +append strip.jpg", "all images side by side → strip.jpg"),
        ("magick {+} -append stack.jpg", "all images on top of each other → stack.jpg"),
        ("magick -delay 50 -loop 0 {+} animation.gif", "animated GIF in display order"),
        ("magick {+} images.pdf", "one PDF, a page per image"),
    ];
    assert(r@.map_values(|p: (&'static str, &'static str)| (p.0@, p.1@)) =~= suggestion_list());
    r
}

/// One command line to run.
#[derive(Debug, PartialEq)]
pub struct Job {
    /// Ready for `sh -c`.
    pub line: String,
    /// The directory to run it in.
    pub cwd: String,
    /// Indices into the file list this job is about.
    pub files: Vec<usize>,
}

/// `s` with each `'` written `'\''`.
pub open spec fn escaped(s: Seq<char>) -> Seq<char>
    decreases s.len(),
{
    if s.len() == 0 {
        s
    } else if s.last() == '\'' {
        escaped(s.drop_last()) + seq!['\'', '\\', '\'', '\'']
    } else {
        escaped(s.drop_last()).push(s.last())
    }
}

/// `s` quoted for `sh`: safe for any path.
pub open spec fn quoted(s: Seq<char>) -> Seq<char> {
    seq!['\''] + escaped(s) + seq!['\'']
}

/// `c` put in front of a word read, if one was read.
pub open spec fn cons_word(c: char, r: Option<Seq<char>>) -> Option<Seq<char>> {
    match r {
        Some(w) => Some(seq![c] + w),
        None => None,
    }
}

/// How `sh` reads the rest of a word outside quotes: a `'` opens a
/// quoted run, a backslash takes the next character as it is, white space
/// would end the word (so `None`: not one word), anything else stands for
/// itself.
pub open spec fn sh_unquoted(s: Seq<char>) -> Option<Seq<char>>
    decreases s.len(),
{
    if s.len() == 0 {
        Some(Seq::empty())
    } else if s[0] == '\'' {
        sh_quoted(s.drop_first())
    } else if s[0] == '\\' {
        if s.len() >= 2 {
            cons_word(s[1], sh_unquoted(s.subrange(2, s.len() as int)))
        } else {
            None
        }
    } else if s[0] == ' ' || s[0] == '\t' || s[0] == '\n' {
        None
    } else {
        cons_word(s[0], sh_unquoted(s.drop_first()))
    }
}

/// How `sh` reads the rest of a single-quoted run: everything stands for
/// itself up to the closing `'`; a run never closed is no word.
pub open spec fn sh_quoted(s: Seq<char>) -> Option<Seq<char>>
    decreases s.len(),
{
    if s.len() == 0 {
        None
    } else if s[0] == '\'' {
        sh_unquoted(s.drop_first())
    } else {
        cons_word(s[0], sh_quoted(s.drop_first()))
    }
}

/// `a` put in front of a word read, if one was read.
pub open spec fn prepend_word(a: Seq<char>, r: Option<Seq<char>>) -> Option<Seq<char>> {
    match r {
        Some(w) => Some(a + w),
        None => None,
    }
}

proof fn lemma_read_escaped(a: Seq<char>, x: Seq<char>)
    ensures
        sh_quoted(escaped(a) + x) == prepend_word(a, sh_quoted(x)),
    decreases a.len(),
{
    if a.len() == 0 {
        assert(escaped(a) + x =~= x);
        match sh_quoted(x) {
            Some(w) => assert(a + w =~= w),
            None => {},
        }
    } else {
        let c = a.last();
        let a0 = a.drop_last();
        if c == '\'' {
            let piece = seq!['\'', '\\', '\'', '\''];
            let y = piece + x;
            assert(escaped(a) + x =~= escaped(a0) + y);
            lemma_read_escaped(a0, y);
            assert(y.drop_first() =~= seq!['\\', '\'', '\''] + x);
            let z = seq!['\\', '\'', '\''] + x;
            assert(z.subrange(2, z.len() as int) =~= seq!['\''] + x);
            assert((seq!['\''] + x).drop_first() =~= x);
            assert(sh_unquoted(seq!['\''] + x) == sh_quoted(x));
            assert(sh_unquoted(z) == cons_word('\'', sh_quoted(x)));
            assert(sh_quoted(y) == cons_word('\'', sh_quoted(x)));
        } else {
            let y = seq![c] + x;
            assert(escaped(a) + x =~= escaped(a0) + y);
            lemma_read_escaped(a0, y);
            assert(y.drop_first() =~= x);
            assert(sh_quoted(y) == cons_word(c, sh_quoted(x)));
        }
        match sh_quoted(x) {
            Some(w) => assert(a0 + (seq![c] + w) =~= a + w),
            None => {},
        }
    }
}

/// Quoting reads back: `sh` takes `quoted(t)` as exactly the one word `t`,
/// whatever `t` holds (`it's` becomes `'it'\''s'`).
pub proof fn quoting_reads_back(t: Seq<char>)
    ensures
        sh_unquoted(quoted(t)) == Some(t),
{
    let q = quoted(t);
    assert(q.drop_first() =~= escaped(t) + seq!['\'']);
    lemma_read_escaped(t, seq!['\'']);
    let close = seq!['\''];
    assert(close.drop_first() =~= Seq::<char>::empty());
    assert(sh_unquoted(close.drop_first()) == Some(Seq::<char>::empty()));
    assert(sh_quoted(close) == Some(Seq::<char>::empty()));
    assert(q[0] == '\'');
    assert(t + Seq::<char>::empty() =~= t);
}

/// The quoted file name of `p`, empty where it has none.
pub open spec fn name_text(p: Seq<char>) -> Seq<char> {
    quoted(
        match file_name(p) {
            Some(n) => n,
            None => Seq::empty(),
        },
    )
}

/// The directory of `p`, the root where it has none.
pub open spec fn dir_of(p: Seq<char>) -> Seq<char> {
    match parent(p) {
        Some(d) => d,
        None => seq!['/'],
    }
}

/// All of `files`, each quoted, separated by spaces.
pub open spec fn joined(files: Seq<Seq<char>>) -> Seq<char>
    decreases files.len(),
{
    if files.len() == 0 {
        Seq::empty()
    } else if files.len() == 1 {
        quoted(files[0])
    } else {
        joined(files.drop_last()).push(' ') + quoted(files.last())
    }
}

/// The placeholders, longest first where one starts another.
pub open spec fn token(k: int) -> Seq<char> {
    if k == 0 {
        seq!['{', '/', '.', '}']
    } else if k == 1 {
        seq!['{', '/', '/', '}']
    } else if k == 2 {
        seq!['{', '/', '}']
    } else if k == 3 {
        seq!['{', '.', '}']
    } else if k == 4 {
        seq!['{', '+', '}']
    } else {
        seq!['{', '}']
    }
}

/// Which placeholder `t` starts with, or -1.
pub open spec fn token_at(t: Seq<char>) -> int {
    if crate::text::begins(t, token(0)) {
        0
    } else if crate::text::begins(t, token(1)) {
        1
    } else if crate::text::begins(t, token(2)) {
        2
    } else if crate::text::begins(t, token(3)) {
        3
    } else if crate::text::begins(t, token(4)) {
        4
    } else if crate::text::begins(t, token(5)) {
        5
    } else {
        -1
    }
}

/// What placeholder `k` stands for with `file` among `all`.
pub open spec fn token_value(k: int, file: Seq<char>, all: Seq<Seq<char>>) -> Seq<char> {
    if k == 0 {
        name_text(without_extension(file))
    } else if k == 1 {
        quoted(dir_of(file))
    } else if k == 2 {
        name_text(file)
    } else if k == 3 {
        quoted(without_extension(file))
    } else if k == 4 {
        joined(all)
    } else {
        quoted(file)
    }
}

/// `t` with each placeholder replaced by its value; any other `{` stays.
pub open spec fn filled(t: Seq<char>, file: Seq<char>, all: Seq<Seq<char>>) -> Seq<char>
    decreases t.len(),
{
    if t.len() == 0 {
        t
    } else if token_at(t) >= 0 {
        token_value(token_at(t), file, all) + filled(
            t.subrange(token(token_at(t)).len() as int, t.len() as int),
            file,
            all,
        )
    } else {
        seq![t[0]] + filled(t.drop_first(), file, all)
    }
}

/// Does `t` use a placeholder that stands for one file?
pub open spec fn per_file(t: Seq<char>) -> bool {
    occurs(t, token(0)) || occurs(t, token(1)) || occurs(t, token(2)) || occurs(t, token(3)) || occurs(t, token(5))
}

/// Does `t` use the placeholder for all files at once?
pub open spec fn all_at_once(t: Seq<char>) -> bool {
    occurs(t, token(4))
}

fn token_chars(k: usize) -> (r: Vec<char>)
    requires
        k < 6,
    ensures
        r@ == token(k as int),
{
    let mut r: Vec<char> = Vec::new();
    r.push('{');
    if k == 0 {
        r.push('/');
        r.push('.');
    } else if k == 1 {
        r.push('/');
        r.push('/');
    } else if k == 2 {
        r.push('/');
    } else if k == 3 {
        r.push('.');
    } else if k == 4 {
        r.push('+');
    }
    r.push('}');
    assert(r@ =~= token(k as int));
    r
}

/// Quote `text` for `sh`: safe for any path.
pub fn quote(text: &[char]) -> (r: Vec<char>)
    ensures
        r@ == quoted(text@),
{
    let mut out: Vec<char> = Vec::new();
    out.push('\'');
    let mut i: usize = 0;
    while i < text.len()
        invariant
            i <= text.len(),
            out@ == seq!['\''] + escaped(text@.subrange(0, i as int)),
        decreases text.len() - i,
    {
        let ghost before = text@.subrange(0, i as int);
        assert(text@.subrange(0, i + 1).drop_last() =~= before);
        if text[i] == '\'' {
            out.push('\'');
            out.push('\\');
            out.push('\'');
            out.push('\'');
        } else {
            out.push(text[i]);
        }
        i = i + 1;
        assert(out@ =~= seq!['\''] + escaped(text@.subrange(0, i as int)));
    }
    out.push('\'');
    assert(text@.subrange(0, text.len() as int) =~= text@);
    assert(out@ =~= quoted(text@));
    out
}

/// `p` without the extension of its file name.
fn without_extension_text(p: &[char]) -> (r: Vec<char>)
    ensures
        r@ == without_extension(p@),
{
    crate::paths::without_extension_of(p)
}

fn name_quoted(p: &[char]) -> (r: Vec<char>)
    ensures
        r@ == name_text(p@),
{
    match crate::paths::file_name_of(p) {
        Some(n) => quote(&n),
        None => {
            let empty: Vec<char> = Vec::new();
            assert(empty@ =~= Seq::<char>::empty());
            quote(&empty)
        },
    }
}

pub(crate) fn dir_text(p: &[char]) -> (r: Vec<char>)
    ensures
        r@ == dir_of(p@),
{
    match crate::paths::parent_of(p) {
        Some(d) => d,
        None => {
            let mut r: Vec<char> = Vec::new();
            r.push('/');
            assert(r@ =~= seq!['/']);
            r
        },
    }
}

fn all_quoted(all: &Vec<Vec<char>>) -> (r: Vec<char>)
    ensures
        r@ == joined(all@.map_values(|f: Vec<char>| f@)),
{
    let ghost files = all@.map_values(|f: Vec<char>| f@);
    let mut out: Vec<char> = Vec::new();
    let mut i: usize = 0;
    while i < all.len()
        invariant
            i <= all.len(),
            files == all@.map_values(|f: Vec<char>| f@),
            out@ == joined(files.subrange(0, i as int)),
        decreases all.len() - i,
    {
        let q = quote(&all[i]);
        let ghost before = files.subrange(0, i as int);
        assert(files.subrange(0, i + 1).drop_last() =~= before);
        assert(files.subrange(0, i + 1).last() == all@[i as int]@);
        if i > 0 {
            out.push(' ');
        } else {
            assert(out@ =~= Seq::<char>::empty());
        }
        crate::text::push_all(&mut out, &q);
        i = i + 1;
        assert(out@ =~= joined(files.subrange(0, i as int)));
    }
    assert(files.subrange(0, all.len() as int) =~= files);
    out
}

/// The spelled-out form of `filled`, one step: what a prefix of the
/// template starting at `i` gives.
proof fn lemma_filled_step(t: Seq<char>, i: int, file: Seq<char>, all: Seq<Seq<char>>)
    requires
        0 <= i < t.len(),
    ensures
        token_at(t.subrange(i, t.len() as int)) >= 0 ==> {
            let k = token_at(t.subrange(i, t.len() as int));
            &&& i + token(k).len() <= t.len()
            &&& filled(t.subrange(i, t.len() as int), file, all) == token_value(k, file, all) + filled(
                t.subrange(i + token(k).len(), t.len() as int),
                file,
                all,
            )
        },
        token_at(t.subrange(i, t.len() as int)) < 0 ==> filled(t.subrange(i, t.len() as int), file, all) == seq![t[i]]
            + filled(t.subrange(i + 1, t.len() as int), file, all),
{
    let r = t.subrange(i, t.len() as int);
    let k = token_at(r);
    if k >= 0 {
        assert(r.subrange(token(k).len() as int, r.len() as int) =~= t.subrange(i + token(k).len(), t.len() as int));
    } else {
        assert(r.drop_first() =~= t.subrange(i + 1, t.len() as int));
    }
}

/// Which placeholder the template starts with at `i`, or 6.
fn token_here(t: &[char], i: usize) -> (k: usize)
    requires
        i <= t.len(),
    ensures
        k <= 6,
        k < 6 <==> token_at(t@.subrange(i as int, t@.len() as int)) >= 0,
        k < 6 ==> k == token_at(t@.subrange(i as int, t@.len() as int)),
{
    let rest = crate::text::slice_chars(t, i, t.len());
    let mut k: usize = 0;
    while k < 6
        invariant
            k <= 6,
            rest@ == t@.subrange(i as int, t@.len() as int),
            forall|j: int| 0 <= j < k ==> !crate::text::begins(rest@, #[trigger] token(j)),
        decreases 6 - k,
    {
        let tok = token_chars(k);
        if crate::text::starts_with(&rest, &tok) {
            return k;
        }
        k = k + 1;
    }
    k
}

/// `template` with each placeholder replaced by its value for `file`
/// among `all`. Any other `{` passes through.
fn fill(template: &[char], file: &[char], all: &Vec<Vec<char>>) -> (r: Vec<char>)
    ensures
        r@ == filled(template@, file@, all@.map_values(|f: Vec<char>| f@)),
{
    let ghost files = all@.map_values(|f: Vec<char>| f@);
    let mut values: Vec<Vec<char>> = Vec::new();
    values.push(name_quoted(&without_extension_text(file)));
    let d = dir_text(file);
    values.push(quote(&d));
    values.push(name_quoted(file));
    let w = without_extension_text(file);
    values.push(quote(&w));
    values.push(all_quoted(all));
    values.push(quote(file));
    assert forall|k: int| 0 <= k < 6 implies #[trigger] values@[k]@ == token_value(k, file@, files) by {}
    let mut out: Vec<char> = Vec::new();
    let mut i: usize = 0;
    assert(template@.subrange(0, template@.len() as int) =~= template@);
    assert(out@ + template@ =~= template@);
    assert(out@ + filled(template@, file@, files) =~= filled(template@, file@, files));
    while i < template.len()
        invariant
            i <= template.len(),
            values.len() == 6,
            files == all@.map_values(|f: Vec<char>| f@),
            forall|k: int| 0 <= k < 6 ==> #[trigger] values@[k]@ == token_value(k, file@, files),
            out@ + filled(template@.subrange(i as int, template@.len() as int), file@, files) == filled(
                template@,
                file@,
                files,
            ),
        decreases template.len() - i,
    {
        proof {
            lemma_filled_step(template@, i as int, file@, files);
        }
        let k = token_here(template, i);
        if k < 6 {
            let ghost before = out@;
            crate::text::push_all(&mut out, &values[k]);
            let ghost len = token(k as int).len();
            assert(out@ + filled(template@.subrange(i + len, template@.len() as int), file@, files) =~= before
                + filled(template@.subrange(i as int, template@.len() as int), file@, files));
            i = if k == 0 || k == 1 {
                i + 4
            } else if k == 5 {
                i + 2
            } else {
                i + 3
            };
        } else {
            let ghost before = out@;
            out.push(template[i]);
            assert(out@ + filled(template@.subrange(i + 1, template@.len() as int), file@, files) =~= before
                + filled(template@.subrange(i as int, template@.len() as int), file@, files));
            i = i + 1;
        }
    }
    assert(template@.subrange(i as int, template@.len() as int) =~= Seq::<char>::empty());
    assert(out@ + Seq::<char>::empty() =~= out@);
    out
}

/// The jobs `expand` makes of `t` for `files`: one per file, or one for all
/// of them when `t` uses `{+}`.
pub open spec fn job_line(t: Seq<char>, files: Seq<Seq<char>>, i: int) -> Seq<char> {
    filled(t, files[i], files)
}

/// Why `template` cannot run over `files`, trimmed first: no files, `{+}`
/// mixed with per-file placeholders, or neither kind.
pub open spec fn refused(template: Seq<char>, fs: Seq<Seq<char>>, e: Seq<char>) -> bool {
    let t = trim(template);
    ||| (fs.len() == 0 && e == "no images to run this on"@)
    ||| (fs.len() > 0 && all_at_once(t) && per_file(t)
        && e == "{+} (all at once) cannot be mixed with per-file placeholders"@)
    ||| (fs.len() > 0 && !all_at_once(t) && !per_file(t)
        && e == "say where the files go: {} for each file, {+} for all at once"@)
}

/// `jobs` are what `template`, trimmed, runs over `fs`: one line over all
/// of them in the first one's directory, or a line per file in its own.
pub open spec fn expanded_to(template: Seq<char>, fs: Seq<Seq<char>>, jobs: Seq<Job>) -> bool {
    let t = trim(template);
    &&& fs.len() > 0
    &&& all_at_once(t) != per_file(t)
    &&& all_at_once(t) ==> {
        &&& jobs.len() == 1
        &&& jobs[0].line@ == job_line(t, fs, 0)
        &&& jobs[0].cwd@ == dir_of(fs[0])
        &&& jobs[0].files@ == Seq::new(fs.len(), |i: int| i as usize)
    }
    &&& per_file(t) ==> {
        &&& jobs.len() == fs.len()
        &&& forall|i: int| 0 <= i < fs.len() ==> {
            &&& (#[trigger] jobs[i]).line@ == job_line(t, fs, i)
            &&& jobs[i].cwd@ == dir_of(fs[i])
            &&& jobs[i].files@ == seq![i as usize]
        }
    }
}

/// One job per file, or a single job when the template uses `{+}`.
/// Placeholders are quoted for the shell; don't quote them again. The
/// template is trimmed first. Refused: no files, a template that mixes
/// `{+}` with per-file placeholders, and one that has neither.
pub fn expand(template: &str, files: &[String]) -> (r: Result<Vec<Job>, String>)
    ensures
        match r {
            Err(e) => refused(template@, files@.map_values(|f: String| f@), e@),
            Ok(jobs) => expanded_to(template@, files@.map_values(|f: String| f@), jobs@),
        },
{
    let raw = crate::text::chars_of(template);
    let t = crate::text::trimmed(&raw);
    let ghost fs = files@.map_values(|f: String| f@);
    let all = crate::text::contains_text(&t, &token_chars(4));
    let per = crate::text::contains_text(&t, &token_chars(0)) || crate::text::contains_text(&t, &token_chars(1))
        || crate::text::contains_text(&t, &token_chars(2)) || crate::text::contains_text(&t, &token_chars(3))
        || crate::text::contains_text(&t, &token_chars(5));
    if files.len() == 0 {
        return Err("no images to run this on".to_owned());
    }
    if all && per {
        return Err("{+} (all at once) cannot be mixed with per-file placeholders".to_owned());
    }
    if !all && !per {
        return Err("say where the files go: {} for each file, {+} for all at once".to_owned());
    }
    let mut paths: Vec<Vec<char>> = Vec::new();
    let mut i: usize = 0;
    while i < files.len()
        invariant
            i <= files.len(),
            fs == files@.map_values(|f: String| f@),
            paths.len() == i,
            paths@.map_values(|f: Vec<char>| f@) == fs.subrange(0, i as int),
        decreases files.len() - i,
    {
        let p = crate::text::chars_of(files[i].as_str());
        assert(p@ == fs[i as int]);
        let ghost before = paths@;
        paths.push(p);
        assert(paths@ =~= before.push(p));
        assert forall|j: int| 0 <= j < i implies #[trigger] paths@[j]@ == fs[j] by {
            assert(before.map_values(|f: Vec<char>| f@)[j] == fs.subrange(0, i as int)[j]);
        }
        i = i + 1;
        assert(paths@.map_values(|f: Vec<char>| f@) =~= fs.subrange(0, i as int));
    }
    assert(fs.subrange(0, files.len() as int) =~= fs);
    let mut jobs: Vec<Job> = Vec::new();
    if all {
        let line = fill(&t, &paths[0], &paths);
        let cwd = dir_text(&paths[0]);
        let mut ids: Vec<usize> = Vec::new();
        let mut k: usize = 0;
        while k < files.len()
            invariant
                k <= files.len(),
                ids@ == Seq::new(k as nat, |j: int| j as usize),
            decreases files.len() - k,
        {
            ids.push(k);
            k = k + 1;
            assert(ids@ =~= Seq::new(k as nat, |j: int| j as usize));
        }
        jobs.push(Job { line: crate::text::string_of(&line), cwd: crate::text::string_of(&cwd), files: ids });
        return Ok(jobs);
    }
    let mut k: usize = 0;
    while k < files.len()
        invariant
            k <= files.len(),
            paths.len() == files.len(),
            paths@.map_values(|f: Vec<char>| f@) == fs,
            jobs.len() == k,
            forall|j: int| 0 <= j < k ==> {
                &&& (#[trigger] jobs@[j]).line@ == job_line(t@, fs, j)
                &&& jobs@[j].cwd@ == dir_of(fs[j])
                &&& jobs@[j].files@ == seq![j as usize]
            },
        decreases files.len() - k,
    {
        let line = fill(&t, &paths[k], &paths);
        let cwd = dir_text(&paths[k]);
        let mut ids: Vec<usize> = Vec::new();
        ids.push(k);
        assert(ids@ =~= seq![k]);
        jobs.push(Job { line: crate::text::string_of(&line), cwd: crate::text::string_of(&cwd), files: ids });
        k = k + 1;
    }
    Ok(jobs)
}


/// The first line of `ls` that is not blank.
pub open spec fn first_nonblank(ls: Seq<Seq<char>>) -> Option<Seq<char>>
    decreases ls.len(),
{
    if ls.len() == 0 {
        None
    } else if trim(ls[0]).len() > 0 {
        Some(ls[0])
    } else {
        first_nonblank(ls.drop_first())
    }
}

/// `v` in decimal, with a minus sign where it is negative.
pub open spec fn signed_decimal(v: int) -> Seq<char> {
    if v < 0 {
        seq!['-'] + crate::text::decimal((-v) as nat)
    } else {
        crate::text::decimal(v as nat)
    }
}

/// What a failed command is reported with: the first line it wrote to
/// stderr that is not blank, else its exit status (-1 where it has none,
/// killed by a signal).
pub open spec fn complaint_spec(stderr: Seq<u8>, code: Option<i32>) -> Seq<char> {
    match first_nonblank(crate::text::lines(crate::text::utf8_lossy(stderr))) {
        Some(l) => l,
        None => "exit status "@ + signed_decimal(
            match code {
                Some(c) => c as int,
                None => -1,
            },
        ),
    }
}

/// What a failed command is reported with, given what it wrote to stderr
/// and its exit code.
pub fn complaint(stderr: &[u8], code: Option<i32>) -> (r: String)
    ensures
        r@ == complaint_spec(stderr@, code),
{
    let text = crate::text::from_utf8_lossy(stderr);
    let ls = crate::text::lines_of(&crate::text::chars_of(text.as_str()));
    let ghost all = ls@.map_values(|l: Vec<char>| l@);
    assert(all.subrange(0, all.len() as int) =~= all);
    let mut k: usize = 0;
    while k < ls.len()
        invariant
            k <= ls.len(),
            all == ls@.map_values(|l: Vec<char>| l@),
            all == crate::text::lines(text@),
            text@ == crate::text::utf8_lossy(stderr@),
            first_nonblank(all) == first_nonblank(all.subrange(k as int, all.len() as int)),
        decreases ls.len() - k,
    {
        let ghost rest = all.subrange(k as int, all.len() as int);
        assert(rest.drop_first() =~= all.subrange(k + 1, all.len() as int));
        assert(rest[0] == ls@[k as int]@);
        if crate::text::trimmed(&ls[k]).len() > 0 {
            return crate::text::string_of(&ls[k]);
        }
        k = k + 1;
    }
    assert(all.subrange(k as int, all.len() as int) =~= Seq::<Seq<char>>::empty());
    assert(first_nonblank(Seq::<Seq<char>>::empty()) is None);
    assert(first_nonblank(all) is None);
    let v: i64 = match code {
        Some(c) => c as i64,
        None => -1,
    };
    let digits = if v < 0 {
        crate::text::cat("-", crate::text::decimal_string((-v) as usize).as_str())
    } else {
        crate::text::decimal_string(v as usize)
    };
    assert(v as int == (match code {
        Some(c) => c as int,
        None => -1,
    }));
    proof {
        reveal_strlit("-");
    }
    assert(digits@ == signed_decimal(v as int));
    crate::text::cat("exit status ", digits.as_str())
}

} // verus!
