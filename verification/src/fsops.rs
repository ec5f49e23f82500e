//! File operations, planned and checked for collisions in full before the
//! first file is touched. The library decides; the caller asks the file
//! system and carries out the actions it is handed.

use vstd::prelude::*;

use crate::paths::{file_name, join, parent, same_path};
use crate::shell::dir_of;
use crate::text::{decimal, is_digit};

verus! {

/// What a plan does with each file.
#[derive(Debug, Clone, Copy, PartialEq, Eq, Structural)]
pub enum Op {
    Move,
    Copy,
    /// Symbolic links in the folder, pointing at the originals.
    Symlink,
    /// Hard links: second names for the same data, same filesystem only.
    Hardlink,
    /// Rename in place, each file staying in its own directory.
    Rename,
}

/// One file and where it goes.
#[derive(Debug, Clone, PartialEq, Eq)]
pub struct Step {
    pub src: String,
    pub dst: String,
}

/// A checked set of steps.
#[derive(Debug)]
pub struct Plan {
    pub op: Op,
    pub steps: Vec<Step>,
}

/// What the file system says of the two paths of a step, asked before
/// anything is touched.
#[derive(Debug, Clone, Copy, PartialEq, Eq, Structural)]
pub struct Probe {
    /// The source is a regular file.
    pub source_is_file: bool,
    /// Something, even a dangling link, has the target's name.
    pub target_exists: bool,
}

/// A step seen as values: (source, target).
pub type StepModel = (Seq<char>, Seq<char>);

pub open spec fn step_model(s: Step) -> StepModel {
    (s.src@, s.dst@)
}

/// The width of an order prefix for `count` files: enough digits for
/// `count`, at least three.
pub open spec fn width_for(count: nat) -> nat {
    if decimal(count).len() > 3 {
        decimal(count).len()
    } else {
        3
    }
}

/// `001_`-style prefix width: enough digits for `count`, at least three.
pub fn prefix_width(count: usize) -> (r: usize)
    ensures
        r == width_for(count as nat),
{
    let digits = crate::text::decimal_string(count);
    let n = crate::text::chars_of(digits.as_str()).len();
    if n > 3 {
        n
    } else {
        3
    }
}

/// How many ASCII digits `s` starts with.
pub open spec fn leading_digits(s: Seq<char>) -> nat
    decreases s.len(),
{
    if s.len() > 0 && is_digit(s[0]) {
        1 + leading_digits(s.drop_first())
    } else {
        0
    }
}

/// `name` without an order prefix (three or more digits and an
/// underscore) where something follows it.
pub open spec fn stripped(name: Seq<char>) -> Seq<char> {
    let d = leading_digits(name);
    if d >= 3 && d + 1 < name.len() && name[d as int] == '_' {
        name.subrange(d + 1int, name.len() as int)
    } else {
        name
    }
}

proof fn lemma_leading_digits(s: Seq<char>, i: int)
    requires
        0 <= i <= s.len(),
        forall|j: int| 0 <= j < i ==> is_digit(#[trigger] s[j]),
    ensures
        leading_digits(s) == i + leading_digits(s.subrange(i, s.len() as int)),
    decreases i,
{
    if i > 0 {
        lemma_leading_digits(s.drop_first(), i - 1);
        assert(s.drop_first().subrange(i - 1, s.drop_first().len() as int) =~= s.subrange(i, s.len() as int));
    } else {
        assert(s.subrange(0, s.len() as int) =~= s);
    }
}

/// Drop a previous order prefix (three or more digits and an underscore),
/// so re-exporting doesn't stack prefixes.
pub fn strip_order_prefix(name: &str) -> (r: String)
    ensures
        r@ == stripped(name@),
{
    let s = crate::text::chars_of(name);
    let mut d: usize = 0;
    while d < s.len() && '0' <= s[d] && s[d] <= '9'
        invariant
            d <= s.len(),
            forall|j: int| 0 <= j < d ==> is_digit(#[trigger] s@[j]),
        decreases s.len() - d,
    {
        d = d + 1;
    }
    proof {
        lemma_leading_digits(s@, d as int);
        let rest = s@.subrange(d as int, s@.len() as int);
        assert(rest.len() == 0 || !is_digit(rest[0]));
    }
    if d >= 3 && d < s.len() && s.len() - d > 1 && s[d] == '_' {
        crate::text::string_of(&crate::text::slice_chars(&s, d + 1, s.len()))
    } else {
        crate::text::string_of(&s)
    }
}

/// `n` in decimal, padded with zeros in front to at least `width` digits.
pub open spec fn padded(n: nat, width: nat) -> Seq<char> {
    let ds = decimal(n);
    if ds.len() >= width {
        ds
    } else {
        Seq::new((width - ds.len()) as nat, |i: int| '0') + ds
    }
}

fn padded_of(n: usize, width: usize) -> (r: Vec<char>)
    ensures
        r@ == padded(n as nat, width as nat),
{
    let digits = crate::text::decimal_string(n);
    let ds = crate::text::chars_of(digits.as_str());
    if ds.len() >= width {
        return ds;
    }
    let mut out: Vec<char> = Vec::new();
    let zeros = width - ds.len();
    while out.len() < zeros
        invariant
            out.len() <= zeros,
            forall|i: int| 0 <= i < out.len() ==> out@[i] == '0',
        decreases zeros - out.len(),
    {
        out.push('0');
    }
    assert(out@ =~= Seq::new(zeros as nat, |i: int| '0'));
    crate::text::push_all(&mut out, &ds);
    out
}

/// The name a file of name `name` gets at place `i` of `count`.
pub open spec fn target_name(name: Seq<char>, i: nat, count: nat, order_prefix: bool) -> Seq<char> {
    if order_prefix {
        padded(i + 1, width_for(count)) + seq!['_'] + stripped(name)
    } else {
        name
    }
}

/// Where step `i` of a plan for `files` puts its file; `None` for a file
/// without a usable name.
pub open spec fn planned_step(
    op: Op,
    files: Seq<Seq<char>>,
    dest: Seq<char>,
    order_prefix: bool,
    i: int,
) -> Option<StepModel> {
    match file_name(files[i]) {
        None => None,
        Some(name) => {
            let dir = if op == Op::Rename {
                dir_of(files[i])
            } else {
                dest
            };
            Some((files[i], join(dir, target_name(name, i as nat, files.len(), order_prefix))))
        },
    }
}

/// The steps of a plan for `files`, or why there is none: no files, or
/// the first file without a usable name.
pub open spec fn planned(op: Op, files: Seq<Seq<char>>, dest: Seq<char>, order_prefix: bool) -> Result<
    Seq<StepModel>,
    Seq<char>,
> {
    if files.len() == 0 {
        Err("no images in this workspace"@)
    } else if exists|i: int| 0 <= i < files.len() && file_name(#[trigger] files[i]) is None {
        let k = choose|k: int|
            0 <= k < files.len() && file_name(#[trigger] files[k]) is None && forall|j: int|
                0 <= j < k ==> file_name(#[trigger] files[j]) is Some;
        Err("unusable file name: "@ + files[k])
    } else {
        Ok(Seq::new(files.len(), |i: int| planned_step(op, files, dest, order_prefix, i)->0))
    }
}

/// The latest step before `k` whose target is `dst`.
pub open spec fn earlier_same_target_before(steps: Seq<StepModel>, k: int, dst: Seq<char>) -> Option<int>
    decreases k,
{
    if k <= 0 {
        None
    } else if same_path(steps[k - 1].1, dst) {
        Some(k - 1)
    } else {
        earlier_same_target_before(steps, k - 1, dst)
    }
}

/// Is `p` the source of some step?
pub open spec fn is_source(steps: Seq<StepModel>, p: Seq<char>) -> bool {
    exists|j: int| 0 <= j < steps.len() && same_path(#[trigger] steps[j].0, p)
}

/// What is wrong with step `i`, in the order it is reported.
pub open spec fn step_problems(op: Op, steps: Seq<StepModel>, probes: Seq<Probe>, i: int) -> Seq<Seq<char>> {
    let (src, dst) = steps[i];
    let missing = if !probes[i].source_is_file {
        seq!["missing: "@ + src]
    } else {
        Seq::empty()
    };
    let twice = match earlier_same_target_before(steps, i, dst) {
        Some(j) => seq![steps[j].0 + " and "@ + src + " would both become "@ + dst],
        None => Seq::empty(),
    };
    let occupied = if same_path(dst, src) {
        if op != Op::Rename {
            seq![src + " is already there"@]
        } else {
            Seq::empty()
        }
    } else if probes[i].target_exists && !(op == Op::Rename && is_source(steps, dst)) {
        seq!["exists: "@ + dst]
    } else {
        Seq::empty()
    };
    missing + twice + occupied
}

/// Everything wrong with the first `k` steps.
pub open spec fn problems(op: Op, steps: Seq<StepModel>, probes: Seq<Probe>, k: nat) -> Seq<Seq<char>>
    decreases k,
{
    if k == 0 {
        Seq::empty()
    } else {
        problems(op, steps, probes, (k - 1) as nat) + step_problems(op, steps, probes, k - 1)
    }
}

/// `items` separated by `; `.
pub open spec fn joined_problems(items: Seq<Seq<char>>) -> Seq<char>
    decreases items.len(),
{
    if items.len() == 0 {
        Seq::empty()
    } else if items.len() == 1 {
        items[0]
    } else {
        joined_problems(items.drop_last()) + "; "@ + items.last()
    }
}

/// The report of `found`: the first three, and how many more there are.
pub open spec fn report(found: Seq<Seq<char>>) -> Seq<char> {
    if found.len() <= 3 {
        joined_problems(found)
    } else {
        joined_problems(found.subrange(0, 3)) + "; and "@ + decimal((found.len() - 3) as nat) + " more"@
    }
}

/// Why `steps` cannot run, or `None` where they can.
pub open spec fn refusal(op: Op, steps: Seq<StepModel>, probes: Seq<Probe>) -> Option<Seq<char>> {
    let found = problems(op, steps, probes, steps.len());
    if found.len() == 0 {
        None
    } else {
        Some(report(found))
    }
}

fn text_of(s: &String) -> (r: Vec<char>)
    ensures
        r@ == s@,
{
    crate::text::chars_of(s.as_str())
}

fn same_path_text(a: &String, b: &String) -> (r: bool)
    ensures
        r == same_path(a@, b@),
{
    crate::paths::same_path_of(&text_of(a), &text_of(b))
}

/// The latest step before `k` whose target is `dst`.
fn latest_target(steps: &[Step], k: usize, dst: &String) -> (r: Option<usize>)
    requires
        k <= steps.len(),
    ensures
        r matches Some(j) ==> j < k,
        match r {
            Some(j) => earlier_same_target_before(steps@.map_values(|s: Step| step_model(s)), k as int, dst@)
                == Some(j as int),
            None => earlier_same_target_before(steps@.map_values(|s: Step| step_model(s)), k as int, dst@) is None,
        },
{
    let ghost m = steps@.map_values(|s: Step| step_model(s));
    let mut j: usize = k;
    while j > 0
        invariant
            j <= k <= steps.len(),
            m == steps@.map_values(|s: Step| step_model(s)),
            earlier_same_target_before(m, k as int, dst@) == earlier_same_target_before(m, j as int, dst@),
        decreases j,
    {
        if same_path_text(&steps[j - 1].dst, dst) {
            return Some(j - 1);
        }
        j = j - 1;
    }
    None
}

/// Is `p` the source of some step?
fn source_among(steps: &[Step], p: &String) -> (r: bool)
    ensures
        r == is_source(steps@.map_values(|s: Step| step_model(s)), p@),
{
    let ghost m = steps@.map_values(|s: Step| step_model(s));
    let mut j: usize = 0;
    while j < steps.len()
        invariant
            j <= steps.len(),
            m == steps@.map_values(|s: Step| step_model(s)),
            forall|i: int| 0 <= i < j ==> !same_path(#[trigger] m[i].0, p@),
        decreases steps.len() - j,
    {
        if same_path_text(&steps[j].src, p) {
            assert(same_path(m[j as int].0, p@));
            return true;
        }
        j = j + 1;
    }
    false
}

fn push_text(out: &mut Vec<char>, s: &str)
    ensures
        final(out)@ == old(out)@ + s@,
{
    crate::text::push_all(out, &crate::text::chars_of(s));
}

/// Everything wrong with step `i`.
fn problems_of_step(op: Op, steps: &[Step], probes: &[Probe], i: usize) -> (r: Vec<Vec<char>>)
    requires
        i < steps.len(),
        probes.len() == steps.len(),
    ensures
        r@.map_values(|p: Vec<char>| p@) == step_problems(
            op,
            steps@.map_values(|s: Step| step_model(s)),
            probes@,
            i as int,
        ),
{
    let ghost m = steps@.map_values(|s: Step| step_model(s));
    let src = &steps[i].src;
    let dst = &steps[i].dst;
    assert(m[i as int] == (src@, dst@));
    let mut found: Vec<Vec<char>> = Vec::new();
    let ghost want = step_problems(op, m, probes@, i as int);
    if !probes[i].source_is_file {
        let mut line: Vec<char> = Vec::new();
        push_text(&mut line, "missing: ");
        crate::text::push_all(&mut line, &text_of(src));
        found.push(line);
    }
    let ghost missing = found@.map_values(|p: Vec<char>| p@);
    match latest_target(steps, i, dst) {
        Some(j) => {
            let mut line = text_of(&steps[j].src);
            assert(m[j as int].0 == steps@[j as int].src@);
            push_text(&mut line, " and ");
            crate::text::push_all(&mut line, &text_of(src));
            push_text(&mut line, " would both become ");
            crate::text::push_all(&mut line, &text_of(dst));
            let ghost before = found@;
            found.push(line);
            proof {
                crate::text::lemma_map_push(before, line, |p: Vec<char>| p@);
            }
        },
        None => {},
    }
    let ghost twice = found@.map_values(|p: Vec<char>| p@);
    if same_path_text(dst, src) {
        if op != Op::Rename {
            let mut line = text_of(src);
            push_text(&mut line, " is already there");
            let ghost before = found@;
            found.push(line);
            proof {
                crate::text::lemma_map_push(before, line, |p: Vec<char>| p@);
            }
        }
    } else if probes[i].target_exists && !(op == Op::Rename && source_among(steps, dst)) {
        let mut line: Vec<char> = Vec::new();
        push_text(&mut line, "exists: ");
        crate::text::push_all(&mut line, &text_of(dst));
        let ghost before = found@;
        found.push(line);
        proof {
            crate::text::lemma_map_push(before, line, |p: Vec<char>| p@);
        }
    }
    assert(found@.map_values(|p: Vec<char>| p@) =~= want);
    found
}

/// `found` as reported: the first three separated by `; `, and how many
/// more there are.
fn report_of(found: &Vec<Vec<char>>) -> (r: Vec<char>)
    ensures
        r@ == report(found@.map_values(|p: Vec<char>| p@)),
{
    let ghost all = found@.map_values(|p: Vec<char>| p@);
    let shown = if found.len() < 3 {
        found.len()
    } else {
        3
    };
    let mut out: Vec<char> = Vec::new();
    let mut k: usize = 0;
    while k < shown
        invariant
            k <= shown <= found.len(),
            shown <= 3,
            all == found@.map_values(|p: Vec<char>| p@),
            out@ == joined_problems(all.subrange(0, k as int)),
        decreases shown - k,
    {
        assert(all.subrange(0, k + 1).drop_last() =~= all.subrange(0, k as int));
        if k > 0 {
            push_text(&mut out, "; ");
        } else {
            assert(out@ =~= Seq::<char>::empty());
        }
        crate::text::push_all(&mut out, &found[k]);
        k = k + 1;
        assert(out@ =~= joined_problems(all.subrange(0, k as int)));
    }
    if found.len() > 3 {
        push_text(&mut out, "; and ");
        let more = crate::text::decimal_string(found.len() - 3);
        push_text(&mut out, more.as_str());
        push_text(&mut out, " more");
    } else {
        assert(all.subrange(0, found.len() as int) =~= all);
    }
    out
}

/// Check `steps` against what the file system said of their paths:
/// nothing may be missing, land twice on one name, stay where it is (but
/// for a rename) or replace something, unless a rename frees that name.
pub fn check(op: Op, steps: &[Step], probes: &[Probe]) -> (r: Result<(), String>)
    requires
        probes.len() == steps.len(),
    ensures
        match refusal(op, steps@.map_values(|s: Step| step_model(s)), probes@) {
            None => r is Ok,
            Some(msg) => r matches Err(e) && e@ == msg,
        },
{
    let ghost m = steps@.map_values(|s: Step| step_model(s));
    let mut found: Vec<Vec<char>> = Vec::new();
    let mut i: usize = 0;
    while i < steps.len()
        invariant
            i <= steps.len(),
            probes.len() == steps.len(),
            m == steps@.map_values(|s: Step| step_model(s)),
            found@.map_values(|p: Vec<char>| p@) == problems(op, m, probes@, i as nat),
        decreases steps.len() - i,
    {
        let more = problems_of_step(op, steps, probes, i);
        let ghost before = found@;
        let mut k: usize = 0;
        while k < more.len()
            invariant
                k <= more.len(),
                found@.map_values(|p: Vec<char>| p@) == before.map_values(|p: Vec<char>| p@) + more@.subrange(
                    0,
                    k as int,
                ).map_values(|p: Vec<char>| p@),
            decreases more.len() - k,
        {
            let line = crate::text::slice_chars(&more[k], 0, more[k].len());
            assert(line@ =~= more@[k as int]@);
            let ghost prev = found@;
            found.push(line);
            proof {
                crate::text::lemma_map_push(prev, line, |p: Vec<char>| p@);
                assert(more@.subrange(0, k + 1) =~= more@.subrange(0, k as int).push(more@[k as int]));
                crate::text::lemma_map_push(more@.subrange(0, k as int), more@[k as int], |p: Vec<char>| p@);
                assert(found@.map_values(|p: Vec<char>| p@) =~= before.map_values(|p: Vec<char>| p@) + more@.subrange(
                    0,
                    k + 1,
                ).map_values(|p: Vec<char>| p@));
            }
            k = k + 1;
        }
        assert(more@.subrange(0, more.len() as int) =~= more@);
        i = i + 1;
    }
    if found.len() == 0 {
        Ok(())
    } else {
        Err(crate::text::string_of(&report_of(&found)))
    }
}

/// The steps of a plan for `files` (in display order), not yet checked
/// against the file system; or why there is none. `dest` is ignored for
/// `Op::Rename`.
#[verifier::rlimit(50)]
pub fn steps(op: Op, files: &[String], dest: &str, order_prefix: bool) -> (r: Result<Vec<Step>, String>)
    ensures
        match planned(op, files@.map_values(|f: String| f@), dest@, order_prefix) {
            Err(e) => r matches Err(x) && x@ == e,
            Ok(steps) => r matches Ok(v) && v@.map_values(|s: Step| step_model(s)) == steps,
        },
{
    let ghost fs = files@.map_values(|f: String| f@);
    if files.len() == 0 {
        return Err("no images in this workspace".to_owned());
    }
    let width = prefix_width(files.len());
    let dest_chars = crate::text::chars_of(dest);
    let mut out: Vec<Step> = Vec::new();
    let mut i: usize = 0;
    while i < files.len()
        invariant
            i <= files.len(),
            fs == files@.map_values(|f: String| f@),
            width == width_for(files.len() as nat),
            dest_chars@ == dest@,
            out.len() == i,
            forall|j: int| 0 <= j < i ==> (#[trigger] planned_step(op, fs, dest@, order_prefix, j)) is Some,
            forall|j: int| 0 <= j < i ==> step_model(#[trigger] out@[j]) == planned_step(op, fs, dest@, order_prefix, j)->0,
        decreases files.len() - i,
    {
        let src = text_of(&files[i]);
        assert(src@ == fs[i as int]);
        let name = match crate::paths::file_name_of(&src) {
            Some(n) => n,
            None => {
                let mut msg: Vec<char> = Vec::new();
                push_text(&mut msg, "unusable file name: ");
                crate::text::push_all(&mut msg, &src);
                proof {
                    assert(file_name(fs[i as int]) is None);
                    assert forall|j: int| 0 <= j < i implies file_name(#[trigger] fs[j]) is Some by {
                        assert(planned_step(op, fs, dest@, order_prefix, j) is Some);
                    }
                    let k = choose|k: int|
                        0 <= k < fs.len() && file_name(#[trigger] fs[k]) is None && forall|j: int|
                            0 <= j < k ==> file_name(#[trigger] fs[j]) is Some;
                    assert(exists|k: int|
                        0 <= k < fs.len() && file_name(#[trigger] fs[k]) is None && forall|j: int|
                            0 <= j < k ==> file_name(#[trigger] fs[j]) is Some) by {
                        assert(file_name(fs[i as int]) is None);
                    }
                    if k < i {
                        assert(file_name(fs[k]) is Some);
                    } else if k > i {
                        assert(file_name(fs[i as int]) is Some);
                    }
                    assert(k == i);
                }
                return Err(crate::text::string_of(&msg));
            },
        };
        let target = if order_prefix {
            let mut t = padded_of(i + 1, width);
            t.push('_');
            let name_string = crate::text::string_of(&name);
            let rest = strip_order_prefix(name_string.as_str());
            crate::text::push_all(&mut t, &text_of(&rest));
            t
        } else {
            name
        };
        assert(target@ == target_name(file_name(fs[i as int])->0, i as nat, fs.len(), order_prefix));
        let dir = match op {
            Op::Rename => crate::shell::dir_text(&src),
            _ => crate::text::slice_chars(&dest_chars, 0, dest_chars.len()),
        };
        assert(dir@ == (if op == Op::Rename { dir_of(fs[i as int]) } else { dest@ }));
        let dst = crate::paths::join_of(&dir, &target);
        out.push(Step { src: files[i].clone(), dst: crate::text::string_of(&dst) });
        i = i + 1;
    }
    proof {
        assert(!(exists|i: int| 0 <= i < fs.len() && file_name(#[trigger] fs[i]) is None)) by {
            assert forall|i: int| 0 <= i < fs.len() implies file_name(#[trigger] fs[i]) is Some by {
                assert(planned_step(op, fs, dest@, order_prefix, i) is Some);
            }
        }
        let want = Seq::new(fs.len(), |i: int| planned_step(op, fs, dest@, order_prefix, i)->0);
        assert(out@.map_values(|s: Step| step_model(s)) =~= want);
    }
    Ok(out)
}

/// Build the plan for `files` (in display order) and check that it can run
/// without overwriting anything; `probes[i]` is what the file system says of
/// the paths of step `i`. `dest` is ignored for `Op::Rename`.
pub fn plan(op: Op, files: &[String], dest: &str, order_prefix: bool, probes: &[Probe]) -> (r: Result<Plan, String>)
    requires
        probes.len() == files.len(),
    ensures
        match planned(op, files@.map_values(|f: String| f@), dest@, order_prefix) {
            Err(e) => r matches Err(x) && x@ == e,
            Ok(steps) => match refusal(op, steps, probes@) {
                Some(msg) => r matches Err(x) && x@ == msg,
                None => r matches Ok(p) && p.op == op && p.steps@.map_values(|s: Step| step_model(s)) == steps,
            },
        },
{
    let steps = match steps(op, files, dest, order_prefix) {
        Ok(v) => v,
        Err(e) => return Err(e),
    };
    assert(steps@.len() == files@.len()) by {
        assert(steps@.map_values(|s: Step| step_model(s)).len() == files@.len());
    }
    match check(op, &steps, probes) {
        Ok(()) => Ok(Plan { op, steps }),
        Err(e) => Err(e),
    }
}

/// `input` trimmed, with a leading `~` standing for `home`. The caller
/// makes it absolute.
pub open spec fn expanded(input: Seq<char>, home: Seq<char>) -> Seq<char> {
    let t = crate::text::trim(input);
    if t.len() >= 1 && t[0] == '~' {
        let rest = t.drop_first();
        if rest.len() == 0 {
            home
        } else if rest[0] == '/' {
            join(home, rest.drop_first())
        } else {
            t
        }
    } else {
        t
    }
}

/// Expand a leading `~` of `input` to `home`; white space around it goes.
/// Making the result absolute is up to the caller.
pub fn expand(input: &str, home: &str) -> (r: String)
    ensures
        r@ == expanded(input@, home@),
{
    let raw = crate::text::chars_of(input);
    let t = crate::text::trimmed(&raw);
    if t.len() >= 1 && t[0] == '~' {
        if t.len() == 1 {
            return home.to_owned();
        }
        if t[1] == '/' {
            let rest = crate::text::slice_chars(&t, 2, t.len());
            let h = crate::text::chars_of(home);
            assert(rest@ =~= t@.drop_first().drop_first());
            return crate::text::string_of(&crate::paths::join_of(&h, &rest));
        }
    }
    crate::text::string_of(&t)
}

/// Is `name` offered when completing `partial`: it starts so, and it is
/// hidden only where `partial` is.
pub open spec fn offered(partial: Seq<char>, name: Seq<char>) -> bool {
    crate::text::begins(name, partial) && (crate::text::begins(partial, seq!['.']) || !crate::text::begins(
        name,
        seq!['.'],
    ))
}

/// The longest common beginning of `a` and `b`.
pub open spec fn common_prefix(a: Seq<char>, b: Seq<char>) -> Seq<char>
    decreases a.len(),
{
    if a.len() == 0 || b.len() == 0 || a[0] != b[0] {
        Seq::empty()
    } else {
        seq![a[0]] + common_prefix(a.drop_first(), b.drop_first())
    }
}

/// The longest beginning all of `ms` share.
pub open spec fn shared(ms: Seq<Seq<char>>) -> Seq<char>
    decreases ms.len(),
{
    if ms.len() == 0 {
        Seq::empty()
    } else if ms.len() == 1 {
        ms[0]
    } else {
        common_prefix(shared(ms.drop_last()), ms.last())
    }
}

/// Tab completion of `partial` in the directory written `head`, among the
/// directory names `names`: as much as all candidates share, and a `/`
/// when only one is left.
pub open spec fn completed(head: Seq<char>, partial: Seq<char>, names: Seq<Seq<char>>) -> Option<Seq<char>> {
    let ms = names.filter(|n: Seq<char>| offered(partial, n));
    if ms.len() == 0 {
        None
    } else {
        Some(
            head + seq!['/'] + shared(ms) + if ms.len() == 1 {
                seq!['/']
            } else {
                Seq::empty()
            },
        )
    }
}

/// What a directory prompt's `input` asks to complete: the directory as
/// written, before its last `/`, and the partial name after it.
pub open spec fn completion_split(input: Seq<char>) -> Option<(Seq<char>, Seq<char>)> {
    match input.index_of_last('/') {
        Some(i) => Some((input.subrange(0, i), input.subrange(i + 1, input.len() as int))),
        None => None,
    }
}

/// What a directory prompt's `input` asks to complete: the directory as
/// written, before its last `/`, and the partial name after it. `None`
/// where there is no `/`.
pub fn completion_parts(input: &str) -> (r: Option<(String, String)>)
    ensures
        match r {
            Some((head, partial)) => completion_split(input@) == Some((head@, partial@)),
            None => completion_split(input@) is None,
        },
{
    let s = crate::text::chars_of(input);
    let mut i: usize = s.len();
    while i > 0 && s[i - 1] != '/'
        invariant
            i <= s.len(),
            forall|j: int| i <= j < s.len() ==> s@[j] != '/',
        decreases i,
    {
        i = i - 1;
    }
    proof {
        s@.index_of_last_ensures('/');
    }
    if i == 0 {
        return None;
    }
    assert(s@.index_of_last('/') == Some(i - 1)) by {
        let l = s@.index_of_last('/')->0;
        if l > i - 1 {
            assert(s@[l] != '/');
        }
    }
    let head = crate::text::slice_chars(&s, 0, i - 1);
    let partial = crate::text::slice_chars(&s, i, s.len());
    Some((crate::text::string_of(&head), crate::text::string_of(&partial)))
}

fn common_prefix_of(a: &[char], b: &[char]) -> (r: Vec<char>)
    ensures
        r@ == common_prefix(a@, b@),
{
    let mut i: usize = 0;
    assert(a@.subrange(0, a@.len() as int) =~= a@);
    assert(b@.subrange(0, b@.len() as int) =~= b@);
    assert(a@.subrange(0, 0) + common_prefix(a@, b@) =~= common_prefix(a@, b@));
    while i < a.len() && i < b.len() && a[i] == b[i]
        invariant
            i <= a.len(),
            i <= b.len(),
            common_prefix(a@, b@) == a@.subrange(0, i as int) + common_prefix(
                a@.subrange(i as int, a@.len() as int),
                b@.subrange(i as int, b@.len() as int),
            ),
        decreases a.len() - i,
    {
        let ghost ra = a@.subrange(i as int, a@.len() as int);
        let ghost rb = b@.subrange(i as int, b@.len() as int);
        assert(ra.drop_first() =~= a@.subrange(i + 1, a@.len() as int));
        assert(rb.drop_first() =~= b@.subrange(i + 1, b@.len() as int));
        assert(a@.subrange(0, i + 1) =~= a@.subrange(0, i as int) + seq![ra[0]]);
        i = i + 1;
    }
    proof {
        let ra = a@.subrange(i as int, a@.len() as int);
        let rb = b@.subrange(i as int, b@.len() as int);
        if ra.len() > 0 && rb.len() > 0 {
            assert(ra[0] == a@[i as int] && rb[0] == b@[i as int]);
        }
        assert(common_prefix(ra, rb) =~= Seq::<char>::empty());
        assert(a@.subrange(0, i as int) + Seq::<char>::empty() =~= a@.subrange(0, i as int));
    }
    crate::text::slice_chars(a, 0, i)
}

/// Tab completion for directory prompts: the longest completion of
/// `partial` in the directory written `head` that the directory names
/// `names` allow; a `/` is added when only one name is left. `None` where
/// no name fits.
pub fn completion(head: &str, partial: &str, names: &[String]) -> (r: Option<String>)
    ensures
        match r {
            Some(c) => completed(head@, partial@, names@.map_values(|n: String| n@)) == Some(c@),
            None => completed(head@, partial@, names@.map_values(|n: String| n@)) is None,
        },
{
    let ghost all = names@.map_values(|n: String| n@);
    let ghost fits = |n: Seq<char>| offered(partial@, n);
    let p = crate::text::chars_of(partial);
    let mut dot: Vec<char> = Vec::new();
    dot.push('.');
    let hidden_ok = crate::text::starts_with(&p, &dot);
    assert(dot@ =~= seq!['.']);
    let mut count: usize = 0;
    let mut common: Vec<char> = Vec::new();
    let mut k: usize = 0;
    while k < names.len()
        invariant
            k <= names.len(),
            all == names@.map_values(|n: String| n@),
            fits == (|n: Seq<char>| offered(partial@, n)),
            p@ == partial@,
            dot@ == seq!['.'],
            hidden_ok == crate::text::begins(partial@, seq!['.']),
            count == all.subrange(0, k as int).filter(fits).len(),
            common@ == shared(all.subrange(0, k as int).filter(fits)),
        decreases names.len() - k,
    {
        proof {
            all.subrange(0, k as int).lemma_filter_push(all[k as int], fits);
            assert(all.subrange(0, k + 1) =~= all.subrange(0, k as int).push(all[k as int]));
        }
        let n = crate::text::chars_of(names[k].as_str());
        assert(n@ == all[k as int]);
        let ok = crate::text::starts_with(&n, &p) && (hidden_ok || !crate::text::starts_with(&n, &dot));
        if ok {
            let ghost before = all.subrange(0, k as int).filter(fits);
            if count == 0 {
                common = n;
            } else {
                common = common_prefix_of(&common, &n);
            }
            proof {
                let after = before.push(all[k as int]);
                assert(after.drop_last() =~= before);
            }
            count = count + 1;
        }
        k = k + 1;
    }
    assert(all.subrange(0, names.len() as int) =~= all);
    if count == 0 {
        return None;
    }
    let mut out = crate::text::chars_of(head);
    out.push('/');
    crate::text::push_all(&mut out, &common);
    if count == 1 {
        out.push('/');
    }
    Some(crate::text::string_of(&out))
}

/// What `execute` found: the steps that completed, as indices into the
/// plan's steps, and the first error. On an error the rest are untouched.
#[derive(Debug)]
pub struct Outcome {
    pub done: Vec<usize>,
    pub error: Option<String>,
}

/// What the caller of an execution is to do next, and report back on.
#[derive(Debug, PartialEq, Eq)]
pub enum Action {
    /// Create this directory and its parents.
    CreateDirs(String),
    /// Carry out the operation from the first path to the second, never
    /// replacing anything at the second: copy, link, or move (falling back
    /// on copy and remove across file systems).
    Transfer(Op, String, String),
    /// Rename the first path back to the second; what comes of it does
    /// not matter.
    PutBack(String, String),
    /// Nothing more to do: the outcome is ready.
    Finish,
}

/// An action seen as values.
pub enum ActionModel {
    CreateDirs(Seq<char>),
    Transfer(Op, Seq<char>, Seq<char>),
    PutBack(Seq<char>, Seq<char>),
    Finish,
}

pub open spec fn action_model(a: Action) -> ActionModel {
    match a {
        Action::CreateDirs(d) => ActionModel::CreateDirs(d@),
        Action::Transfer(op, a, b) => ActionModel::Transfer(op, a@, b@),
        Action::PutBack(a, b) => ActionModel::PutBack(a@, b@),
        Action::Finish => ActionModel::Finish,
    }
}

/// Where an execution stands.
#[derive(Clone, Copy, Debug, PartialEq, Eq, Structural)]
pub enum Phase {
    /// Nothing done yet.
    Start,
    /// The target directory was to be created.
    Made,
    /// Step `at` was to be carried out directly.
    Sent,
    /// The source of step `at` was to be parked under a temporary name.
    Parking,
    /// Parking failed; `at` parked files remain to be put back.
    Rolling,
    /// Parked file `at` was to be moved to its target.
    Unparking,
    /// Parked file `at` could not reach its target and was to be put back.
    Restored,
    /// Finished.
    Done,
}

/// The state of an execution seen as values.
pub struct RunModel {
    pub phase: Phase,
    pub at: nat,
    /// Steps whose sources are parked, with their temporary names.
    pub parked: Seq<(nat, Seq<char>)>,
    pub done: Seq<nat>,
    pub error: Option<Seq<char>>,
    /// The temporary name of the source being parked.
    pub pending: Seq<char>,
}

/// Does step `i` leave its file where it is?
pub open spec fn stays(steps: Seq<StepModel>, i: int) -> bool {
    same_path(steps[i].0, steps[i].1)
}

/// Do the targets of a rename overlap its sources, so that files must be
/// parked under temporary names first?
pub open spec fn overlapping(op: Op, steps: Seq<StepModel>) -> bool {
    op == Op::Rename && exists|i: int| 0 <= i < steps.len() && !stays(steps, i) && is_source(steps, #[trigger] steps[i].1)
}

/// `p` with its file name replaced by `name` (`Path::with_file_name`).
pub open spec fn with_file_name(p: Seq<char>, name: Seq<char>) -> Seq<char> {
    match (file_name(p), parent(p)) {
        (Some(_), Some(d)) => join(d, name),
        (Some(_), None) => name,
        (None, _) => join(p, name),
    }
}

/// The temporary name step `i` parks its source under.
pub open spec fn temp_name(steps: Seq<StepModel>, pid: u32, i: int) -> Seq<char> {
    with_file_name(
        steps[i].0,
        ".omapic-"@ + decimal(pid as nat) + seq!['-'] + decimal(i as nat) + ".tmp"@,
    )
}

/// The steps before `k` that leave their file where it is, in order.
pub open spec fn staying(steps: Seq<StepModel>, k: nat) -> Seq<nat>
    decreases k,
{
    if k == 0 {
        Seq::empty()
    } else if stays(steps, k - 1) {
        staying(steps, (k - 1) as nat).push((k - 1) as nat)
    } else {
        staying(steps, (k - 1) as nat)
    }
}

pub open spec fn finished(m: RunModel) -> (RunModel, ActionModel) {
    (RunModel { phase: Phase::Done, ..m }, ActionModel::Finish)
}

/// Carry out the steps from `i` on directly; those that stay count as done.
pub open spec fn direct_from(op: Op, steps: Seq<StepModel>, m: RunModel, i: nat) -> (RunModel, ActionModel)
    decreases steps.len() - i,
{
    if i >= steps.len() {
        finished(m)
    } else if stays(steps, i as int) {
        direct_from(op, steps, RunModel { done: m.done.push(i), ..m }, i + 1)
    } else {
        (RunModel { phase: Phase::Sent, at: i, ..m }, ActionModel::Transfer(op, steps[i as int].0, steps[i as int].1))
    }
}

/// Move the parked files from `k` on to their targets; at the end the
/// steps that stay count as done.
pub open spec fn unpark_from(steps: Seq<StepModel>, m: RunModel, k: nat) -> (RunModel, ActionModel) {
    if k >= m.parked.len() {
        finished(RunModel { done: m.done + staying(steps, steps.len()), ..m })
    } else {
        let (i, tmp) = m.parked[k as int];
        (RunModel { phase: Phase::Unparking, at: k, ..m }, ActionModel::Transfer(Op::Rename, tmp, steps[i as int].1))
    }
}

/// Park the sources of the steps from `i` on that move.
pub open spec fn park_from(steps: Seq<StepModel>, pid: u32, m: RunModel, i: nat) -> (RunModel, ActionModel)
    decreases steps.len() - i,
{
    if i >= steps.len() {
        unpark_from(steps, m, 0)
    } else if stays(steps, i as int) {
        park_from(steps, pid, m, i + 1)
    } else {
        let tmp = temp_name(steps, pid, i as int);
        (
            RunModel { phase: Phase::Parking, at: i, pending: tmp, ..m },
            ActionModel::Transfer(Op::Rename, steps[i as int].0, tmp),
        )
    }
}

/// Put back the first `k` parked files, the last first.
pub open spec fn rollback(steps: Seq<StepModel>, m: RunModel, k: nat) -> (RunModel, ActionModel) {
    if k == 0 {
        finished(m)
    } else {
        let (i, tmp) = m.parked[k - 1];
        (RunModel { phase: Phase::Rolling, at: (k - 1) as nat, ..m }, ActionModel::PutBack(tmp, steps[i as int].0))
    }
}

/// Begin moving files, once the target directory is there.
pub open spec fn begin(op: Op, steps: Seq<StepModel>, pid: u32, m: RunModel) -> (RunModel, ActionModel) {
    if overlapping(op, steps) {
        park_from(steps, pid, m, 0)
    } else {
        direct_from(op, steps, m, 0)
    }
}

/// The next state and action of an execution in state `m`, told how the
/// last action went.
pub open spec fn react(op: Op, steps: Seq<StepModel>, pid: u32, m: RunModel, last: Result<(), Seq<char>>) -> (
    RunModel,
    ActionModel,
) {
    match m.phase {
        Phase::Start => if op != Op::Rename && steps.len() > 0 && parent(steps[0].1) is Some {
            (RunModel { phase: Phase::Made, ..m }, ActionModel::CreateDirs(parent(steps[0].1)->0))
        } else {
            begin(op, steps, pid, m)
        },
        Phase::Made => match last {
            Err(e) => finished(RunModel { error: Some(e), ..m }),
            Ok(_) => begin(op, steps, pid, m),
        },
        Phase::Sent => match last {
            Err(e) => finished(RunModel { error: Some(e), ..m }),
            Ok(_) => direct_from(op, steps, RunModel { done: m.done.push(m.at), ..m }, m.at + 1),
        },
        Phase::Parking => match last {
            Err(e) => rollback(steps, RunModel { error: Some(e), ..m }, m.parked.len()),
            Ok(_) => park_from(steps, pid, RunModel { parked: m.parked.push((m.at, m.pending)), ..m }, m.at + 1),
        },
        Phase::Rolling => rollback(steps, m, m.at),
        Phase::Unparking => match last {
            Ok(_) => unpark_from(steps, RunModel { done: m.done.push(m.parked[m.at as int].0), ..m }, m.at + 1),
            Err(e) => {
                let (i, tmp) = m.parked[m.at as int];
                (
                    RunModel {
                        phase: Phase::Restored,
                        error: if m.error is Some {
                            m.error
                        } else {
                            Some(e)
                        },
                        ..m
                    },
                    ActionModel::PutBack(tmp, steps[i as int].0),
                )
            },
        },
        Phase::Restored => unpark_from(steps, m, m.at + 1),
        Phase::Done => finished(m),
    }
}

/// The state of an execution that has not begun.
pub open spec fn started() -> RunModel {
    RunModel {
        phase: Phase::Start,
        at: 0,
        parked: Seq::empty(),
        done: Seq::empty(),
        error: None,
        pending: Seq::empty(),
    }
}

pub open spec fn result_model(r: Result<(), String>) -> Result<(), Seq<char>> {
    match r {
        Ok(_) => Ok(()),
        Err(e) => Err(e@),
    }
}

/// Carrying out a checked plan, one file action at a time: the caller
/// performs each action it is handed and reports how it went.
pub struct Execution {
    op: Op,
    steps: Vec<Step>,
    pid: u32,
    phase: Phase,
    at: usize,
    parked: Vec<(usize, String)>,
    done: Vec<usize>,
    error: Option<String>,
    pending: String,
}

fn copy_step(s: &Step) -> (r: Step)
    ensures
        step_model(r) == step_model(*s),
{
    Step { src: s.src.clone(), dst: s.dst.clone() }
}

fn copy_text(s: &String) -> (r: String)
    ensures
        r@ == s@,
{
    s.clone()
}

/// `p` with its file name replaced by `name` (`Path::with_file_name`).
fn with_file_name_of(p: &[char], name: &[char]) -> (r: Vec<char>)
    ensures
        r@ == with_file_name(p@, name@),
{
    match crate::paths::file_name_of(p) {
        Some(_) => match crate::paths::parent_of(p) {
            Some(d) => crate::paths::join_of(&d, name),
            None => crate::text::slice_chars(name, 0, name.len()),
        },
        None => crate::paths::join_of(p, name),
    }
}

impl Execution {
    /// Where the execution stands.
    pub closed spec fn model(&self) -> RunModel {
        RunModel {
            phase: self.phase,
            at: self.at as nat,
            parked: self.parked@.map_values(|e: (usize, String)| (e.0 as nat, e.1@)),
            done: self.done@.map_values(|i: usize| i as nat),
            error: match self.error {
                Some(e) => Some(e@),
                None => None,
            },
            pending: self.pending@,
        }
    }

    /// The steps carried out.
    pub closed spec fn plan_steps(&self) -> Seq<StepModel> {
        self.steps@.map_values(|s: Step| step_model(s))
    }

    /// The operation carried out.
    pub closed spec fn operation(&self) -> Op {
        self.op
    }

    /// The number that names the temporary files.
    pub closed spec fn process(&self) -> u32 {
        self.pid
    }

    /// The indices the state holds name steps and parked files.
    pub closed spec fn wf(&self) -> bool {
        &&& forall|k: int| 0 <= k < self.parked@.len() ==> (#[trigger] self.parked@[k]).0 < self.steps@.len()
        &&& (self.phase == Phase::Sent || self.phase == Phase::Parking) ==> self.at < self.steps@.len()
        &&& (self.phase == Phase::Unparking || self.phase == Phase::Restored) ==> self.at < self.parked@.len()
        &&& self.phase == Phase::Rolling ==> self.at <= self.parked@.len()
    }

    fn stays_at(&self, i: usize) -> (r: bool)
        requires
            i < self.steps@.len(),
        ensures
            r == stays(self.plan_steps(), i as int),
    {
        same_path_text(&self.steps[i].src, &self.steps[i].dst)
    }

    fn finish(&mut self) -> (a: Action)
        ensures
            (final(self).model(), action_model(a)) == finished(old(self).model()),
            final(self).plan_steps() == old(self).plan_steps(),
            final(self).operation() == old(self).operation(),
            final(self).process() == old(self).process(),
            final(self).parked@ == old(self).parked@,
            final(self).steps@ == old(self).steps@,
            old(self).wf() ==> final(self).wf(),
    {
        self.phase = Phase::Done;
        Action::Finish
    }

    fn direct_from(&mut self, i: usize) -> (a: Action)
        requires
            old(self).wf(),
            i <= old(self).steps@.len(),
        ensures
            final(self).wf(),
            (final(self).model(), action_model(a)) == direct_from(
                old(self).op,
                old(self).plan_steps(),
                old(self).model(),
                i as nat,
            ),
            final(self).steps@ == old(self).steps@,
            final(self).op == old(self).op,
            final(self).pid == old(self).pid,
    {
        let ghost steps = self.plan_steps();
        let ghost goal = direct_from(self.op, steps, self.model(), i as nat);
        let mut i = i;
        while i < self.steps.len() && self.stays_at(i)
            invariant
                i <= self.steps@.len(),
                self.wf(),
                steps == self.plan_steps(),
                self.steps@ == old(self).steps@,
                self.op == old(self).op,
                self.pid == old(self).pid,
                goal == direct_from(self.op, steps, self.model(), i as nat),
            decreases self.steps@.len() - i,
        {
            let ghost before = self.model();
            self.done.push(i);
            proof {
                crate::text::lemma_map_push(old(self).done@.subrange(0, 0), 0usize, |x: usize| x as nat);
                assert(self.model() == (RunModel { done: before.done.push(i as nat), ..before })) by {
                    assert(self.done@.map_values(|x: usize| x as nat) =~= before.done.push(i as nat));
                }
            }
            i = i + 1;
        }
        if i >= self.steps.len() {
            return self.finish();
        }
        self.phase = Phase::Sent;
        self.at = i;
        let a = Action::Transfer(self.op, copy_text(&self.steps[i].src), copy_text(&self.steps[i].dst));
        proof {
            assert(steps[i as int] == step_model(self.steps@[i as int]));
        }
        a
    }

    fn unpark_from(&mut self, k: usize) -> (a: Action)
        requires
            old(self).wf(),
        ensures
            final(self).wf(),
            (final(self).model(), action_model(a)) == unpark_from(old(self).plan_steps(), old(self).model(), k as nat),
            final(self).steps@ == old(self).steps@,
            final(self).op == old(self).op,
            final(self).pid == old(self).pid,
    {
        let ghost steps = self.plan_steps();
        if k >= self.parked.len() {
            let ghost before = self.model();
            let mut j: usize = 0;
            while j < self.steps.len()
                invariant
                    j <= self.steps@.len(),
                    self.wf(),
                    steps == self.plan_steps(),
                    self.steps@ == old(self).steps@,
                    self.op == old(self).op,
                    self.pid == old(self).pid,
                    self.phase == before.phase,
                    self.model() == (RunModel { done: before.done + staying(steps, j as nat), ..before }),
                decreases self.steps@.len() - j,
            {
                if self.stays_at(j) {
                    let ghost prev = self.model();
                    self.done.push(j);
                    proof {
                        assert(self.done@.map_values(|x: usize| x as nat) =~= prev.done.push(j as nat));
                        assert(before.done + staying(steps, (j + 1) as nat) =~= prev.done.push(j as nat));
                    }
                } else {
                    assert(staying(steps, (j + 1) as nat) == staying(steps, j as nat));
                }
                j = j + 1;
            }
            return self.finish();
        }
        let i = self.parked[k].0;
        let tmp = copy_text(&self.parked[k].1);
        let dst = copy_text(&self.steps[i].dst);
        self.phase = Phase::Unparking;
        self.at = k;
        proof {
            assert(steps[i as int] == step_model(self.steps@[i as int]));
        }
        Action::Transfer(Op::Rename, tmp, dst)
    }

    fn park_from(&mut self, i: usize) -> (a: Action)
        requires
            old(self).wf(),
            i <= old(self).steps@.len(),
        ensures
            final(self).wf(),
            (final(self).model(), action_model(a)) == park_from(
                old(self).plan_steps(),
                old(self).pid,
                old(self).model(),
                i as nat,
            ),
            final(self).steps@ == old(self).steps@,
            final(self).op == old(self).op,
            final(self).pid == old(self).pid,
    {
        let ghost steps = self.plan_steps();
        let ghost goal = park_from(steps, self.pid, self.model(), i as nat);
        let mut i = i;
        while i < self.steps.len() && self.stays_at(i)
            invariant
                i <= self.steps@.len(),
                steps == self.plan_steps(),
                goal == park_from(steps, self.pid, self.model(), i as nat),
            decreases self.steps@.len() - i,
        {
            i = i + 1;
        }
        if i >= self.steps.len() {
            return self.unpark_from(0);
        }
        let mut name: Vec<char> = Vec::new();
        push_text(&mut name, ".omapic-");
        push_text(&mut name, crate::text::decimal_string(self.pid as usize).as_str());
        name.push('-');
        push_text(&mut name, crate::text::decimal_string(i).as_str());
        push_text(&mut name, ".tmp");
        let src = text_of(&self.steps[i].src);
        let tmp = crate::text::string_of(&with_file_name_of(&src, &name));
        proof {
            assert(steps[i as int] == step_model(self.steps@[i as int]));
            assert(name@ =~= ".omapic-"@ + decimal(self.pid as nat) + seq!['-'] + decimal(i as nat) + ".tmp"@);
        }
        self.phase = Phase::Parking;
        self.at = i;
        self.pending = copy_text(&tmp);
        Action::Transfer(Op::Rename, copy_text(&self.steps[i].src), tmp)
    }

    fn rollback(&mut self, k: usize) -> (a: Action)
        requires
            old(self).wf(),
            k <= old(self).parked@.len(),
        ensures
            final(self).wf(),
            (final(self).model(), action_model(a)) == rollback(old(self).plan_steps(), old(self).model(), k as nat),
            final(self).steps@ == old(self).steps@,
            final(self).op == old(self).op,
            final(self).pid == old(self).pid,
    {
        if k == 0 {
            return self.finish();
        }
        let i = self.parked[k - 1].0;
        let tmp = copy_text(&self.parked[k - 1].1);
        let src = copy_text(&self.steps[i].src);
        self.phase = Phase::Rolling;
        self.at = k - 1;
        proof {
            assert(self.plan_steps()[i as int] == step_model(self.steps@[i as int]));
        }
        Action::PutBack(tmp, src)
    }

    fn overlaps(&self) -> (r: bool)
        ensures
            r == overlapping(self.op, self.plan_steps()),
    {
        if self.op != Op::Rename {
            return false;
        }
        let ghost steps = self.plan_steps();
        let mut i: usize = 0;
        while i < self.steps.len()
            invariant
                i <= self.steps@.len(),
                steps == self.plan_steps(),
                self.op == Op::Rename,
                forall|j: int| 0 <= j < i ==> !(!stays(steps, j) && is_source(steps, #[trigger] steps[j].1)),
            decreases self.steps@.len() - i,
        {
            assert(steps[i as int] == step_model(self.steps@[i as int]));
            if !self.stays_at(i) && source_among(&self.steps, &self.steps[i].dst) {
                assert(!stays(steps, i as int) && is_source(steps, steps[i as int].1));
                return true;
            }
            i = i + 1;
        }
        false
    }

    fn begin(&mut self) -> (a: Action)
        requires
            old(self).wf(),
        ensures
            final(self).wf(),
            (final(self).model(), action_model(a)) == begin(old(self).op, old(self).plan_steps(), old(self).pid, old(self).model()),
            final(self).steps@ == old(self).steps@,
            final(self).op == old(self).op,
            final(self).pid == old(self).pid,
    {
        if self.overlaps() {
            self.park_from(0)
        } else {
            self.direct_from(0)
        }
    }

    /// The next action, told how the last one went (for the first, and after
    /// a put-back, the report does not matter).
    pub fn next(&mut self, last: Result<(), String>) -> (a: Action)
        requires
            old(self).wf(),
        ensures
            final(self).wf(),
            (final(self).model(), action_model(a)) == react(
                old(self).operation(),
                old(self).plan_steps(),
                old(self).process(),
                old(self).model(),
                result_model(last),
            ),
            final(self).plan_steps() == old(self).plan_steps(),
            final(self).operation() == old(self).operation(),
            final(self).process() == old(self).process(),
    {
        match self.phase {
            Phase::Start => {
                if self.op != Op::Rename && self.steps.len() > 0 {
                    let dst = text_of(&self.steps[0].dst);
                    match crate::paths::parent_of(&dst) {
                        Some(dir) => {
                            self.phase = Phase::Made;
                            return Action::CreateDirs(crate::text::string_of(&dir));
                        },
                        None => {},
                    }
                }
                self.begin()
            },
            Phase::Made => match last {
                Err(e) => {
                    self.error = Some(e);
                    self.finish()
                },
                Ok(()) => self.begin(),
            },
            Phase::Sent => match last {
                Err(e) => {
                    self.error = Some(e);
                    self.finish()
                },
                Ok(()) => {
                    let ghost before = self.model();
                    self.done.push(self.at);
                    assert(self.done@.map_values(|x: usize| x as nat) =~= before.done.push(before.at));
                    let n = self.steps.len();
                    assert(self.at < n);
                    self.direct_from(self.at + 1)
                },
            },
            Phase::Parking => match last {
                Err(e) => {
                    self.error = Some(e);
                    let k = self.parked.len();
                    self.rollback(k)
                },
                Ok(()) => {
                    let ghost before = self.model();
                    let entry = (self.at, copy_text(&self.pending));
                    self.parked.push(entry);
                    proof {
                        crate::text::lemma_map_push(old(self).parked@, entry, |e: (usize, String)| (e.0 as nat, e.1@));
                    }
                    let n = self.steps.len();
                    assert(self.at < n);
                    self.park_from(self.at + 1)
                },
            },
            Phase::Rolling => {
                let k = self.at;
                self.rollback(k)
            },
            Phase::Unparking => match last {
                Ok(()) => {
                    let ghost before = self.model();
                    assert(self.at < self.parked@.len());
                    let i = self.parked[self.at].0;
                    self.done.push(i);
                    assert(self.done@.map_values(|x: usize| x as nat) =~= before.done.push(before.parked[before.at as int].0));
                    let n = self.parked.len();
                    assert(self.at < n);
                    self.unpark_from(self.at + 1)
                },
                Err(e) => {
                    let i = self.parked[self.at].0;
                    let tmp = copy_text(&self.parked[self.at].1);
                    let src = copy_text(&self.steps[i].src);
                    if self.error.is_none() {
                        self.error = Some(e);
                    }
                    self.phase = Phase::Restored;
                    proof {
                        assert(self.plan_steps()[i as int] == step_model(self.steps@[i as int]));
                    }
                    Action::PutBack(tmp, src)
                },
            },
            Phase::Restored => {
                let n = self.parked.len();
                assert(self.at < n);
                self.unpark_from(self.at + 1)
            },
            Phase::Done => self.finish(),
        }
    }

    /// What came of it: the steps done and the first error.
    pub fn outcome(&self) -> (o: Outcome)
        ensures
            o.done@.map_values(|i: usize| i as nat) == self.model().done,
            match o.error {
                Some(e) => self.model().error == Some(e@),
                None => self.model().error is None,
            },
    {
        let mut done: Vec<usize> = Vec::new();
        let mut k: usize = 0;
        while k < self.done.len()
            invariant
                k <= self.done@.len(),
                done@ == self.done@.subrange(0, k as int),
            decreases self.done@.len() - k,
        {
            done.push(self.done[k]);
            k = k + 1;
            assert(done@ =~= self.done@.subrange(0, k as int));
        }
        assert(done@ =~= self.done@);
        let error = match &self.error {
            Some(e) => Some(copy_text(e)),
            None => None,
        };
        Outcome { done, error }
    }
}

/// Begin carrying out `plan`; `pid` names its temporary files. Targets are
/// never replaced: a rename whose targets overlap its sources parks the
/// files under temporary names first, and puts them back if parking fails.
pub fn execute(plan: &Plan, pid: u32) -> (e: Execution)
    ensures
        e.wf(),
        e.model() == started(),
        e.plan_steps() == plan.steps@.map_values(|s: Step| step_model(s)),
        e.operation() == plan.op,
        e.process() == pid,
{
    let mut steps: Vec<Step> = Vec::new();
    let mut k: usize = 0;
    while k < plan.steps.len()
        invariant
            k <= plan.steps@.len(),
            steps@.map_values(|s: Step| step_model(s)) == plan.steps@.subrange(0, k as int).map_values(|s: Step| step_model(s)),
        decreases plan.steps@.len() - k,
    {
        let ghost before = steps@;
        let s = copy_step(&plan.steps[k]);
        steps.push(s);
        proof {
            crate::text::lemma_map_push(before, s, |s: Step| step_model(s));
            assert(plan.steps@.subrange(0, k + 1) =~= plan.steps@.subrange(0, k as int).push(plan.steps@[k as int]));
            crate::text::lemma_map_push(plan.steps@.subrange(0, k as int), plan.steps@[k as int], |s: Step| step_model(s));
        }
        k = k + 1;
    }
    assert(plan.steps@.subrange(0, plan.steps@.len() as int) =~= plan.steps@);
    let e = Execution {
        op: plan.op,
        steps,
        pid,
        phase: Phase::Start,
        at: 0,
        parked: Vec::new(),
        done: Vec::new(),
        error: None,
        pending: String::new(),
    };
    assert(e.model() =~= started()) by {
        assert(e.parked@.map_values(|x: (usize, String)| (x.0 as nat, x.1@)) =~= Seq::<(nat, Seq<char>)>::empty());
        assert(e.done@.map_values(|i: usize| i as nat) =~= Seq::<nat>::empty());
    }
    e
}


proof fn lemma_problems_empty(op: Op, steps: Seq<StepModel>, probes: Seq<Probe>, k: nat)
    requires
        problems(op, steps, probes, k).len() == 0,
    ensures
        forall|i: int| 0 <= i < k ==> (#[trigger] step_problems(op, steps, probes, i)).len() == 0,
    decreases k,
{
    if k > 0 {
        lemma_problems_empty(op, steps, probes, (k - 1) as nat);
    }
}

proof fn lemma_no_earlier_target(steps: Seq<StepModel>, k: int, dst: Seq<char>)
    requires
        earlier_same_target_before(steps, k, dst) is None,
    ensures
        forall|j: int| 0 <= j < k ==> !same_path(#[trigger] steps[j].1, dst),
    decreases k,
{
    if k > 0 {
        lemma_no_earlier_target(steps, k - 1, dst);
    }
}

proof fn lemma_step_fine(op: Op, steps: Seq<StepModel>, probes: Seq<Probe>, i: int)
    requires
        0 <= i < steps.len(),
        probes.len() == steps.len(),
        step_problems(op, steps, probes, i).len() == 0,
    ensures
        probes[i].source_is_file,
        earlier_same_target_before(steps, i, steps[i].1) is None,
        op != Op::Rename ==> !same_path(steps[i].1, steps[i].0),
        probes[i].target_exists && !same_path(steps[i].1, steps[i].0) ==> op == Op::Rename && is_source(
            steps,
            steps[i].1,
        ),
{
}

/// A plan that passes the check is safe to start: every source is a file,
/// no two steps make the same target, no file is its own target (but in a
/// renaming, where it simply stays), and a target that exists already is
/// the source of another step of a renaming, moved out of the way first.
pub proof fn checked_plans_are_safe(op: Op, steps: Seq<StepModel>, probes: Seq<Probe>)
    requires
        probes.len() == steps.len(),
        refusal(op, steps, probes) is None,
    ensures
        forall|i: int| 0 <= i < steps.len() ==> (#[trigger] probes[i]).source_is_file,
        forall|i: int, j: int|
            0 <= j < steps.len() && 0 <= i < steps.len() && i != j ==> !same_path(
                #[trigger] steps[j].1,
                #[trigger] steps[i].1,
            ),
        forall|i: int| 0 <= i < steps.len() && op != Op::Rename ==> !same_path(#[trigger] steps[i].1, steps[i].0),
        forall|i: int|
            0 <= i < steps.len() && (#[trigger] probes[i]).target_exists && !same_path(steps[i].1, steps[i].0)
                ==> op == Op::Rename && is_source(steps, steps[i].1),
{
    lemma_problems_empty(op, steps, probes, steps.len());
    assert forall|i: int| 0 <= i < steps.len() implies (#[trigger] probes[i]).source_is_file by {
        lemma_step_fine(op, steps, probes, i);
    }
    assert forall|i: int| 0 <= i < steps.len() && op != Op::Rename implies !same_path(
        #[trigger] steps[i].1,
        steps[i].0,
    ) by {
        lemma_step_fine(op, steps, probes, i);
    }
    assert forall|i: int|
        0 <= i < steps.len() && (#[trigger] probes[i]).target_exists && !same_path(steps[i].1, steps[i].0)
            implies op == Op::Rename && is_source(steps, steps[i].1) by {
        lemma_step_fine(op, steps, probes, i);
    }
    assert forall|i: int, j: int|
        0 <= j < steps.len() && 0 <= i < steps.len() && i != j implies !same_path(
            #[trigger] steps[j].1,
            #[trigger] steps[i].1,
        ) by {
        if j < i {
            lemma_step_fine(op, steps, probes, i);
            lemma_no_earlier_target(steps, i, steps[i].1);
        } else {
            lemma_step_fine(op, steps, probes, j);
            lemma_no_earlier_target(steps, j, steps[j].1);
            assert(!same_path(steps[i].1, steps[j].1));
        }
    }
}


/// The actions a run of `steps` may ask for: create the first target's
/// directory; carry out a planned step; park a step's source under its own
/// temporary name; move a parked file on to its target; put a parked file
/// back where it came from; finish.
pub open spec fn allowed(op: Op, steps: Seq<StepModel>, pid: u32, a: ActionModel) -> bool {
    match a {
        ActionModel::CreateDirs(d) => steps.len() > 0 && parent(steps[0].1) == Some(d),
        ActionModel::Transfer(o, from, to) => exists|i: int|
            0 <= i < steps.len() && {
                ||| (o == op && from == steps[i].0 && to == steps[i].1)
                ||| (o == Op::Rename && from == steps[i].0 && to == #[trigger] temp_name(steps, pid, i))
                ||| (o == Op::Rename && from == temp_name(steps, pid, i) && to == steps[i].1)
            },
        ActionModel::PutBack(from, to) => exists|i: int|
            0 <= i < steps.len() && from == #[trigger] temp_name(steps, pid, i) && to == steps[i].0,
        ActionModel::Finish => true,
    }
}

/// Are the parked files steps' sources under their own temporary names?
pub open spec fn parked_ok(steps: Seq<StepModel>, pid: u32, parked: Seq<(nat, Seq<char>)>) -> bool {
    forall|k: int|
        0 <= k < parked.len() ==> (#[trigger] parked[k]).0 < steps.len() && parked[k].1 == temp_name(
            steps,
            pid,
            parked[k].0 as int,
        )
}

/// What a run keeps true of its state: the parked files are steps' sources
/// under their own temporary names, and the step or parked file it works on
/// exists.
pub open spec fn run_inv(steps: Seq<StepModel>, pid: u32, m: RunModel) -> bool {
    &&& parked_ok(steps, pid, m.parked)
    &&& m.phase == Phase::Sent ==> m.at < steps.len()
    &&& m.phase == Phase::Parking ==> m.at < steps.len() && m.pending == temp_name(steps, pid, m.at as int)
    &&& (m.phase == Phase::Unparking || m.phase == Phase::Restored) ==> m.at < m.parked.len()
    &&& m.phase == Phase::Rolling ==> m.at <= m.parked.len()
}

proof fn lemma_direct_allowed(op: Op, steps: Seq<StepModel>, pid: u32, m: RunModel, i: nat)
    requires
        parked_ok(steps, pid, m.parked),
    ensures
        allowed(op, steps, pid, direct_from(op, steps, m, i).1),
        run_inv(steps, pid, direct_from(op, steps, m, i).0),
    decreases steps.len() - i,
{
    if i >= steps.len() {
    } else if stays(steps, i as int) {
        lemma_direct_allowed(op, steps, pid, RunModel { done: m.done.push(i), ..m }, i + 1);
    } else {
        let w = i as int;
        assert(temp_name(steps, pid, w) == temp_name(steps, pid, w));
    }
}

proof fn lemma_unpark_allowed(op: Op, steps: Seq<StepModel>, pid: u32, m: RunModel, k: nat)
    requires
        parked_ok(steps, pid, m.parked),
    ensures
        allowed(op, steps, pid, unpark_from(steps, m, k).1),
        run_inv(steps, pid, unpark_from(steps, m, k).0),
{
    if k < m.parked.len() {
        let (i, tmp) = m.parked[k as int];
        assert(m.parked[k as int].0 < steps.len());
        assert(tmp == temp_name(steps, pid, i as int));
    }
}

proof fn lemma_park_allowed(op: Op, steps: Seq<StepModel>, pid: u32, m: RunModel, i: nat)
    requires
        parked_ok(steps, pid, m.parked),
    ensures
        allowed(op, steps, pid, park_from(steps, pid, m, i).1),
        run_inv(steps, pid, park_from(steps, pid, m, i).0),
    decreases steps.len() - i,
{
    if i >= steps.len() {
        lemma_unpark_allowed(op, steps, pid, m, 0);
    } else if stays(steps, i as int) {
        lemma_park_allowed(op, steps, pid, m, i + 1);
    } else {
        let w = i as int;
        assert(temp_name(steps, pid, w) == temp_name(steps, pid, w));
    }
}

proof fn lemma_rollback_allowed(op: Op, steps: Seq<StepModel>, pid: u32, m: RunModel, k: nat)
    requires
        parked_ok(steps, pid, m.parked),
        k <= m.parked.len(),
    ensures
        allowed(op, steps, pid, rollback(steps, m, k).1),
        run_inv(steps, pid, rollback(steps, m, k).0),
{
    if k > 0 {
        let (i, tmp) = m.parked[k - 1];
        assert(m.parked[k - 1].0 < steps.len());
        assert(tmp == temp_name(steps, pid, i as int));
    }
}

proof fn lemma_begin_allowed(op: Op, steps: Seq<StepModel>, pid: u32, m: RunModel)
    requires
        parked_ok(steps, pid, m.parked),
    ensures
        allowed(op, steps, pid, begin(op, steps, pid, m).1),
        run_inv(steps, pid, begin(op, steps, pid, m).0),
{
    if overlapping(op, steps) {
        lemma_park_allowed(op, steps, pid, m, 0);
    } else {
        lemma_direct_allowed(op, steps, pid, m, 0);
    }
}

/// A run touches nothing but what was planned: from any state it can be
/// in, whatever the last action came to, the next action creates the
/// target's directory, carries out a planned step, parks a step's source
/// under the run's own temporary name, moves a parked file on to its
/// target, puts one back where it came from, or finishes; and the state
/// after it is again one a run can be in. A run starts in such a state.
pub proof fn runs_touch_only_planned_paths(
    op: Op,
    steps: Seq<StepModel>,
    pid: u32,
    m: RunModel,
    last: Result<(), Seq<char>>,
)
    requires
        run_inv(steps, pid, m),
    ensures
        run_inv(steps, pid, started()),
        allowed(op, steps, pid, react(op, steps, pid, m, last).1),
        run_inv(steps, pid, react(op, steps, pid, m, last).0),
{
    match m.phase {
        Phase::Start => {
            if !(op != Op::Rename && steps.len() > 0 && parent(steps[0].1) is Some) {
                lemma_begin_allowed(op, steps, pid, m);
            }
        },
        Phase::Made => {
            if last is Ok {
                lemma_begin_allowed(op, steps, pid, m);
            }
        },
        Phase::Sent => {
            if last is Ok {
                lemma_direct_allowed(op, steps, pid, RunModel { done: m.done.push(m.at), ..m }, m.at + 1);
            }
        },
        Phase::Parking => {
            match last {
                Err(e) => {
                    lemma_rollback_allowed(op, steps, pid, RunModel { error: Some(e), ..m }, m.parked.len());
                },
                Ok(_) => {
                    let m2 = RunModel { parked: m.parked.push((m.at, m.pending)), ..m };
                    let p2 = m.parked.push((m.at, m.pending));
                    assert(parked_ok(steps, pid, p2)) by {
                        assert forall|k: int| 0 <= k < p2.len() implies (#[trigger] p2[k]).0 < steps.len()
                            && p2[k].1 == temp_name(steps, pid, p2[k].0 as int) by {
                            if k < m.parked.len() {
                                assert(p2[k] == m.parked[k]);
                            }
                        }
                    }
                    lemma_park_allowed(op, steps, pid, m2, m.at + 1);
                },
            }
        },
        Phase::Rolling => {
            lemma_rollback_allowed(op, steps, pid, m, m.at);
        },
        Phase::Unparking => {
            match last {
                Ok(_) => {
                    lemma_unpark_allowed(
                        op,
                        steps,
                        pid,
                        RunModel { done: m.done.push(m.parked[m.at as int].0), ..m },
                        m.at + 1,
                    );
                },
                Err(_) => {
                    let (i, tmp) = m.parked[m.at as int];
                    assert(m.parked[m.at as int].0 < steps.len());
                    assert(tmp == temp_name(steps, pid, i as int));
                },
            }
        },
        Phase::Restored => {
            lemma_unpark_allowed(op, steps, pid, m, m.at + 1);
        },
        Phase::Done => {},
    }
}


proof fn lemma_decimal_reads_back(n: nat)
    ensures
        decimal(n).len() >= 1,
        crate::text::all_digits(decimal(n)),
        crate::text::digits_value(decimal(n)) == n,
    decreases n,
{
    let d = decimal(n);
    if n < 10 {
        assert(d.drop_last() =~= Seq::<char>::empty());
        assert(crate::text::digits_value(d.drop_last()) == 0);
    } else {
        lemma_decimal_reads_back(n / 10);
        assert(d.drop_last() =~= decimal(n / 10));
        assert forall|i: int| 0 <= i < d.len() implies is_digit(#[trigger] d[i]) by {
            if i < d.len() - 1 {
                assert(d[i] == decimal(n / 10)[i]);
            }
        }
    }
}

proof fn lemma_decimal_len_grows(a: nat, b: nat)
    requires
        a <= b,
    ensures
        decimal(a).len() <= decimal(b).len(),
    decreases b,
{
    if a >= 10 {
        lemma_decimal_len_grows(a / 10, b / 10);
    } else {
        lemma_decimal_reads_back(b);
    }
}

proof fn lemma_zeros_read_nothing(k: nat, t: Seq<char>)
    ensures
        crate::text::digits_value(Seq::new(k, |i: int| '0') + t) == crate::text::digits_value(t),
    decreases k + t.len(),
{
    let z = Seq::new(k, |i: int| '0');
    if t.len() > 0 {
        lemma_zeros_read_nothing(k, t.drop_last());
        assert((z + t).drop_last() =~= z + t.drop_last());
    } else if k > 0 {
        lemma_zeros_read_nothing((k - 1) as nat, t);
        assert((z + t).drop_last() =~= Seq::new((k - 1) as nat, |i: int| '0') + t);
    } else {
        assert(z + t =~= t);
    }
}

/// A number padded to `width` digits is `width` digits long when it fits
/// (longer only when its own digits are more), made of zeros in front of
/// its decimal digits, and reads back as the number.
pub proof fn padding_keeps_the_number(n: nat, width: nat)
    ensures
        padded(n, width).len() == if decimal(n).len() >= width { decimal(n).len() } else { width },
        crate::text::all_digits(padded(n, width)),
        crate::text::digits_value(padded(n, width)) == n,
        padded(n, width).subrange(padded(n, width).len() - decimal(n).len(), padded(n, width).len() as int)
            == decimal(n),
        forall|i: int| 0 <= i < padded(n, width).len() - decimal(n).len() ==> #[trigger] padded(n, width)[i]
            == '0',
{
    lemma_decimal_reads_back(n);
    let ds = decimal(n);
    let p = padded(n, width);
    if ds.len() < width {
        let k = (width - ds.len()) as nat;
        let z = Seq::new(k, |i: int| '0');
        lemma_zeros_read_nothing(k, ds);
        assert(p.subrange(k as int, p.len() as int) =~= ds);
        assert forall|i: int| 0 <= i < p.len() implies is_digit(#[trigger] p[i]) by {
            if i >= k {
                assert(p[i] == ds[i - k]);
            }
        }
    } else {
        assert(p.subrange(0, p.len() as int) =~= ds);
    }
}

/// The order prefix of step `i` of `count`: every target name begins with
/// exactly `width_for(count)` digits that read as `i + 1` (so all prefixes
/// of a plan are equally long and sort in step order), then `_`, then the
/// name without an older prefix.
pub proof fn order_prefixes_count_the_steps(name: Seq<char>, i: nat, count: nat)
    requires
        i < count,
    ensures
        ({
            let t = target_name(name, i, count, true);
            let w = width_for(count) as int;
            &&& w >= 3
            &&& w >= decimal(count).len()
            &&& (w == 3 || w == decimal(count).len())
            &&& t.len() == w + 1 + stripped(name).len()
            &&& crate::text::all_digits(t.subrange(0, w))
            &&& crate::text::digits_value(t.subrange(0, w)) == i + 1
            &&& t[w] == '_'
            &&& t.subrange(w + 1, t.len() as int) == stripped(name)
        }),
{
    let w = width_for(count);
    lemma_decimal_len_grows(i + 1, count);
    padding_keeps_the_number(i + 1, w);
    let p = padded(i + 1, w);
    let t = target_name(name, i, count, true);
    assert(p.len() == w);
    assert(t.subrange(0, w as int) =~= p);
    assert(t.subrange(w + 1int, t.len() as int) =~= stripped(name));
}

} // verus!
