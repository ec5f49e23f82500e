//! Shell command history, the one thing omapic remembers between runs: a
//! plain text file, most recent command last. This is the text side of
//! it; where the file lives and reading and writing it are the caller's.

use vstd::prelude::*;

use crate::text::{lines, trim};

verus! {

/// How many commands the history keeps.
pub const KEPT: usize = 200;

/// Is `line` more than white space?
pub open spec fn has_text(line: Seq<char>) -> bool {
    trim(line).len() > 0
}

/// The commands in a history file's text, most recent first; blank lines
/// do not count.
pub open spec fn entries_of(text: Seq<char>) -> Seq<Seq<char>> {
    lines(text).reverse().filter(|l: Seq<char>| has_text(l))
}

/// `s` on one line: each line feed becomes a space.
pub open spec fn one_line(s: Seq<char>) -> Seq<char> {
    s.map_values(|c: char| if c == '\n' { ' ' } else { c })
}

/// The history after `command` is run: trimmed and on one line, it comes
/// first; an older copy of it goes; only the `KEPT` most recent stay.
pub open spec fn remembered_spec(entries: Seq<Seq<char>>, command: Seq<char>) -> Seq<Seq<char>> {
    let c = one_line(trim(command));
    let all = seq![c] + entries.filter(|e: Seq<char>| e != c);
    if all.len() > KEPT {
        all.subrange(0, KEPT as int)
    } else {
        all
    }
}

/// The text of a history file for `entries` (most recent first): one
/// line each, the most recent last.
pub open spec fn text_of(entries: Seq<Seq<char>>) -> Seq<char>
    decreases entries.len(),
{
    if entries.len() == 0 {
        Seq::empty()
    } else {
        text_of(entries.drop_first()) + entries[0].push('\n')
    }
}

/// The commands in a history file's text, most recent first.
pub fn entries(text: &str) -> (r: Vec<String>)
    ensures
        r@.map_values(|e: String| e@) == entries_of(text@),
{
    let chars = crate::text::chars_of(text);
    let ls = crate::text::lines_of(&chars);
    let ghost all = ls@.map_values(|l: Vec<char>| l@);
    let ghost keep = |l: Seq<char>| has_text(l);
    let mut out: Vec<String> = Vec::new();
    let mut k: usize = ls.len();
    while k > 0
        invariant
            k <= ls.len(),
            all == ls@.map_values(|l: Vec<char>| l@),
            all == lines(text@),
            keep == (|l: Seq<char>| has_text(l)),
            out@.map_values(|e: String| e@) == all.subrange(k as int, all.len() as int).reverse().filter(keep),
        decreases k,
    {
        let ghost rest = all.subrange(k as int, all.len() as int);
        let ghost next = all.subrange(k - 1, all.len() as int);
        assert(next.reverse() =~= rest.reverse().push(all[k - 1]));
        proof {
            rest.reverse().lemma_filter_push(all[k - 1], keep);
        }
        let line = &ls[k - 1];
        let t = crate::text::trimmed(line);
        if t.len() > 0 {
            let ghost before = out@;
            let s = crate::text::string_of(line);
            out.push(s);
            proof {
                crate::text::lemma_map_push(before, s, |e: String| e@);
            }
        }
        k = k - 1;
    }
    assert(all.subrange(0, all.len() as int) =~= all);
    out
}

/// The history after `command` is run: trimmed and on one line, it comes
/// first; an older copy of it goes; only the `KEPT` most recent stay.
pub fn remembered(entries: &[String], command: &str) -> (r: Vec<String>)
    ensures
        r@.map_values(|e: String| e@) == remembered_spec(entries@.map_values(|e: String| e@), command@),
{
    let ghost es = entries@.map_values(|e: String| e@);
    let raw = crate::text::chars_of(command);
    let t = crate::text::trimmed(&raw);
    let mut c: Vec<char> = Vec::new();
    let mut i: usize = 0;
    while i < t.len()
        invariant
            i <= t.len(),
            c@ == one_line(t@.subrange(0, i as int)),
        decreases t.len() - i,
    {
        c.push(if t[i] == '\n' {
            ' '
        } else {
            t[i]
        });
        i = i + 1;
        assert(c@ =~= one_line(t@.subrange(0, i as int)));
    }
    assert(t@.subrange(0, t.len() as int) =~= t@);
    let first = crate::text::string_of(&c);
    let ghost other = |e: Seq<char>| e != c@;
    let mut out: Vec<String> = Vec::new();
    out.push(first);
    assert(out@.map_values(|e: String| e@) =~= seq![c@] + es.subrange(0, 0).filter(other));
    let mut k: usize = 0;
    while k < entries.len()
        invariant
            k <= entries.len(),
            es == entries@.map_values(|e: String| e@),
            other == (|e: Seq<char>| e != c@),
            out@.map_values(|e: String| e@) == seq![c@] + es.subrange(0, k as int).filter(other),
        decreases entries.len() - k,
    {
        proof {
            es.subrange(0, k as int).lemma_filter_push(es[k as int], other);
            assert(es.subrange(0, k + 1) =~= es.subrange(0, k as int).push(es[k as int]));
        }
        let e = crate::text::chars_of(entries[k].as_str());
        if !crate::text::same(&e, &c) {
            let ghost before = out@;
            let copy = entries[k].clone();
            out.push(copy);
            proof {
                crate::text::lemma_map_push(before, copy, |e: String| e@);
            }
        }
        k = k + 1;
    }
    assert(es.subrange(0, entries.len() as int) =~= es);
    assert(c@ == one_line(trim(command@)));
    assert(other =~= (|e: Seq<char>| e != one_line(trim(command@))));
    if out.len() > KEPT {
        let ghost before = out@;
        out.truncate(KEPT);
        assert(out@.map_values(|e: String| e@) =~= before.map_values(|e: String| e@).subrange(0, KEPT as int));
    }
    out
}

/// The text of a history file for `entries` (most recent first): one
/// line each, the most recent last.
pub fn render(entries: &[String]) -> (r: String)
    ensures
        r@ == text_of(entries@.map_values(|e: String| e@)),
{
    let ghost es = entries@.map_values(|e: String| e@);
    let mut out: Vec<char> = Vec::new();
    let mut k: usize = entries.len();
    while k > 0
        invariant
            k <= entries.len(),
            es == entries@.map_values(|e: String| e@),
            out@ == text_of(es.subrange(k as int, es.len() as int)),
        decreases k,
    {
        let ghost rest = es.subrange(k - 1, es.len() as int);
        assert(rest.drop_first() =~= es.subrange(k as int, es.len() as int));
        crate::text::push_all(&mut out, &crate::text::chars_of(entries[k - 1].as_str()));
        out.push('\n');
        k = k - 1;
    }
    assert(es.subrange(0, es.len() as int) =~= es);
    crate::text::string_of(&out)
}

proof fn lemma_segments_append(s: Seq<char>, t: Seq<char>)
    requires
        !t.contains('\n'),
    ensures
        crate::text::segments(s + t, '\n') == crate::text::segments(s, '\n').update(
            crate::text::segments(s, '\n').len() - 1,
            crate::text::segments(s, '\n').last() + t,
        ),
    decreases t.len(),
{
    crate::text::lemma_segments_len(s, '\n');
    let segs = crate::text::segments(s, '\n');
    if t.len() == 0 {
        assert(s + t =~= s);
        assert(segs.last() + t =~= segs.last());
        assert(segs.update(segs.len() - 1, segs.last()) =~= segs);
    } else {
        let u = t.drop_last();
        assert(!u.contains('\n')) by {
            if u.contains('\n') {
                let j = choose|j: int| 0 <= j < u.len() && u[j] == '\n';
                assert(t[j] == '\n');
            }
        }
        lemma_segments_append(s, u);
        assert((s + t).drop_last() =~= s + u);
        assert(t.last() != '\n') by {
            assert(t[t.len() - 1] == t.last());
        }
        crate::text::lemma_segments_len(s + u, '\n');
        assert((segs.last() + u).push(t.last()) =~= segs.last() + t);
        assert(crate::text::segments(s + t, '\n') =~= segs.update(segs.len() - 1, segs.last() + t));
    }
}

proof fn lemma_segments_of_text(es: Seq<Seq<char>>)
    requires
        forall|i: int| 0 <= i < es.len() ==> !(#[trigger] es[i]).contains('\n'),
    ensures
        crate::text::segments(text_of(es), '\n') == es.reverse().push(Seq::<char>::empty()),
    decreases es.len(),
{
    if es.len() == 0 {
        assert(es.reverse() =~= Seq::<Seq<char>>::empty());
        assert(seq![Seq::<char>::empty()] =~= Seq::<Seq<char>>::empty().push(Seq::<char>::empty()));
    } else {
        let tail = es.drop_first();
        assert forall|i: int| 0 <= i < tail.len() implies !(#[trigger] tail[i]).contains('\n') by {
            assert(tail[i] == es[i + 1]);
        }
        lemma_segments_of_text(tail);
        let before = text_of(tail);
        let line = es[0];
        assert(!line.contains('\n')) by {
            assert(es[0] == line);
        }
        lemma_segments_append(before, line);
        let mid = before + line;
        assert(text_of(es) =~= mid.push('\n'));
        assert(mid.push('\n').drop_last() =~= mid);
        crate::text::lemma_segments_len(mid, '\n');
        let segs0 = tail.reverse().push(Seq::<char>::empty());
        assert(Seq::<char>::empty() + line =~= line);
        assert(segs0.update(segs0.len() - 1, Seq::<char>::empty() + line) =~= tail.reverse().push(line));
        assert(tail.reverse().push(line) =~= es.reverse());
    }
}

proof fn lemma_filter_all(s: Seq<Seq<char>>)
    requires
        forall|i: int| 0 <= i < s.len() ==> has_text(#[trigger] s[i]),
    ensures
        s.filter(|l: Seq<char>| has_text(l)) == s,
    decreases s.len(),
{
    if s.len() > 0 {
        let d = s.drop_last();
        assert forall|i: int| 0 <= i < d.len() implies has_text(#[trigger] d[i]) by {
            assert(d[i] == s[i]);
        }
        lemma_filter_all(d);
        d.lemma_filter_push(s.last(), |l: Seq<char>| has_text(l));
        assert(has_text(s[s.len() - 1]));
        assert(d.push(s.last()) =~= s);
    }
}

/// Reading back a written history gives the same commands, in the same
/// order, where each is one line with text on it and no carriage return
/// at its end.
pub proof fn reading_back_what_was_written(es: Seq<Seq<char>>)
    requires
        forall|i: int|
            0 <= i < es.len() ==> !(#[trigger] es[i]).contains('\n') && has_text(es[i]) && !(es[i].len() > 0
                && es[i].last() == '\r'),
    ensures
        entries_of(text_of(es)) == es,
{
    assert forall|i: int| 0 <= i < es.len() implies !(#[trigger] es[i]).contains('\n') by {}
    lemma_segments_of_text(es);
    let segs = crate::text::segments(text_of(es), '\n');
    assert(segs.drop_last() =~= es.reverse());
    let ended = es.reverse().map_values(|l: Seq<char>| crate::text::strip_cr(l));
    assert(ended =~= es.reverse()) by {
        assert forall|i: int| 0 <= i < es.len() implies #[trigger] ended[i] == es.reverse()[i] by {
            let k = es.len() - 1 - i;
            assert(es.reverse()[i] == es[k]);
        }
    }
    assert(segs.last().len() == 0);
    assert(crate::text::lines(text_of(es)) =~= es.reverse());
    assert(es.reverse().reverse() =~= es);
    lemma_filter_all(es);
}

} // verus!
