//! Omarchy theme → GTK CSS. Colours come from the active theme's
//! `colors.toml`; the stylesheet is handed in by the caller.

use vstd::prelude::*;

use crate::text::{lines, trim};

verus! {

/// A name and its colour.
pub type Entry = (Seq<char>, Seq<char>);

/// carbonfox-ish fallback for systems without an Omarchy theme.
pub open spec fn fallback() -> Seq<Entry> {
    seq![
        ("background"@, "#161616"@),
        ("dark_background"@, "#0c0c0c"@),
        ("lighter_background"@, "#252525"@),
        ("foreground"@, "#f2f4f8"@),
        ("muted"@, "#6e6f70"@),
        ("accent"@, "#00b2ff"@),
        ("selection"@, "#2a2a2a"@),
        ("red"@, "#ee5396"@),
    ]
}

/// The colour shown for a name no theme knows.
pub open spec fn unknown_color() -> Seq<char> {
    "#808080"@
}

/// `s` without `"` at either end.
pub open spec fn unquote(s: Seq<char>) -> Seq<char>
    decreases s.len(),
{
    if s.len() == 0 {
        s
    } else if s[0] == '"' {
        unquote(s.drop_first())
    } else if s.last() == '"' {
        unquote(s.drop_last())
    } else {
        s
    }
}

/// An ASCII hexadecimal digit?
pub open spec fn is_hex(c: char) -> bool {
    ('0' <= c && c <= '9') || ('a' <= c && c <= 'f') || ('A' <= c && c <= 'F')
}

/// A colour as themes write it: `#` and 3, 6 or 8 hexadecimal digits.
pub open spec fn is_color(value: Seq<char>) -> bool {
    &&& value.len() > 0
    &&& value[0] == '#'
    &&& (value.len() == 4 || value.len() == 7 || value.len() == 9)
    &&& forall|i: int| 1 <= i < value.len() ==> #[trigger] is_hex(value[i])
}

/// The colour a line sets: a flat `key = "#rrggbb"`; anything else sets
/// none.
pub open spec fn line_entry(line: Seq<char>) -> Option<Entry> {
    match line.index_of_first('=') {
        None => None,
        Some(e) => {
            let value = unquote(trim(line.subrange(e + 1, line.len() as int)));
            if is_color(value) {
                Some((trim(line.subrange(0, e)), value))
            } else {
                None
            }
        },
    }
}

/// The colours set by `ls`, in order.
pub open spec fn entries_of(ls: Seq<Seq<char>>) -> Seq<Entry>
    decreases ls.len(),
{
    if ls.len() == 0 {
        Seq::empty()
    } else {
        match line_entry(ls.last()) {
            Some(e) => entries_of(ls.drop_last()).push(e),
            None => entries_of(ls.drop_last()),
        }
    }
}

/// The colour last given to `name`.
pub open spec fn lookup(entries: Seq<Entry>, name: Seq<char>) -> Option<Seq<char>>
    decreases entries.len(),
{
    if entries.len() == 0 {
        None
    } else if entries.last().0 == name {
        Some(entries.last().1)
    } else {
        lookup(entries.drop_last(), name)
    }
}

/// The colour of `name` in `entries`, grey where it has none.
pub open spec fn color_of(entries: Seq<Entry>, name: Seq<char>) -> Seq<char> {
    match lookup(entries, name) {
        Some(c) => c,
        None => unknown_color(),
    }
}

/// The CSS line that defines the colour `name`.
pub open spec fn define_line(entries: Seq<Entry>, name: Seq<char>) -> Seq<char> {
    "@define-color om_"@ + name + seq![' '] + color_of(entries, name) + seq![';', '\n']
}

/// The CSS lines for the first `k` fallback names.
pub open spec fn defines(entries: Seq<Entry>, k: nat) -> Seq<char>
    decreases k,
{
    if k == 0 {
        Seq::empty()
    } else {
        defines(entries, (k - 1) as nat) + define_line(entries, fallback()[k - 1].0)
    }
}

/// The colours of a theme file: the fallback, then what its lines set.
pub open spec fn parsed(text: Seq<char>) -> Seq<Entry> {
    fallback() + entries_of(lines(text))
}

/// The colours of a theme. A later entry for a name replaces an earlier one.
pub struct Theme {
    colors: Vec<(String, String)>,
}

impl Theme {
    /// The colours, as set in order.
    pub closed spec fn entries(&self) -> Seq<Entry> {
        self.colors@.map_values(|e: (String, String)| (e.0@, e.1@))
    }

    /// Read a `colors.toml`. Only flat `key = "#rrggbb"` lines matter;
    /// everything else is ignored. Names it does not set keep their fallback.
    pub fn parse(text: &str) -> (t: Theme)
        ensures
            t.entries() == parsed(text@),
    {
        let mut colors: Vec<(String, String)> = Vec::new();
        colors.push(("background".to_owned(), "#161616".to_owned()));
        colors.push(("dark_background".to_owned(), "#0c0c0c".to_owned()));
        colors.push(("lighter_background".to_owned(), "#252525".to_owned()));
        colors.push(("foreground".to_owned(), "#f2f4f8".to_owned()));
        colors.push(("muted".to_owned(), "#6e6f70".to_owned()));
        colors.push(("accent".to_owned(), "#00b2ff".to_owned()));
        colors.push(("selection".to_owned(), "#2a2a2a".to_owned()));
        colors.push(("red".to_owned(), "#ee5396".to_owned()));
        assert(colors@.map_values(|e: (String, String)| (e.0@, e.1@)) =~= fallback());
        let chars = crate::text::chars_of(text);
        let ls = crate::text::lines_of(&chars);
        let ghost all = ls@.map_values(|l: Vec<char>| l@);
        let mut i: usize = 0;
        while i < ls.len()
            invariant
                i <= ls.len(),
                all == ls@.map_values(|l: Vec<char>| l@),
                all == lines(text@),
                colors@.map_values(|e: (String, String)| (e.0@, e.1@)) == fallback() + entries_of(all.subrange(0, i as int)),
            decreases ls.len() - i,
        {
            let ghost pre = all.subrange(0, i as int);
            assert(all.subrange(0, i + 1).drop_last() =~= pre);
            assert(all.subrange(0, i + 1).last() == ls@[i as int]@);
            let ghost before = colors@;
            assert(entries_of(all.subrange(0, i + 1)) == (match line_entry(ls@[i as int]@) {
                Some(e) => entries_of(pre).push(e),
                None => entries_of(pre),
            }));
            match entry_of(&ls[i]) {
                Some((key, value)) => {
                    let entry = (crate::text::string_of(&key), crate::text::string_of(&value));
                    colors.push(entry);
                    proof {
                        crate::text::lemma_map_push(before, entry, |e: (String, String)| (e.0@, e.1@));
                    }
                },
                None => {},
            }
            i = i + 1;
            assert(colors@.map_values(|e: (String, String)| (e.0@, e.1@)) =~= fallback() + entries_of(all.subrange(0, i as int)));
        }
        assert(all.subrange(0, ls.len() as int) =~= all);
        Theme { colors }
    }

    /// The colour of `name`; grey for a name no theme knows.
    pub fn color(&self, name: &str) -> (r: &str)
        ensures
            r@ == color_of(self.entries(), name@),
    {
        let mut k: usize = self.colors.len();
        assert(self.entries().subrange(0, k as int) =~= self.entries());
        let target = crate::text::chars_of(name);
        while k > 0
            invariant
                k <= self.colors.len(),
                self.entries() == self.colors@.map_values(|e: (String, String)| (e.0@, e.1@)),
                lookup(self.entries(), name@) == lookup(self.entries().subrange(0, k as int), name@),
                target@ == name@,
            decreases k,
        {
            let ghost pre = self.entries().subrange(0, k as int);
            assert(pre.drop_last() =~= self.entries().subrange(0, k - 1));
            assert(pre.last() == (self.colors@[k - 1].0@, self.colors@[k - 1].1@));
            let key_str = self.colors[k - 1].0.as_str();
            assert(key_str@ == self.colors@[k - 1].0@);
            let key = crate::text::chars_of(key_str);
            assert(key@ == self.colors@[k - 1].0@);
            if crate::text::same(&key, &target) {
                assert(pre.last().0 == name@);
                assert(lookup(pre, name@) == Some(pre.last().1));
                let r = self.colors[k - 1].1.as_str();
                assert(r@ == pre.last().1);
                return r;
            }
            assert(pre.last().0 != name@);
            assert(lookup(pre, name@) == lookup(pre.drop_last(), name@));
            k = k - 1;
        }
        "#808080"
    }

    /// GTK CSS: a colour definition `@define-color om_<name> <colour>;` for
    /// each of the fallback names, then `style`.
    pub fn css(&self, style: &str) -> (r: String)
        ensures
            r@ == defines(self.entries(), 8) + style@,
    {
        let names = ["background", "dark_background", "lighter_background", "foreground", "muted", "accent", "selection", "red"];
        assert(names@.map_values(|n: &str| n@) =~= fallback().map_values(|e: Entry| e.0));
        let mut out: Vec<char> = Vec::new();
        let mut k: usize = 0;
        while k < 8
            invariant
                k <= 8,
                names@.map_values(|n: &str| n@) == fallback().map_values(|e: Entry| e.0),
                out@ == defines(self.entries(), k as nat),
            decreases 8 - k,
        {
            let name = names[k];
            assert(name@ == fallback()[k as int].0) by {
                assert(names@.map_values(|n: &str| n@)[k as int] == fallback().map_values(|e: Entry| e.0)[k as int]);
            }
            crate::text::push_all(&mut out, &crate::text::chars_of("@define-color om_"));
            crate::text::push_all(&mut out, &crate::text::chars_of(name));
            out.push(' ');
            crate::text::push_all(&mut out, &crate::text::chars_of(self.color(name)));
            out.push(';');
            out.push('\n');
            k = k + 1;
            assert(out@ =~= defines(self.entries(), k as nat));
        }
        crate::text::push_all(&mut out, &crate::text::chars_of(style));
        crate::text::string_of(&out)
    }
}

/// `s` without `"` at either end.
fn unquoted(s: &[char]) -> (r: Vec<char>)
    ensures
        r@ == unquote(s@),
{
    let mut i: usize = 0;
    assert(s@.subrange(0, s@.len() as int) =~= s@);
    while i < s.len() && s[i] == '"'
        invariant
            i <= s.len(),
            unquote(s@) == unquote(s@.subrange(i as int, s@.len() as int)),
        decreases s.len() - i,
    {
        let ghost rest = s@.subrange(i as int, s@.len() as int);
        assert(rest.drop_first() =~= s@.subrange(i + 1, s@.len() as int));
        i = i + 1;
    }
    let mut j: usize = s.len();
    while j > i && s[j - 1] == '"'
        invariant
            i <= j <= s.len(),
            i == s.len() || s@[i as int] != '"',
            unquote(s@) == unquote(s@.subrange(i as int, j as int)),
        decreases j,
    {
        let ghost rest = s@.subrange(i as int, j as int);
        assert(rest.drop_last() =~= s@.subrange(i as int, j - 1));
        j = j - 1;
    }
    crate::text::slice_chars(s, i, j)
}

/// Are all characters of `value` after the first hexadecimal digits?
fn hex_digits(value: &Vec<char>) -> (r: bool)
    requires
        value.len() >= 1,
    ensures
        r == (forall|i: int| 1 <= i < value.len() ==> #[trigger] is_hex(value@[i])),
{
    let mut i: usize = 1;
    while i < value.len()
        invariant
            1 <= i <= value.len(),
            forall|j: int| 1 <= j < i ==> #[trigger] is_hex(value@[j]),
        decreases value.len() - i,
    {
        let c = value[i];
        if !(('0' <= c && c <= '9') || ('a' <= c && c <= 'f') || ('A' <= c && c <= 'F')) {
            assert(!is_hex(value@[i as int]));
            return false;
        }
        i = i + 1;
    }
    true
}

/// The colour `line` sets, if any.
fn entry_of(line: &Vec<char>) -> (r: Option<(Vec<char>, Vec<char>)>)
    ensures
        match r {
            Some((k, v)) => line_entry(line@) == Some((k@, v@)),
            None => line_entry(line@) is None,
        },
{
    let mut e: usize = 0;
    while e < line.len() && line[e] != '='
        invariant
            e <= line.len(),
            forall|j: int| 0 <= j < e ==> line@[j] != '=',
        decreases line.len() - e,
    {
        e = e + 1;
    }
    proof {
        line@.index_of_first_ensures('=');
    }
    if e == line.len() {
        return None;
    }
    assert(line@.index_of_first('=') == Some(e as int));
    let raw = crate::text::slice_chars(line, e + 1, line.len());
    let value = unquoted(&crate::text::trimmed(&raw));
    let n = value.len();
    if n == 0 || value[0] != '#' || !(n == 4 || n == 7 || n == 9) {
        return None;
    }
    if !hex_digits(&value) {
        return None;
    }
    let key = crate::text::trimmed(&crate::text::slice_chars(line, 0, e));
    Some((key, value))
}

} // verus!
