//! What the window decides: which command a key stands for, which keys the
//! status line hints at, where the arrow keys lead in the grid, how the
//! shown list is brought in line with the session, what the status line
//! says, what the preview shows and decodes ahead, and which thumbnails
//! leave memory. The widgets are the caller's.

use vstd::prelude::*;
use std::collections::{HashSet, VecDeque};

use crate::text::decimal;

verus! {

broadcast use vstd::std_specs::hash::group_hash_axioms;

/// A key as the window sees it.
#[derive(Clone, Copy, Debug, PartialEq, Eq, Structural)]
pub enum Key {
    /// A key that types a decimal digit.
    Digit(u8),
    /// A key that types this character (letters, `:`, `?`, space).
    Char(char),
    Left,
    Right,
    Up,
    Down,
    Home,
    End,
    Enter,
    Escape,
    /// Anything else.
    Other,
}

/// The modifiers held down.
#[derive(Clone, Copy, Debug, PartialEq, Eq, Structural)]
pub struct Mods {
    pub ctrl: bool,
    pub alt: bool,
    pub shift: bool,
}

/// What the window is showing, as far as keys care.
#[derive(Clone, Copy, Debug, PartialEq, Eq, Structural)]
pub struct Situation {
    /// The command palette has the keys.
    pub palette_open: bool,
    /// The preview shows actual pixels.
    pub actual_size: bool,
    /// The preview fills the window.
    pub enlarged: bool,
}

/// What a key asks for.
#[derive(Clone, Copy, Debug, PartialEq, Eq, Structural)]
pub enum Command {
    /// Not the window's key: let it through.
    Pass,
    ShowWorkspace(u8),
    Assign(Option<u8>),
    OpenCommands,
    OpenHelp,
    Undo,
    Redo,
    Quit,
    ToggleSort,
    ToggleNames,
    /// Shift the selected image this many places.
    MoveSelected(isize),
    /// Move the selection by columns and rows.
    Navigate(isize, isize),
    First,
    Last,
    ToggleEnlarged,
    ToggleActualSize,
    /// Turn the selected image this many quarter turns clockwise.
    Rotate(u8),
}

/// The command `key` stands for, with `mods` held, in `now`.
pub open spec fn command_spec(key: Key, mods: Mods, now: Situation) -> Command {
    if now.palette_open {
        Command::Pass
    } else {
        match key {
            Key::Digit(d) => if mods.alt && !mods.ctrl {
                Command::ShowWorkspace(d)
            } else if mods.ctrl {
                Command::Pass
            } else if d == 0 {
                Command::Assign(None)
            } else {
                Command::Assign(Some(d))
            },
            _ => if mods.ctrl && key == Key::Char('k') {
                Command::OpenCommands
            } else if mods.ctrl && !mods.alt && key == Key::Char('r') {
                Command::Redo
            } else if mods.ctrl || mods.alt {
                Command::Pass
            } else {
                plain_command(key, mods.shift, now)
            },
        }
    }
}

/// The command of a key pressed without ctrl or alt.
pub open spec fn plain_command(key: Key, shift: bool, now: Situation) -> Command {
    match key {
        Key::Char(c) => if c == ':' {
            Command::OpenCommands
        } else if c == '?' {
            Command::OpenHelp
        } else if c == 'q' {
            Command::Quit
        } else if c == 's' {
            Command::ToggleSort
        } else if c == 'u' {
            Command::Undo
        } else if c == 'U' {
            Command::Redo
        } else if c == 'f' {
            Command::ToggleNames
        } else if c == 'H' {
            Command::MoveSelected(-1isize)
        } else if c == 'L' {
            Command::MoveSelected(1isize)
        } else if c == 'h' {
            Command::Navigate(-1isize, 0isize)
        } else if c == 'l' {
            Command::Navigate(1isize, 0isize)
        } else if c == 'k' {
            Command::Navigate(0isize, -1isize)
        } else if c == 'j' {
            Command::Navigate(0isize, 1isize)
        } else if c == 'g' {
            Command::First
        } else if c == 'G' {
            Command::Last
        } else if c == ' ' {
            Command::ToggleEnlarged
        } else if c == 'z' {
            Command::ToggleActualSize
        } else if c == 'r' {
            Command::Rotate(1)
        } else if c == 'R' {
            Command::Rotate(3)
        } else {
            Command::Pass
        },
        Key::Left => if shift {
            Command::MoveSelected(-1isize)
        } else {
            Command::Navigate(-1isize, 0isize)
        },
        Key::Right => if shift {
            Command::MoveSelected(1isize)
        } else {
            Command::Navigate(1isize, 0isize)
        },
        Key::Up => Command::Navigate(0isize, -1isize),
        Key::Down => Command::Navigate(0isize, 1isize),
        Key::Home => Command::First,
        Key::End => Command::Last,
        Key::Enter => Command::ToggleEnlarged,
        Key::Escape => if now.actual_size {
            Command::ToggleActualSize
        } else if now.enlarged {
            Command::ToggleEnlarged
        } else {
            Command::Pass
        },
        _ => Command::Pass,
    }
}

/// The command `key` stands for, with `mods` held, in `now`: digits bin
/// (0 unbins) or, with alt, show a workspace; ctrl+k and `:` open the
/// commands, ctrl+r and `U` redo, `r` and `R` rotate right and left;
/// letters and arrows act as the help
/// sheet lists; anything else passes on.
pub fn command(key: Key, mods: Mods, now: Situation) -> (r: Command)
    ensures
        r == command_spec(key, mods, now),
{
    if now.palette_open {
        return Command::Pass;
    }
    match key {
        Key::Digit(d) => {
            if mods.alt && !mods.ctrl {
                return Command::ShowWorkspace(d);
            }
            if mods.ctrl {
                return Command::Pass;
            }
            return if d == 0 {
                Command::Assign(None)
            } else {
                Command::Assign(Some(d))
            };
        },
        _ => {},
    }
    let is_k = match key {
        Key::Char(c) => c == 'k',
        _ => false,
    };
    let is_r = match key {
        Key::Char(c) => c == 'r',
        _ => false,
    };
    if mods.ctrl && is_k {
        return Command::OpenCommands;
    }
    if mods.ctrl && !mods.alt && is_r {
        return Command::Redo;
    }
    if mods.ctrl || mods.alt {
        return Command::Pass;
    }
    match key {
        Key::Char(c) => if c == ':' {
            Command::OpenCommands
        } else if c == '?' {
            Command::OpenHelp
        } else if c == 'q' {
            Command::Quit
        } else if c == 's' {
            Command::ToggleSort
        } else if c == 'u' {
            Command::Undo
        } else if c == 'U' {
            Command::Redo
        } else if c == 'f' {
            Command::ToggleNames
        } else if c == 'H' {
            Command::MoveSelected(-1)
        } else if c == 'L' {
            Command::MoveSelected(1)
        } else if c == 'h' {
            Command::Navigate(-1, 0)
        } else if c == 'l' {
            Command::Navigate(1, 0)
        } else if c == 'k' {
            Command::Navigate(0, -1)
        } else if c == 'j' {
            Command::Navigate(0, 1)
        } else if c == 'g' {
            Command::First
        } else if c == 'G' {
            Command::Last
        } else if c == ' ' {
            Command::ToggleEnlarged
        } else if c == 'z' {
            Command::ToggleActualSize
        } else if c == 'r' {
            Command::Rotate(1)
        } else if c == 'R' {
            Command::Rotate(3)
        } else {
            Command::Pass
        },
        Key::Left => if mods.shift {
            Command::MoveSelected(-1)
        } else {
            Command::Navigate(-1, 0)
        },
        Key::Right => if mods.shift {
            Command::MoveSelected(1)
        } else {
            Command::Navigate(1, 0)
        },
        Key::Up => Command::Navigate(0, -1),
        Key::Down => Command::Navigate(0, 1),
        Key::Home => Command::First,
        Key::End => Command::Last,
        Key::Enter => Command::ToggleEnlarged,
        Key::Escape => if now.actual_size {
            Command::ToggleActualSize
        } else if now.enlarged {
            Command::ToggleEnlarged
        } else {
            Command::Pass
        },
        _ => Command::Pass,
    }
}

/// The keys the help sheet lists do what it says, whatever the window
/// shows and with or without shift, as long as neither ctrl nor alt is
/// held and the palette is closed: `u` undoes and `U` redoes (as does
/// ctrl+r), `r` turns right and `R` left, a digit bins (0 unbins) and with
/// alt shows that workspace; the palette, when open, takes every key.
pub proof fn keys_do_what_the_help_sheet_says(key: Key, mods: Mods, now: Situation)
    ensures
        now.palette_open ==> command_spec(key, mods, now) == Command::Pass,
        !now.palette_open && !mods.ctrl && !mods.alt ==> {
            &&& command_spec(Key::Char('u'), mods, now) == Command::Undo
            &&& command_spec(Key::Char('U'), mods, now) == Command::Redo
            &&& command_spec(Key::Char('r'), mods, now) == Command::Rotate(1)
            &&& command_spec(Key::Char('R'), mods, now) == Command::Rotate(3)
            &&& command_spec(Key::Char(':'), mods, now) == Command::OpenCommands
            &&& command_spec(Key::Char('?'), mods, now) == Command::OpenHelp
            &&& command_spec(Key::Char('q'), mods, now) == Command::Quit
            &&& command_spec(Key::Char('s'), mods, now) == Command::ToggleSort
            &&& command_spec(Key::Char('f'), mods, now) == Command::ToggleNames
            &&& command_spec(Key::Char('h'), mods, now) == Command::Navigate(-1isize, 0isize)
            &&& command_spec(Key::Char('l'), mods, now) == Command::Navigate(1isize, 0isize)
            &&& command_spec(Key::Char('k'), mods, now) == Command::Navigate(0isize, -1isize)
            &&& command_spec(Key::Char('j'), mods, now) == Command::Navigate(0isize, 1isize)
            &&& command_spec(Key::Char('H'), mods, now) == Command::MoveSelected(-1isize)
            &&& command_spec(Key::Char('L'), mods, now) == Command::MoveSelected(1isize)
            &&& command_spec(Key::Char('g'), mods, now) == Command::First
            &&& command_spec(Key::Char('G'), mods, now) == Command::Last
            &&& command_spec(Key::Up, mods, now) == Command::Navigate(0isize, -1isize)
            &&& command_spec(Key::Down, mods, now) == Command::Navigate(0isize, 1isize)
            &&& command_spec(Key::Home, mods, now) == Command::First
            &&& command_spec(Key::End, mods, now) == Command::Last
            &&& command_spec(Key::Enter, mods, now) == Command::ToggleEnlarged
            &&& command_spec(Key::Char(' '), mods, now) == Command::ToggleEnlarged
            &&& command_spec(Key::Char('z'), mods, now) == Command::ToggleActualSize
            &&& command_spec(Key::Left, mods, now) == if mods.shift {
                Command::MoveSelected(-1isize)
            } else {
                Command::Navigate(-1isize, 0isize)
            }
            &&& command_spec(Key::Right, mods, now) == if mods.shift {
                Command::MoveSelected(1isize)
            } else {
                Command::Navigate(1isize, 0isize)
            }
            &&& command_spec(Key::Escape, mods, now) == if now.actual_size {
                Command::ToggleActualSize
            } else if now.enlarged {
                Command::ToggleEnlarged
            } else {
                Command::Pass
            }
            &&& forall|d: u8| #[trigger] command_spec(Key::Digit(d), mods, now) == if d == 0 {
                Command::Assign(None)
            } else {
                Command::Assign(Some(d))
            }
        },
        !now.palette_open && mods.ctrl && !mods.alt ==> command_spec(Key::Char('r'), mods, now) == Command::Redo,
        !now.palette_open && mods.ctrl ==> command_spec(Key::Char('k'), mods, now) == Command::OpenCommands,
        !now.palette_open && mods.alt && !mods.ctrl ==> forall|d: u8| #[trigger] command_spec(Key::Digit(d), mods, now)
            == Command::ShowWorkspace(d),
{
}

/// What the status line hints at depends on.
#[derive(Clone, Copy, Debug, PartialEq, Eq, Structural)]
pub struct HintContext {
    /// The view shows no image.
    pub empty: bool,
    /// A workspace is shown rather than all images.
    pub in_workspace: bool,
    pub enlarged: bool,
    pub actual_size: bool,
    /// The selected image is in a workspace.
    pub selected_binned: bool,
    /// The view is sorted by hand.
    pub manual: bool,
}

/// The keys that matter in `c`, each with what it does; `?` always first,
/// so a narrow window never loses it.
pub open spec fn hints_spec(c: HintContext) -> Seq<(Seq<char>, Seq<char>)> {
    let first = seq![("?"@, "keys"@)];
    if c.empty {
        if c.in_workspace {
            first.push(("alt+0"@, "all images"@))
        } else {
            first
        }
    } else if c.enlarged {
        if c.actual_size {
            first + seq![("drag"@, "pan"@), ("z"@, "fit"@), ("←→"@, "compare"@)]
        } else {
            first + seq![("←→"@, "browse"@), ("z"@, "1:1"@), ("1-9"@, "bin"@), ("esc"@, "back"@)]
        }
    } else {
        let bin = first.push(("1-9"@, if c.in_workspace { "rebin"@ } else { "bin"@ }));
        let unbin = if c.selected_binned {
            bin.push(("0"@, "unbin"@))
        } else {
            bin
        };
        let sort = if c.manual {
            unbin + seq![("H L"@, "reorder"@), ("s"@, "unsort"@)]
        } else if c.in_workspace {
            unbin.push(("s"@, "sort"@))
        } else {
            unbin
        };
        if c.in_workspace {
            sort + seq![("alt+0"@, "all"@), (":"@, "actions"@)]
        } else {
            sort + seq![("alt+1-9"@, "show bin"@), ("enter"@, "enlarge"@), (":"@, "commands"@)]
        }
    }
}

fn hint(v: &mut Vec<(&'static str, &'static str)>, key: &'static str, what: &'static str)
    ensures
        final(v)@.map_values(|h: (&'static str, &'static str)| (h.0@, h.1@)) == old(v)@.map_values(
            |h: (&'static str, &'static str)| (h.0@, h.1@),
        ).push((key@, what@)),
{
    let ghost before = v@;
    v.push((key, what));
    proof {
        crate::text::lemma_map_push(before, (key, what), |h: (&'static str, &'static str)| (h.0@, h.1@));
    }
}

/// The keys that matter right now, each with what it does.
pub fn hints(c: HintContext) -> (r: Vec<(&'static str, &'static str)>)
    ensures
        r@.map_values(|h: (&'static str, &'static str)| (h.0@, h.1@)) == hints_spec(c),
{
    let mut v: Vec<(&'static str, &'static str)> = Vec::new();
    assert(v@.map_values(|h: (&'static str, &'static str)| (h.0@, h.1@)) =~= Seq::<(Seq<char>, Seq<char>)>::empty());
    hint(&mut v, "?", "keys");
    if c.empty {
        if c.in_workspace {
            hint(&mut v, "alt+0", "all images");
        }
    } else if c.enlarged {
        if c.actual_size {
            hint(&mut v, "drag", "pan");
            hint(&mut v, "z", "fit");
            hint(&mut v, "←→", "compare");
        } else {
            hint(&mut v, "←→", "browse");
            hint(&mut v, "z", "1:1");
            hint(&mut v, "1-9", "bin");
            hint(&mut v, "esc", "back");
        }
    } else {
        hint(&mut v, "1-9", if c.in_workspace { "rebin" } else { "bin" });
        if c.selected_binned {
            hint(&mut v, "0", "unbin");
        }
        if c.manual {
            hint(&mut v, "H L", "reorder");
            hint(&mut v, "s", "unsort");
        } else if c.in_workspace {
            hint(&mut v, "s", "sort");
        }
        if c.in_workspace {
            hint(&mut v, "alt+0", "all");
            hint(&mut v, ":", "actions");
        } else {
            hint(&mut v, "alt+1-9", "show bin");
            hint(&mut v, "enter", "enlarge");
            hint(&mut v, ":", "commands");
        }
    }
    assert(v@.map_values(|h: (&'static str, &'static str)| (h.0@, h.1@)) =~= hints_spec(c));
    v
}

/// Where arrow keys lead from place `current` of `len` images shown in
/// rows of `width`: `columns` places along, then `rows` rows up or down
/// where that stays inside; going down past a short last row lands on the
/// last image. `None` where the selection stays.
pub open spec fn target_spec(len: nat, current: Option<usize>, columns: isize, rows: isize, width: nat) -> Option<int> {
    if len == 0 {
        None
    } else {
        match current {
            None => Some(0),
            Some(cur) => {
                let raw = cur + columns;
                let sat = if raw < 0 { 0 } else if raw > usize::MAX { usize::MAX as int } else { raw };
                let along = if sat < len { sat } else { len - 1 };
                let moved = cur + rows * width;
                let target = if rows == 0 {
                    along
                } else if 0 <= moved < len {
                    moved
                } else if moved > 0 && (cur as int) / (width as int) < (len - 1) / (width as int) {
                    len - 1
                } else {
                    along
                };
                if target != cur { Some(target) } else { None }
            },
        }
    }
}

/// Where arrow keys lead in a grid of `len` images in rows of `width`,
/// from the selected place `current`; `None` where the selection stays.
pub fn navigation_target(len: usize, current: Option<usize>, columns: isize, rows: isize, width: usize) -> (r: Option<usize>)
    requires
        width >= 1,
        current matches Some(c) ==> c < len,
        rows != 0 ==> isize::MIN <= rows * width <= isize::MAX,
        rows != 0 && current is Some ==> isize::MIN <= current->0 + rows * width <= isize::MAX,
    ensures
        match r {
            Some(t) => target_spec(len as nat, current, columns, rows, width as nat) == Some(t as int),
            None => target_spec(len as nat, current, columns, rows, width as nat) is None,
        },
{
    if len == 0 {
        return None;
    }
    let cur = match current {
        Some(c) => c,
        None => return Some(0),
    };
    let sat: usize = if columns >= 0 {
        cur.saturating_add(columns as usize)
    } else {
        let back: usize = (-(columns + 1)) as usize + 1;
        cur.saturating_sub(back)
    };
    let mut target = if sat < len {
        sat
    } else {
        len - 1
    };
    if rows != 0 {
        let step: i128 = rows as i128 * width as i128;
        let moved: i128 = cur as i128 + step;
        assert(moved == cur + rows * width) by (nonlinear_arith)
            requires
                step == rows * width,
                moved == cur + step,
        ;
        if moved >= 0 && moved < len as i128 {
            target = moved as usize;
        } else if moved > 0 && cur / width < (len - 1) / width {
            target = len - 1;
        }
    }
    if target != cur {
        Some(target)
    } else {
        None
    }
}

/// How to bring a shown list `have` in line with `want` in one splice:
/// keep the common beginning (`prefix` entries) and end, remove `removed`
/// entries after the beginning and put `added` in their place.
pub struct Splice {
    pub prefix: usize,
    pub removed: usize,
    pub added: Vec<usize>,
}

/// Are the entries `i` places from the end of `have` and `want` the same?
pub open spec fn same_from_end(have: Seq<usize>, want: Seq<usize>, i: int) -> bool {
    have[have.len() - 1 - i] == want[want.len() - 1 - i]
}

/// `have` after the splice.
pub open spec fn spliced(have: Seq<usize>, prefix: int, removed: int, added: Seq<usize>) -> Seq<usize> {
    have.subrange(0, prefix) + added + have.subrange(prefix + removed, have.len() as int)
}

/// The splice that turns `have` into `want`, keeping as much of both ends
/// as they share.
pub fn splice(have: &Vec<usize>, want: &Vec<usize>) -> (s: Splice)
    ensures
        s.prefix + s.removed <= have.len(),
        spliced(have@, s.prefix as int, s.removed as int, s.added@) == want@,
        forall|i: int| 0 <= i < s.prefix ==> have@[i] == want@[i],
        s.prefix < have.len() && s.prefix < want.len() ==> have@[s.prefix as int] != want@[s.prefix as int],
{
    let mut prefix: usize = 0;
    while prefix < have.len() && prefix < want.len() && have[prefix] == want[prefix]
        invariant
            prefix <= have.len(),
            prefix <= want.len(),
            forall|i: int| 0 <= i < prefix ==> have@[i] == want@[i],
        decreases have.len() - prefix,
    {
        prefix = prefix + 1;
    }
    let mut suffix: usize = 0;
    while suffix < have.len() - prefix && suffix < want.len() - prefix
        && have[have.len() - 1 - suffix] == want[want.len() - 1 - suffix]
        invariant
            prefix <= have.len(),
            prefix <= want.len(),
            suffix <= have.len() - prefix,
            suffix <= want.len() - prefix,
            forall|i: int| 0 <= i < suffix ==> #[trigger] same_from_end(have@, want@, i),
        decreases have.len() - prefix - suffix,
    {
        suffix = suffix + 1;
    }
    let removed = have.len() - prefix - suffix;
    let mut added: Vec<usize> = Vec::new();
    let mut k: usize = prefix;
    while k < want.len() - suffix
        invariant
            prefix <= k <= want.len() - suffix,
            suffix <= want.len() - prefix,
            added@ == want@.subrange(prefix as int, k as int),
        decreases want.len() - suffix - k,
    {
        added.push(want[k]);
        k = k + 1;
        assert(added@ =~= want@.subrange(prefix as int, k as int));
    }
    proof {
        let got = spliced(have@, prefix as int, removed as int, added@);
        assert forall|i: int| 0 <= i < want.len() implies got[i] == want@[i] by {
            if i < prefix {
            } else if i < want.len() - suffix {
            } else {
                let j = want.len() - 1 - i;
                assert(same_from_end(have@, want@, j));
            }
        }
        assert(got =~= want@);
    }
    Splice { prefix, removed, added }
}

/// The label of a view in the status strip.
pub open spec fn strip_label(view: nat, count: nat) -> Seq<char> {
    if view == 0 {
        "all "@ + decimal(count)
    } else {
        decimal(view) + seq![':'] + decimal(count)
    }
}

/// The strip's labels for views `0..k`: all images always, a workspace
/// when it holds images or is shown; with whether it is the one shown.
pub open spec fn strip_spec(counts: Seq<usize>, active: u8, k: nat) -> Seq<(Seq<char>, bool)>
    decreases k,
{
    if k == 0 {
        Seq::empty()
    } else {
        let v = (k - 1) as nat;
        let before = strip_spec(counts, active, v);
        if v != 0 && counts[v as int] == 0 && active != v {
            before
        } else {
            before.push((strip_label(v, counts[v as int] as nat), active == v))
        }
    }
}

/// The status strip: for all images and each workspace that holds images
/// or is shown, its label and whether it is shown. `counts[v]` is the
/// number of images of view `v`.
pub fn strip(counts: &[usize], active: u8) -> (r: Vec<(String, bool)>)
    ensures
        r@.map_values(|l: (String, bool)| (l.0@, l.1)) == strip_spec(counts@, active, counts@.len()),
{
    let mut out: Vec<(String, bool)> = Vec::new();
    let mut v: usize = 0;
    while v < counts.len()
        invariant
            v <= counts.len(),
            out@.map_values(|l: (String, bool)| (l.0@, l.1)) == strip_spec(counts@, active, v as nat),
        decreases counts.len() - v,
    {
        let count = counts[v];
        if !(v != 0 && count == 0 && active as usize != v) {
            let mut text: Vec<char> = Vec::new();
            if v == 0 {
                crate::text::push_all(&mut text, &crate::text::chars_of("all "));
            } else {
                crate::text::push_all(&mut text, &crate::text::chars_of(crate::text::decimal_string(v).as_str()));
                text.push(':');
            }
            crate::text::push_all(&mut text, &crate::text::chars_of(crate::text::decimal_string(count).as_str()));
            let label = (crate::text::string_of(&text), active as usize == v);
            let ghost before = out@;
            out.push(label);
            proof {
                crate::text::lemma_map_push(before, label, |l: (String, bool)| (l.0@, l.1));
                assert(text@ =~= strip_label(v as nat, count as nat));
            }
        }
        v = v + 1;
    }
    out
}

/// The position line: the selected place counted from 1 (0 for none),
/// how many are shown, and how they are sorted.
pub open spec fn info_spec(position: nat, shown: nat, manual: bool) -> Seq<char> {
    decimal(position) + seq!['/'] + decimal(shown) + "  ·  "@ + if manual { "manual"@ } else { "natural"@ }
}

/// The position line of the status bar.
pub fn info(position: usize, shown: usize, manual: bool) -> (r: String)
    ensures
        r@ == info_spec(position as nat, shown as nat, manual),
{
    let mut text = crate::text::chars_of(crate::text::decimal_string(position).as_str());
    text.push('/');
    crate::text::push_all(&mut text, &crate::text::chars_of(crate::text::decimal_string(shown).as_str()));
    crate::text::push_all(&mut text, &crate::text::chars_of("  ·  "));
    crate::text::push_all(&mut text, &crate::text::chars_of(if manual { "manual" } else { "natural" }));
    crate::text::string_of(&text)
}

/// The status line's count of rotations not yet written to the files:
/// nothing where there are none.
pub open spec fn unsaved_spec(count: nat) -> Seq<char> {
    if count == 0 {
        Seq::empty()
    } else if count == 1 {
        "1 unsaved rotation"@
    } else {
        decimal(count) + " unsaved rotations"@
    }
}

/// The status line's count of rotations not yet written to the files.
pub fn unsaved(count: usize) -> (r: String)
    ensures
        r@ == unsaved_spec(count as nat),
{
    if count == 0 {
        String::new()
    } else if count == 1 {
        "1 unsaved rotation".to_owned()
    } else {
        crate::text::cat(crate::text::decimal_string(count).as_str(), " unsaved rotations")
    }
}

/// What the shown view is called in messages.
pub open spec fn view_name_spec(active: u8) -> Seq<char> {
    if active == 0 {
        "all images"@
    } else {
        "workspace "@ + decimal(active as nat)
    }
}

/// What the shown view is called in messages.
pub fn view_name(active: u8) -> (r: String)
    ensures
        r@ == view_name_spec(active),
{
    if active == 0 {
        "all images".to_owned()
    } else {
        let mut text = crate::text::chars_of("workspace ");
        crate::text::push_all(&mut text, &crate::text::chars_of(crate::text::decimal_string(active as usize).as_str()));
        crate::text::string_of(&text)
    }
}

/// Which thumbnails to drop so that at most `cap` stay in memory: the
/// oldest first, sparing those on screen (`bound`), which go to the back
/// of the order.
pub open spec fn evict_spec(order: Seq<usize>, spared: Seq<usize>, dropped: Seq<usize>, bound: Set<usize>, cap: nat) -> (
    Seq<usize>,
    Seq<usize>,
)
    decreases order.len(),
{
    if order.len() + spared.len() <= cap || order.len() == 0 {
        (order + spared, dropped)
    } else if bound.contains(order[0]) {
        evict_spec(order.drop_first(), spared.push(order[0]), dropped, bound, cap)
    } else {
        evict_spec(order.drop_first(), spared, dropped.push(order[0]), bound, cap)
    }
}

/// Drop thumbnails from the front of `order` (oldest first) until at most
/// `cap` stay; those in `bound` (on screen) are spared and move to the
/// back. Returns the thumbnails to drop.
pub fn evict(order: &mut VecDeque<usize>, bound: &HashSet<usize>, cap: usize) -> (dropped: Vec<usize>)
    ensures
        (final(order)@, dropped@) == evict_spec(old(order)@, Seq::empty(), Seq::empty(), bound@, cap as nat),
{
    let ghost start = order@;
    let mut spared: Vec<usize> = Vec::new();
    let mut dropped: Vec<usize> = Vec::new();
    let total = order.len();
    while order.len() > 0 && order.len() + spared.len() > cap
        invariant
            total == start.len(),
            order@.len() + spared@.len() + dropped@.len() == start.len(),
            evict_spec(start, Seq::empty(), Seq::empty(), bound@, cap as nat) == evict_spec(
                order@,
                spared@,
                dropped@,
                bound@,
                cap as nat,
            ),
        decreases order@.len(),
    {
        let ghost before = order@;
        match order.pop_front() {
            Some(x) => {
                assert(before.drop_first() =~= order@);
                if bound.contains(&x) {
                    spared.push(x);
                } else {
                    dropped.push(x);
                }
            },
            None => {},
        }
    }
    let ghost base = order@;
    assert(evict_spec(base, spared@, dropped@, bound@, cap as nat) == (base + spared@, dropped@));
    let mut i: usize = 0;
    while i < spared.len()
        invariant
            i <= spared.len(),
            order@ == base + spared@.subrange(0, i as int),
        decreases spared.len() - i,
    {
        order.push_back(spared[i]);
        i = i + 1;
        assert(order@ =~= base + spared@.subrange(0, i as int));
    }
    assert(spared@.subrange(0, spared.len() as int) =~= spared@);
    dropped
}


/// Where `id` first stands in `view`.
pub open spec fn first_place(view: Seq<usize>, id: usize) -> Option<int>
    decreases view.len(),
{
    if view.len() == 0 {
        None
    } else {
        match first_place(view.drop_last(), id) {
            Some(p) => Some(p),
            None => if view.last() == id {
                Some(view.len() - 1)
            } else {
                None
            },
        }
    }
}

/// The images next to place `p` of `view`: the one after, then the one
/// before, where there are such.
pub open spec fn around(view: Seq<usize>, p: int) -> Seq<usize> {
    let after = if p + 1 < view.len() {
        seq![view[p + 1]]
    } else {
        Seq::empty()
    };
    if p > 0 {
        after.push(view[p - 1])
    } else {
        after
    }
}

/// What the preview shows: the image under the pointer unless the preview
/// is enlarged, else the selected one; and, when that is the selected one,
/// its neighbours in `view` to decode ahead.
pub open spec fn preview_spec(hovered: Option<usize>, enlarged: bool, selected: Option<usize>, view: Seq<usize>) -> Option<(usize, Seq<usize>)> {
    let target = if hovered is Some && !enlarged {
        hovered
    } else {
        selected
    };
    match target {
        None => None,
        Some(t) => if selected == Some(t) && first_place(view, t) is Some {
            Some((t, around(view, first_place(view, t)->0)))
        } else {
            Some((t, Seq::empty()))
        },
    }
}

proof fn lemma_first_place(view: Seq<usize>, id: usize, k: int)
    requires
        0 <= k <= view.len(),
        forall|j: int| 0 <= j < k ==> view[j] != id,
    ensures
        k < view.len() && view[k] == id ==> first_place(view, id) == Some(k),
        k == view.len() ==> first_place(view, id) is None,
    decreases view.len(),
{
    if view.len() > 0 {
        if k < view.len() {
            if view[k] == id {
                lemma_first_place(view.drop_last(), id, k);
            }
        } else {
            lemma_first_place(view.drop_last(), id, k - 1);
        }
    }
}

/// What the preview shows, and which neighbours to decode ahead.
pub fn preview_targets(hovered: Option<usize>, enlarged: bool, selected: Option<usize>, view: &Vec<usize>) -> (r: Option<(usize, Vec<usize>)>)
    ensures
        match r {
            Some((t, ns)) => preview_spec(hovered, enlarged, selected, view@) == Some((t, ns@)),
            None => preview_spec(hovered, enlarged, selected, view@) is None,
        },
{
    let target = if hovered.is_some() && !enlarged {
        hovered
    } else {
        selected
    };
    let t = match target {
        None => return None,
        Some(t) => t,
    };
    let mut neighbours: Vec<usize> = Vec::new();
    if selected == Some(t) {
        let mut k: usize = 0;
        while k < view.len() && view[k] != t
            invariant
                k <= view.len(),
                forall|j: int| 0 <= j < k ==> view@[j] != t,
            decreases view.len() - k,
        {
            k = k + 1;
        }
        proof {
            lemma_first_place(view@, t, k as int);
        }
        if k < view.len() {
            if k + 1 < view.len() {
                neighbours.push(view[k + 1]);
            }
            if k > 0 {
                neighbours.push(view[k - 1]);
            }
            assert(neighbours@ =~= around(view@, k as int));
        }
    }
    Some((t, neighbours))
}


proof fn lemma_evict(order: Seq<usize>, spared: Seq<usize>, dropped: Seq<usize>, bound: Set<usize>, cap: nat)
    requires
        forall|i: int| 0 <= i < spared.len() ==> bound.contains(#[trigger] spared[i]),
        forall|i: int| 0 <= i < dropped.len() ==> !bound.contains(#[trigger] dropped[i]),
    ensures
        ({
            let (kept, gone) = evict_spec(order, spared, dropped, bound, cap);
            &&& kept.len() + gone.len() == order.len() + spared.len() + dropped.len()
            &&& forall|i: int| 0 <= i < gone.len() ==> !bound.contains(#[trigger] gone[i])
            &&& kept.len() <= cap || forall|i: int| 0 <= i < kept.len() ==> bound.contains(#[trigger] kept[i])
        }),
    decreases order.len(),
{
    if order.len() + spared.len() <= cap || order.len() == 0 {
        let kept = order + spared;
        if order.len() == 0 {
            assert(kept =~= spared);
        }
    } else if bound.contains(order[0]) {
        let s2 = spared.push(order[0]);
        assert forall|i: int| 0 <= i < s2.len() implies bound.contains(#[trigger] s2[i]) by {
            if i < spared.len() {
                assert(s2[i] == spared[i]);
            }
        }
        lemma_evict(order.drop_first(), s2, dropped, bound, cap);
    } else {
        let d2 = dropped.push(order[0]);
        assert forall|i: int| 0 <= i < d2.len() implies !bound.contains(#[trigger] d2[i]) by {
            if i < dropped.len() {
                assert(d2[i] == dropped[i]);
            }
        }
        lemma_evict(order.drop_first(), spared, d2, bound, cap);
    }
}

/// Eviction bounds the thumbnails in memory: every thumbnail is either kept
/// or dropped, none on screen is dropped, and at most `cap` stay unless
/// all that stay are on screen.
pub proof fn eviction_bounds_memory(order: Seq<usize>, bound: Set<usize>, cap: nat)
    ensures
        ({
            let (kept, dropped) = evict_spec(order, Seq::empty(), Seq::empty(), bound, cap);
            &&& kept.len() + dropped.len() == order.len()
            &&& forall|i: int| 0 <= i < dropped.len() ==> !bound.contains(#[trigger] dropped[i])
            &&& kept.len() <= cap || forall|i: int| 0 <= i < kept.len() ==> bound.contains(#[trigger] kept[i])
        }),
{
    lemma_evict(order, Seq::empty(), Seq::empty(), bound, cap);
}

} // verus!
