//! What the command palette decides: how an answer to a yes/no question
//! reads, which lines a query keeps, which row the arrow keys move to, what
//! its keys and enter do, and the key hints it shows. The palette's
//! widgets are the caller's.

use vstd::prelude::*;

use crate::text::{lowercase_text, occurs, trim, words};

verus! {

/// How many offered lines a query shows at most.
pub const OFFERED: usize = 12;

/// What an answer to a yes/no question says: nothing means `default`;
/// y, yes, j or ja (any case) mean yes; anything else no.
pub open spec fn answer_spec(answer: Seq<char>, default: bool) -> bool {
    let a = lowercase_text(trim(answer));
    if a.len() == 0 {
        default
    } else {
        a == seq!['y'] || a == seq!['y', 'e', 's'] || a == seq!['j'] || a == seq!['j', 'a']
    }
}

/// What an answer to a yes/no question says.
pub fn answer_yes(answer: &str, default: bool) -> (r: bool)
    ensures
        r == answer_spec(answer@, default),
{
    let t = crate::text::string_of(&crate::text::trimmed(&crate::text::chars_of(answer)));
    let a = crate::text::chars_of(crate::text::lower(t.as_str()).as_str());
    if a.len() == 0 {
        return default;
    }
    let y = a.len() == 1 && a[0] == 'y';
    let yes = a.len() == 3 && a[0] == 'y' && a[1] == 'e' && a[2] == 's';
    let j = a.len() == 1 && a[0] == 'j';
    let ja = a.len() == 2 && a[0] == 'j' && a[1] == 'a';
    proof {
        if a@ == seq!['y'] {
            assert(a@[0] == 'y');
        }
        if a@ == seq!['y', 'e', 's'] {
            assert(a@[0] == 'y' && a@[1] == 'e' && a@[2] == 's');
        }
        if a@ == seq!['j'] {
            assert(a@[0] == 'j');
        }
        if a@ == seq!['j', 'a'] {
            assert(a@[0] == 'j' && a@[1] == 'a');
        }
        if y {
            assert(a@ =~= seq!['y']);
        }
        if yes {
            assert(a@ =~= seq!['y', 'e', 's']);
        }
        if j {
            assert(a@ =~= seq!['j']);
        }
        if ja {
            assert(a@ =~= seq!['j', 'a']);
        }
    }
    y || yes || j || ja
}

/// Does `text` match `query`: does every word of the query occur in the
/// text, case aside?
pub open spec fn matches_spec(query: Seq<char>, text: Seq<char>) -> bool {
    let ws = words(lowercase_text(query));
    forall|i: int| 0 <= i < ws.len() ==> occurs(lowercase_text(text), #[trigger] ws[i])
}

/// Does `text` match `query`: does every word of the query occur in the
/// text, case aside?
pub fn query_matches(query: &str, text: &str) -> (r: bool)
    ensures
        r == matches_spec(query@, text@),
{
    let q = crate::text::chars_of(crate::text::lower(query).as_str());
    let t = crate::text::chars_of(crate::text::lower(text).as_str());
    let ws = crate::text::words_of(&q);
    let ghost all = ws@.map_values(|w: Vec<char>| w@);
    let mut k: usize = 0;
    while k < ws.len()
        invariant
            k <= ws.len(),
            all == ws@.map_values(|w: Vec<char>| w@),
            all == words(lowercase_text(query@)),
            t@ == lowercase_text(text@),
            forall|i: int| 0 <= i < k ==> occurs(t@, #[trigger] all[i]),
        decreases ws.len() - k,
    {
        if !crate::text::contains_text(&t, &ws[k]) {
            assert(!occurs(t@, all[k as int]));
            return false;
        }
        k = k + 1;
    }
    true
}

/// The commands a query keeps, as indices into `commands`, in order.
pub open spec fn kept_commands(query: Seq<char>, commands: Seq<Seq<char>>, k: nat) -> Seq<usize>
    decreases k,
{
    if k == 0 {
        Seq::empty()
    } else if matches_spec(query, commands[k - 1]) {
        kept_commands(query, commands, (k - 1) as nat).push((k - 1) as usize)
    } else {
        kept_commands(query, commands, (k - 1) as nat)
    }
}

/// The commands `query` keeps, as indices into `commands`, in order.
pub fn command_list(query: &str, commands: &[&str]) -> (r: Vec<usize>)
    ensures
        r@ == kept_commands(query@, commands@.map_values(|c: &str| c@), commands@.len()),
{
    let ghost all = commands@.map_values(|c: &str| c@);
    let mut out: Vec<usize> = Vec::new();
    let mut k: usize = 0;
    while k < commands.len()
        invariant
            k <= commands.len(),
            all == commands@.map_values(|c: &str| c@),
            out@ == kept_commands(query@, all, k as nat),
        decreases commands.len() - k,
    {
        assert(all[k as int] == commands@[k as int]@);
        if query_matches(query, commands[k]) {
            out.push(k);
        }
        k = k + 1;
    }
    out
}

/// The offered lines a query keeps among the first `k`: the line and its
/// note match, and the line is not what the entry already holds; as
/// indices, at most `OFFERED`.
pub open spec fn kept_offers(query: Seq<char>, offers: Seq<(Seq<char>, Seq<char>)>, entry: Seq<char>, k: nat) -> Seq<
    usize,
>
    decreases k,
{
    if k == 0 {
        Seq::empty()
    } else {
        let before = kept_offers(query, offers, entry, (k - 1) as nat);
        let (line, note) = offers[k - 1];
        if before.len() < OFFERED && matches_spec(query, line + seq![' '] + note) && line != entry {
            before.push((k - 1) as usize)
        } else {
            before
        }
    }
}

/// The offered lines `query` keeps (line and note match, and the line is
/// not what the entry holds already), as indices, at most `OFFERED`.
pub fn offer_list(query: &str, offers: &[(String, String)], entry: &str) -> (r: Vec<usize>)
    ensures
        r@ == kept_offers(query@, offers@.map_values(|o: (String, String)| (o.0@, o.1@)), entry@, offers@.len()),
{
    let ghost all = offers@.map_values(|o: (String, String)| (o.0@, o.1@));
    let e = crate::text::chars_of(entry);
    let mut out: Vec<usize> = Vec::new();
    let mut k: usize = 0;
    while k < offers.len()
        invariant
            k <= offers.len(),
            all == offers@.map_values(|o: (String, String)| (o.0@, o.1@)),
            e@ == entry@,
            out@ == kept_offers(query@, all, entry@, k as nat),
            out.len() <= OFFERED,
        decreases offers.len() - k,
    {
        assert(all[k as int] == (offers@[k as int].0@, offers@[k as int].1@));
        if out.len() < OFFERED {
            let mut both = crate::text::chars_of(offers[k].0.as_str());
            both.push(' ');
            crate::text::push_all(&mut both, &crate::text::chars_of(offers[k].1.as_str()));
            let line = crate::text::chars_of(offers[k].0.as_str());
            assert(both@ =~= all[k as int].0 + seq![' '] + all[k as int].1);
            let text = crate::text::string_of(&both);
            if query_matches(query, text.as_str()) && !crate::text::same(&line, &e) {
                out.push(k);
            }
        }
        k = k + 1;
    }
    out
}

/// The row the arrow keys move to among `count` rows, from the selected
/// one: around the ends; with none selected, the first going down and the
/// last going up.
pub open spec fn row_spec(count: nat, selected: Option<usize>, delta: i32) -> Option<int> {
    if count == 0 {
        None
    } else {
        match selected {
            Some(i) => Some((i + delta) % (count as int)),
            None => if delta > 0 {
                Some(0)
            } else {
                Some(count - 1)
            },
        }
    }
}

/// The row the arrow keys move to among `count` rows.
pub fn row_after(count: usize, selected: Option<usize>, delta: i32) -> (r: Option<usize>)
    requires
        count <= i32::MAX,
        selected matches Some(i) ==> i < count,
    ensures
        match r {
            Some(n) => row_spec(count as nat, selected, delta) == Some(n as int),
            None => row_spec(count as nat, selected, delta) is None,
        },
{
    if count == 0 {
        return None;
    }
    match selected {
        Some(i) => {
            let c = count as u64;
            if delta >= 0 {
                let x = i as u64 + delta as u64;
                Some((x % c) as usize)
            } else {
                let back = (-(delta as i64)) as u64;
                if back <= i as u64 {
                    let x = i as u64 - back;
                    Some((x % c) as usize)
                } else {
                    let y = back - i as u64 - 1;
                    let r = y % c;
                    proof {
                        let q = y as int / c as int;
                        vstd::arithmetic::div_mod::lemma_fundamental_div_mod(y as int, c as int);
                        assert((i + delta) as int == (-(q + 1)) * (c as int) + (c - 1 - r)) by (nonlinear_arith)
                            requires
                                y as int == (c as int) * q + r,
                                y as int == back - i - 1,
                                back as int == -delta,
                        ;
                        vstd::arithmetic::div_mod::lemma_fundamental_div_mod_converse(
                            (i + delta) as int,
                            c as int,
                            -(q + 1),
                            (c - 1 - r) as int,
                        );
                    }
                    Some((c - 1 - r) as usize)
                }
            }
        },
        None => if delta > 0 {
            Some(0)
        } else {
            Some(count - 1)
        },
    }
}

/// What the palette shows.
#[derive(Clone, Copy, Debug, PartialEq, Eq, Structural)]
pub enum Mode {
    Closed,
    /// The command list.
    Commands,
    /// A line of text; with `complete_dirs`, tab completes folder names.
    Prompt { complete_dirs: bool },
    /// A line of text, with lines to pick from.
    Pick,
    /// The keyboard shortcuts.
    Help,
}

/// A key as the palette sees it.
#[derive(Clone, Copy, Debug, PartialEq, Eq, Structural)]
pub enum PaletteKey {
    Escape,
    Down,
    Up,
    Tab,
    /// Shift+tab.
    BackTab,
    /// A key that types this character.
    Char(char),
    /// Shift, control, alt, super or AltGr alone.
    Modifier,
    Other,
}

/// What the palette does with a key.
#[derive(Clone, Copy, Debug, PartialEq, Eq, Structural)]
pub enum Reaction {
    /// Not the palette's key: the entry gets it.
    Pass,
    /// Keep the key from everything else, doing nothing.
    Swallow,
    Close,
    /// Move the selected row by this many.
    Move(i32),
    /// Complete the folder name typed.
    Complete,
}

/// The reaction to `key` (with ctrl held or not) in `mode`: the help sheet
/// closes on any key but a modifier; escape closes; in lists the arrows,
/// ctrl+n / ctrl+p and tab move the selection; in folder prompts tab
/// completes.
pub open spec fn reaction_spec(mode: Mode, key: PaletteKey, ctrl: bool) -> Reaction {
    let listing = mode == Mode::Commands || mode == Mode::Pick;
    if mode == Mode::Help {
        if key == PaletteKey::Modifier {
            Reaction::Swallow
        } else {
            Reaction::Close
        }
    } else {
        match key {
            PaletteKey::Escape => Reaction::Close,
            PaletteKey::Down if listing => Reaction::Move(1i32),
            PaletteKey::Up if listing => Reaction::Move(-1i32),
            PaletteKey::Char(c) if ctrl && listing && c == 'n' => Reaction::Move(1i32),
            PaletteKey::Char(c) if ctrl && listing && c == 'p' => Reaction::Move(-1i32),
            PaletteKey::Tab => if listing {
                Reaction::Move(1i32)
            } else if mode == (Mode::Prompt { complete_dirs: true }) {
                Reaction::Complete
            } else {
                Reaction::Swallow
            },
            PaletteKey::BackTab => if listing {
                Reaction::Move(-1i32)
            } else if mode == (Mode::Prompt { complete_dirs: true }) {
                Reaction::Complete
            } else {
                Reaction::Swallow
            },
            _ => Reaction::Pass,
        }
    }
}

/// The reaction to `key` in `mode`.
pub fn reaction(mode: Mode, key: PaletteKey, ctrl: bool) -> (r: Reaction)
    ensures
        r == reaction_spec(mode, key, ctrl),
{
    let listing = match mode {
        Mode::Commands | Mode::Pick => true,
        _ => false,
    };
    let completing = match mode {
        Mode::Prompt { complete_dirs } => complete_dirs,
        _ => false,
    };
    if let Mode::Help = mode {
        return if key == PaletteKey::Modifier {
            Reaction::Swallow
        } else {
            Reaction::Close
        };
    }
    match key {
        PaletteKey::Escape => Reaction::Close,
        PaletteKey::Down if listing => Reaction::Move(1),
        PaletteKey::Up if listing => Reaction::Move(-1),
        PaletteKey::Char(c) if ctrl && listing && c == 'n' => Reaction::Move(1),
        PaletteKey::Char(c) if ctrl && listing && c == 'p' => Reaction::Move(-1),
        PaletteKey::Tab => if listing {
            Reaction::Move(1)
        } else if completing {
            Reaction::Complete
        } else {
            Reaction::Swallow
        },
        PaletteKey::BackTab => if listing {
            Reaction::Move(-1)
        } else if completing {
            Reaction::Complete
        } else {
            Reaction::Swallow
        },
        _ => Reaction::Pass,
    }
}

/// The line of key hints under the palette in `mode`.
pub open spec fn hint_spec(mode: Mode) -> Seq<char> {
    match mode {
        Mode::Prompt { complete_dirs } => if complete_dirs {
            "enter accept · tab complete · esc cancel"@
        } else {
            "enter accept · esc cancel"@
        },
        Mode::Pick => "↑↓ pick a line to edit · enter run · esc cancel"@,
        Mode::Help => "any key to close"@,
        _ => ""@,
    }
}

/// The line of key hints under the palette in `mode`.
pub fn hint(mode: Mode) -> (r: &'static str)
    ensures
        r@ == hint_spec(mode),
{
    match mode {
        Mode::Prompt { complete_dirs } => if complete_dirs {
            "enter accept · tab complete · esc cancel"
        } else {
            "enter accept · esc cancel"
        },
        Mode::Pick => "↑↓ pick a line to edit · enter run · esc cancel",
        Mode::Help => "any key to close",
        _ => "",
    }
}


/// What enter does in the palette.
#[derive(Clone, Copy, Debug, PartialEq, Eq, Structural)]
pub enum Acceptance {
    /// Close, then run the command with this index, if any.
    Run(Option<usize>),
    /// Put the offered line with this index, or nothing, into the entry
    /// for editing; the palette stays open.
    Edit(Option<usize>),
    /// Close and hand the entry's text to whoever asked.
    Reply,
    Close,
}

/// What enter does in `mode` with row `row` selected among the listed
/// entries `listed` (indices of commands or offered lines): run the chosen
/// command; put a picked line into the entry; otherwise answer with the
/// entry's text; in the help sheet, close.
pub open spec fn acceptance_spec(mode: Mode, row: Option<usize>, listed: Seq<usize>) -> Acceptance {
    let chosen = match row {
        Some(r) => if r < listed.len() {
            Some(listed[r as int])
        } else {
            None
        },
        None => None,
    };
    match mode {
        Mode::Commands => Acceptance::Run(chosen),
        Mode::Pick => if row is Some {
            Acceptance::Edit(chosen)
        } else {
            Acceptance::Reply
        },
        Mode::Prompt { .. } => Acceptance::Reply,
        _ => Acceptance::Close,
    }
}

/// What enter does in `mode` with row `row` selected among `listed`.
pub fn acceptance(mode: Mode, row: Option<usize>, listed: &Vec<usize>) -> (r: Acceptance)
    ensures
        r == acceptance_spec(mode, row, listed@),
{
    let chosen = match row {
        Some(r) => if r < listed.len() {
            Some(listed[r])
        } else {
            None
        },
        None => None,
    };
    match mode {
        Mode::Commands => Acceptance::Run(chosen),
        Mode::Pick => if row.is_some() {
            Acceptance::Edit(chosen)
        } else {
            Acceptance::Reply
        },
        Mode::Prompt { .. } => Acceptance::Reply,
        _ => Acceptance::Close,
    }
}

} // verus!
