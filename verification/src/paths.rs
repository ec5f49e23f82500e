//! Paths as the library sees them: `/`-separated text. The rules are those
//! of `std::path` on Unix for the parts this program uses: the file name,
//! its extension and stem, the parent directory, and joining.

use vstd::prelude::*;

verus! {

/// `p` without trailing separators and trailing `.` components; a lone
/// `/` (the root) or a lone `.` stays.
pub open spec fn trim_tail(p: Seq<char>) -> Seq<char>
    decreases p.len(),
{
    if p.len() <= 1 {
        p
    } else if p.last() == '/' {
        trim_tail(p.drop_last())
    } else if p.last() == '.' && p[p.len() - 2] == '/' {
        trim_tail(p.drop_last())
    } else {
        p
    }
}

/// Where the last component of `t` starts: just after its last `/`, or 0.
pub open spec fn name_start(t: Seq<char>) -> int
    decreases t.len(),
{
    if t.len() == 0 {
        0
    } else if t.last() == '/' {
        t.len() as int
    } else {
        name_start(t.drop_last())
    }
}

/// The text after the last `/` of `t`.
pub open spec fn last_part(t: Seq<char>) -> Seq<char> {
    t.subrange(name_start(t), t.len() as int)
}

/// The final component of `p`, if it is a name (not the root, `.` or `..`).
pub open spec fn file_name(p: Seq<char>) -> Option<Seq<char>> {
    let s = last_part(trim_tail(p));
    if s.len() == 0 || s == seq!['.'] || s == seq!['.', '.'] {
        None
    } else {
        Some(s)
    }
}

/// The path without its final component; `None` for the root and the empty path.
pub open spec fn parent(p: Seq<char>) -> Option<Seq<char>> {
    let t = trim_tail(p);
    let k = name_start(t);
    if t.len() == 0 || k == t.len() {
        None
    } else if k == 0 {
        Some(Seq::empty())
    } else {
        Some(trim_tail(t.subrange(0, k)))
    }
}

/// Index of the last `.` in `s`, or -1.
pub open spec fn last_dot(s: Seq<char>) -> int
    decreases s.len(),
{
    if s.len() == 0 {
        -1
    } else if s.last() == '.' {
        s.len() - 1
    } else {
        last_dot(s.drop_last())
    }
}

/// The extension of a file name: the text after its last `.`, unless that
/// dot is the name's first character.
pub open spec fn extension(name: Seq<char>) -> Option<Seq<char>> {
    let d = last_dot(name);
    if name == seq!['.', '.'] || d <= 0 {
        None
    } else {
        Some(name.subrange(d + 1, name.len() as int))
    }
}

/// A file name without its extension.
pub open spec fn stem(name: Seq<char>) -> Seq<char> {
    let d = last_dot(name);
    if name == seq!['.', '.'] || d <= 0 {
        name
    } else {
        name.subrange(0, d)
    }
}

/// `p` with the extension of its file name removed (`Path::with_extension("")`).
pub open spec fn without_extension(p: Seq<char>) -> Seq<char> {
    match file_name(p) {
        None => p,
        Some(n) => p.subrange(0, name_start(trim_tail(p)) + stem(n).len()),
    }
}

/// `name` inside `dir` (`Path::join`); an absolute `name` stands alone.
pub open spec fn join(dir: Seq<char>, name: Seq<char>) -> Seq<char> {
    if name.len() > 0 && name[0] == '/' {
        name
    } else if dir.len() == 0 || dir.last() == '/' {
        dir + name
    } else {
        dir + seq!['/'] + name
    }
}

proof fn lemma_trim_tail_prefix(p: Seq<char>)
    ensures
        trim_tail(p).len() <= p.len(),
        trim_tail(p) == p.subrange(0, trim_tail(p).len() as int),
    decreases p.len(),
{
    if p.len() <= 1 {
        assert(p.subrange(0, p.len() as int) =~= p);
    } else if p.last() == '/' || (p.last() == '.' && p[p.len() - 2] == '/') {
        lemma_trim_tail_prefix(p.drop_last());
        let t = trim_tail(p.drop_last());
        assert(p.drop_last().subrange(0, t.len() as int) =~= p.subrange(0, t.len() as int));
    } else {
        assert(p.subrange(0, p.len() as int) =~= p);
    }
}

proof fn lemma_name_start_bounds(t: Seq<char>)
    ensures
        0 <= name_start(t) <= t.len(),
        name_start(t) > 0 ==> t[name_start(t) - 1] == '/',
        forall|k: int| name_start(t) <= k < t.len() ==> t[k] != '/',
    decreases t.len(),
{
    if t.len() > 0 && t.last() != '/' {
        lemma_name_start_bounds(t.drop_last());
        assert forall|k: int| name_start(t) <= k < t.len() implies t[k] != '/' by {
            if k < t.len() - 1 {
                assert(t.drop_last()[k] == t[k]);
            }
        }
        if name_start(t) > 0 {
            assert(t.drop_last()[name_start(t) - 1] == t[name_start(t) - 1]);
        }
    }
}

proof fn lemma_last_dot_bounds(s: Seq<char>)
    ensures
        -1 <= last_dot(s) < s.len(),
        last_dot(s) >= 0 ==> s[last_dot(s)] == '.',
        forall|k: int| last_dot(s) < k < s.len() ==> s[k] != '.',
    decreases s.len(),
{
    if s.len() > 0 && s.last() != '.' {
        lemma_last_dot_bounds(s.drop_last());
        assert forall|k: int| last_dot(s) < k < s.len() implies s[k] != '.' by {
            if k < s.len() - 1 {
                assert(s.drop_last()[k] == s[k]);
            }
        }
        if last_dot(s) >= 0 {
            assert(s.drop_last()[last_dot(s)] == s[last_dot(s)]);
        }
    }
}

/// Length of `trim_tail(p)`, which is a prefix of `p`.
fn trimmed_tail_len(p: &[char]) -> (n: usize)
    ensures
        n <= p.len(),
        trim_tail(p@) == p@.subrange(0, n as int),
{
    let mut n = p.len();
    assert(p@.subrange(0, n as int) =~= p@);
    while n > 1 && (p[n - 1] == '/' || (p[n - 1] == '.' && p[n - 2] == '/'))
        invariant
            n <= p.len(),
            trim_tail(p@) == trim_tail(p@.subrange(0, n as int)),
        decreases n,
    {
        let ghost q = p@.subrange(0, n as int);
        assert(q.drop_last() =~= p@.subrange(0, n - 1));
        n = n - 1;
    }
    proof {
        let q = p@.subrange(0, n as int);
        assert(trim_tail(q) == q);
    }
    n
}

/// Where the last component of `p[..n]` starts.
fn name_start_of(p: &[char], n: usize) -> (k: usize)
    requires
        n <= p.len(),
    ensures
        k == name_start(p@.subrange(0, n as int)),
        k <= n,
{
    let mut k = n;
    while k > 0 && p[k - 1] != '/'
        invariant
            k <= n <= p.len(),
            name_start(p@.subrange(0, n as int)) == name_start(p@.subrange(0, k as int)),
        decreases k,
    {
        let ghost q = p@.subrange(0, k as int);
        assert(q.drop_last() =~= p@.subrange(0, k - 1));
        k = k - 1;
    }
    k
}

/// Index of the last `.` in `s`, or `None`.
fn last_dot_of(s: &[char]) -> (d: Option<usize>)
    ensures
        match d {
            Some(i) => last_dot(s@) == i as int,
            None => last_dot(s@) == -1,
        },
{
    let mut k = s.len();
    assert(s@.subrange(0, k as int) =~= s@);
    while k > 0 && s[k - 1] != '.'
        invariant
            k <= s.len(),
            last_dot(s@) == last_dot(s@.subrange(0, k as int)),
        decreases k,
    {
        let ghost q = s@.subrange(0, k as int);
        assert(q.drop_last() =~= s@.subrange(0, k - 1));
        k = k - 1;
    }
    if k == 0 {
        None
    } else {
        Some(k - 1)
    }
}

fn is_dot_or_dotdot(s: &[char]) -> (r: bool)
    ensures
        r == (s@ == seq!['.'] || s@ == seq!['.', '.']),
{
    if s.len() == 1 {
        let r = s[0] == '.';
        assert(r ==> s@ =~= seq!['.']);
        r
    } else if s.len() == 2 {
        let r = s[0] == '.' && s[1] == '.';
        assert(r ==> s@ =~= seq!['.', '.']);
        assert(s@ == seq!['.', '.'] ==> s@[0] == '.' && s@[1] == '.');
        r
    } else {
        false
    }
}

/// The final component of `p`, if it names something (`Path::file_name`).
pub fn file_name_of(p: &[char]) -> (r: Option<Vec<char>>)
    ensures
        match r {
            Some(v) => file_name(p@) == Some(v@),
            None => file_name(p@) is None,
        },
{
    let n = trimmed_tail_len(p);
    let k = name_start_of(p, n);
    proof {
        lemma_name_start_bounds(p@.subrange(0, n as int));
    }
    let part = crate::text::slice_chars(p, k, n);
    assert(part@ =~= last_part(trim_tail(p@)));
    if part.len() == 0 || is_dot_or_dotdot(&part) {
        None
    } else {
        Some(part)
    }
}

/// The directory part of `p` (`Path::parent`).
pub fn parent_of(p: &[char]) -> (r: Option<Vec<char>>)
    ensures
        match r {
            Some(v) => parent(p@) == Some(v@),
            None => parent(p@) is None,
        },
{
    let n = trimmed_tail_len(p);
    let k = name_start_of(p, n);
    if n == 0 || k == n {
        return None;
    }
    if k == 0 {
        let v: Vec<char> = Vec::new();
        assert(v@ =~= Seq::<char>::empty());
        return Some(v);
    }
    let head = crate::text::slice_chars(p, 0, k);
    let m = trimmed_tail_len(&head);
    let r = crate::text::slice_chars(&head, 0, m);
    assert(p@.subrange(0, n as int).subrange(0, k as int) =~= head@);
    Some(r)
}

/// The extension of file name `name` (`Path::extension`).
pub fn extension_of(name: &[char]) -> (r: Option<Vec<char>>)
    ensures
        match r {
            Some(v) => extension(name@) == Some(v@),
            None => extension(name@) is None,
        },
{
    proof {
        lemma_last_dot_bounds(name@);
    }
    let dotdot = name.len() == 2 && name[0] == '.' && name[1] == '.';
    assert(dotdot == (name@ == seq!['.', '.'])) by {
        if name@ == seq!['.', '.'] {
            assert(name@[0] == '.' && name@[1] == '.');
        }
        if dotdot {
            assert(name@ =~= seq!['.', '.']);
        }
    }
    if dotdot {
        return None;
    }
    match last_dot_of(name) {
        Some(d) if d > 0 => Some(crate::text::slice_chars(name, d + 1, name.len())),
        _ => None,
    }
}

/// File name `name` without its extension (`Path::file_stem`).
pub fn stem_of(name: &[char]) -> (r: Vec<char>)
    ensures
        r@ == stem(name@),
{
    proof {
        lemma_last_dot_bounds(name@);
    }
    let dotdot = name.len() == 2 && name[0] == '.' && name[1] == '.';
    assert(dotdot == (name@ == seq!['.', '.'])) by {
        if name@ == seq!['.', '.'] {
            assert(name@[0] == '.' && name@[1] == '.');
        }
        if dotdot {
            assert(name@ =~= seq!['.', '.']);
        }
    }
    if !dotdot {
        if let Some(d) = last_dot_of(name) {
            if d > 0 {
                return crate::text::slice_chars(name, 0, d);
            }
        }
    }
    crate::text::slice_chars(name, 0, name.len())
}

/// `p` without the extension of its file name (`Path::with_extension("")`).
pub fn without_extension_of(p: &[char]) -> (r: Vec<char>)
    ensures
        r@ == without_extension(p@),
{
    let n = trimmed_tail_len(p);
    let k = name_start_of(p, n);
    proof {
        lemma_name_start_bounds(p@.subrange(0, n as int));
    }
    match file_name_of(p) {
        None => crate::text::slice_chars(p, 0, p.len()),
        Some(name) => {
            let s = stem_of(&name);
            proof {
                lemma_last_dot_bounds(name@);
            }
            assert(s.len() <= name.len());
            assert(name@ == p@.subrange(k as int, n as int));
            crate::text::slice_chars(p, 0, k + s.len())
        },
    }
}

/// `name` inside `dir` (`Path::join`).
pub fn join_of(dir: &[char], name: &[char]) -> (r: Vec<char>)
    ensures
        r@ == join(dir@, name@),
{
    if name.len() > 0 && name[0] == '/' {
        crate::text::slice_chars(name, 0, name.len())
    } else if dir.len() == 0 || dir[dir.len() - 1] == '/' {
        crate::text::concat(dir, name)
    } else {
        let mut d = crate::text::slice_chars(dir, 0, dir.len());
        d.push('/');
        crate::text::concat(&d, name)
    }
}

/// A piece of a path that names something: not empty and not `.`.
pub open spec fn is_named(piece: Seq<char>) -> bool {
    piece.len() > 0 && piece != seq!['.']
}

/// The components of `p` as `Path::components` sees them: the root, or a
/// leading `.`, then the named pieces; repeated `/`, inner `.` and a
/// trailing `/` do not count. Two paths are the same path when their
/// components are.
pub open spec fn components(p: Seq<char>) -> Seq<Seq<char>> {
    let pieces = crate::text::segments(p, '/');
    let head = if p.len() > 0 && p[0] == '/' {
        seq![seq!['/']]
    } else if pieces[0] == seq!['.'] {
        seq![seq!['.']]
    } else {
        Seq::empty()
    };
    head + pieces.filter(|c: Seq<char>| is_named(c))
}

/// Do `a` and `b` name the same path (`Path` equality)?
pub open spec fn same_path(a: Seq<char>, b: Seq<char>) -> bool {
    components(a) == components(b)
}

/// The components of `p`.
pub fn components_of(p: &[char]) -> (r: Vec<Vec<char>>)
    ensures
        r@.map_values(|c: Vec<char>| c@) == components(p@),
{
    let pieces = crate::text::split_of(p, '/');
    let ghost all = pieces@.map_values(|c: Vec<char>| c@);
    proof {
        crate::text::lemma_segments_len(p@, '/');
    }
    assert(all.len() >= 1);
    let mut out: Vec<Vec<char>> = Vec::new();
    if p.len() > 0 && p[0] == '/' {
        let mut root: Vec<char> = Vec::new();
        root.push('/');
        out.push(root);
        assert(out@.map_values(|c: Vec<char>| c@) =~= seq![seq!['/']]);
    } else if pieces[0].len() == 1 && pieces[0][0] == '.' {
        assert(all[0] =~= seq!['.']);
        let mut dot: Vec<char> = Vec::new();
        dot.push('.');
        out.push(dot);
        assert(out@.map_values(|c: Vec<char>| c@) =~= seq![seq!['.']]);
    } else {
        assert(all[0] != seq!['.']) by {
            if all[0] == seq!['.'] {
                assert(all[0].len() == 1);
            }
        }
        assert(out@.map_values(|c: Vec<char>| c@) =~= Seq::<Seq<char>>::empty());
    }
    let ghost head = out@.map_values(|c: Vec<char>| c@);
    let mut i: usize = 0;
    while i < pieces.len()
        invariant
            i <= pieces.len(),
            all == pieces@.map_values(|c: Vec<char>| c@),
            out@.map_values(|c: Vec<char>| c@) == head + all.subrange(0, i as int).filter(|c: Seq<char>| is_named(c)),
        decreases pieces.len() - i,
    {
        proof {
            all.subrange(0, i as int).lemma_filter_push(all[i as int], |c: Seq<char>| is_named(c));
            assert(all.subrange(0, i + 1) =~= all.subrange(0, i as int).push(all[i as int]));
        }
        let piece = &pieces[i];
        let named = piece.len() > 0 && !(piece.len() == 1 && piece[0] == '.');
        assert(named == is_named(all[i as int])) by {
            if all[i as int] == seq!['.'] {
                assert(all[i as int].len() == 1);
            }
            if piece.len() == 1 && piece[0] == '.' {
                assert(all[i as int] =~= seq!['.']);
            }
        }
        if named {
            let ghost before = out@;
            let copy = crate::text::slice_chars(piece, 0, piece.len());
            assert(copy@ =~= all[i as int]);
            out.push(copy);
            proof {
                crate::text::lemma_map_push(before, copy, |c: Vec<char>| c@);
            }
        }
        i = i + 1;
    }
    assert(all.subrange(0, pieces.len() as int) =~= all);
    out
}

/// The components `c` as plain values.
pub open spec fn parts_view(c: Seq<Vec<char>>) -> Seq<Seq<char>> {
    c.map_values(|x: Vec<char>| x@)
}

/// Are the components `a` and `b` the same?
pub fn same_parts(a: &Vec<Vec<char>>, b: &Vec<Vec<char>>) -> (r: bool)
    ensures
        r == (parts_view(a@) == parts_view(b@)),
{
    let ghost sa = parts_view(a@);
    let ghost sb = parts_view(b@);
    if a.len() != b.len() {
        assert(sa.len() != sb.len());
        return false;
    }
    let mut i: usize = 0;
    while i < a.len()
        invariant
            i <= a.len(),
            a.len() == b.len(),
            sa == parts_view(a@),
            sb == parts_view(b@),
            forall|j: int| 0 <= j < i ==> sa[j] == sb[j],
        decreases a.len() - i,
    {
        if !crate::text::same(&a[i], &b[i]) {
            assert(sa[i as int] != sb[i as int]);
            return false;
        }
        i = i + 1;
    }
    assert(sa =~= sb);
    true
}

/// Do `a` and `b` name the same path (`Path` equality)?
pub fn same_path_of(a: &[char], b: &[char]) -> (r: bool)
    ensures
        r == same_path(a@, b@),
{
    let ca = components_of(a);
    let cb = components_of(b);
    same_parts(&ca, &cb)
}

} // verus!
