//! Which files are images, how their names sort, and which images a
//! command line asks for.

use vstd::prelude::*;
use std::cmp::Ordering;
use crate::paths;
use crate::text::{self, ascii_lower, code, is_digit, lowercase};

verus! {

/// The extensions taken for images.
pub open spec fn image_extensions() -> Seq<Seq<char>> {
    seq![
        seq!['j', 'p', 'g'],
        seq!['j', 'p', 'e', 'g'],
        seq!['p', 'n', 'g'],
        seq!['w', 'e', 'b', 'p'],
        seq!['g', 'i', 'f'],
        seq!['t', 'i', 'f'],
        seq!['t', 'i', 'f', 'f'],
    ]
}

/// `a` and `b` are equal when ASCII letters are compared without case.
pub open spec fn same_ignoring_ascii_case(a: Seq<char>, b: Seq<char>) -> bool {
    a.len() == b.len() && forall|i: int| 0 <= i < a.len() ==> ascii_lower(a[i]) == ascii_lower(b[i])
}

/// The extension of the file `path` names, if it has one.
pub open spec fn path_extension(path: Seq<char>) -> Option<Seq<char>> {
    match paths::file_name(path) {
        Some(n) => paths::extension(n),
        None => None,
    }
}

/// Does `path` carry one of the image extensions, in any letter case?
pub open spec fn spec_is_image(path: Seq<char>) -> bool {
    match path_extension(path) {
        Some(e) => exists|k: int|
            0 <= k < image_extensions().len() && same_ignoring_ascii_case(
                e,
                #[trigger] image_extensions()[k],
            ),
        None => false,
    }
}

/// Does `path` end in `.jpg` or `.jpeg`, in any letter case?
pub open spec fn spec_is_jpeg(path: Seq<char>) -> bool {
    let e = match path_extension(path) {
        Some(e) => e,
        None => Seq::empty(),
    };
    same_ignoring_ascii_case(e, seq!['j', 'p', 'g']) || same_ignoring_ascii_case(
        e,
        seq!['j', 'p', 'e', 'g'],
    )
}

fn lower_ascii(c: char) -> (r: char)
    ensures
        r == ascii_lower(c),
{
    if 'A' <= c && c <= 'Z' {
        ((c as u8) + 32) as char
    } else {
        c
    }
}

/// `str::eq_ignore_ascii_case` on characters.
pub fn eq_ignore_ascii_case(a: &[char], b: &[char]) -> (r: bool)
    ensures
        r == same_ignoring_ascii_case(a@, b@),
{
    if a.len() != b.len() {
        return false;
    }
    let mut i: usize = 0;
    while i < a.len()
        invariant
            i <= a.len() == b.len(),
            forall|k: int| 0 <= k < i ==> ascii_lower(a@[k]) == ascii_lower(b@[k]),
        decreases a.len() - i,
    {
        if lower_ascii(a[i]) != lower_ascii(b[i]) {
            return false;
        }
        i = i + 1;
    }
    true
}

fn image_extension(k: usize) -> (e: Vec<char>)
    requires
        k < 7,
    ensures
        e@ == image_extensions()[k as int],
{
    if k == 0 {
        vec!['j', 'p', 'g']
    } else if k == 1 {
        vec!['j', 'p', 'e', 'g']
    } else if k == 2 {
        vec!['p', 'n', 'g']
    } else if k == 3 {
        vec!['w', 'e', 'b', 'p']
    } else if k == 4 {
        vec!['g', 'i', 'f']
    } else if k == 5 {
        vec!['t', 'i', 'f']
    } else {
        vec!['t', 'i', 'f', 'f']
    }
}

fn extension_chars(path: &[char]) -> (r: Option<Vec<char>>)
    ensures
        match r {
            Some(e) => path_extension(path@) == Some(e@),
            None => path_extension(path@) is None,
        },
{
    match paths::file_name_of(path) {
        Some(name) => paths::extension_of(&name),
        None => None,
    }
}

/// Does `path` name an image file, judging by its extension
/// (jpg, jpeg, png, webp, gif, tif, tiff, in any letter case)?
pub fn is_image(path: &str) -> (r: bool)
    ensures
        r == spec_is_image(path@),
{
    let p = text::chars_of(path);
    match extension_chars(&p) {
        None => false,
        Some(e) => {
            let mut k: usize = 0;
            while k < 7
                invariant
                    k <= 7,
                    path_extension(path@) == Some(e@),
                    forall|j: int|
                        0 <= j < k ==> !same_ignoring_ascii_case(
                            e@,
                            #[trigger] image_extensions()[j],
                        ),
                decreases 7 - k,
            {
                let x = image_extension(k);
                if eq_ignore_ascii_case(&e, &x) {
                    return true;
                }
                k = k + 1;
            }
            false
        },
    }
}

/// Does `path` name a JPEG file (extension jpg or jpeg, any letter case)?
pub fn is_jpeg(path: &str) -> (r: bool)
    ensures
        r == spec_is_jpeg(path@),
{
    let p = text::chars_of(path);
    let e = match extension_chars(&p) {
        Some(e) => e,
        None => {
            let v: Vec<char> = Vec::new();
            assert(v@ =~= Seq::<char>::empty());
            v
        },
    };
    eq_ignore_ascii_case(&e, &image_extension(0)) || eq_ignore_ascii_case(&e, &image_extension(1))
}

/// The file name of `path`, or nothing.
pub open spec fn name_or_empty(path: Seq<char>) -> Seq<char> {
    match paths::file_name(path) {
        Some(n) => n,
        None => Seq::empty(),
    }
}

/// The last component of `path`, empty when there is none.
pub fn file_name(path: &str) -> (r: String)
    ensures
        r@ == name_or_empty(path@),
{
    let p = text::chars_of(path);
    match paths::file_name_of(&p) {
        Some(n) => text::string_of(&n),
        None => String::new(),
    }
}


/// The result of comparing two values.
#[derive(Clone, Copy, Debug, PartialEq, Eq, Structural)]
pub enum Order {
    Less,
    Equal,
    Greater,
}

/// The std `Ordering` that says the same.
pub open spec fn ordering(o: Order) -> Ordering {
    match o {
        Order::Less => Ordering::Less,
        Order::Equal => Ordering::Equal,
        Order::Greater => Ordering::Greater,
    }
}

/// The opposite answer.
pub open spec fn flip(o: Order) -> Order {
    match o {
        Order::Less => Order::Greater,
        Order::Equal => Order::Equal,
        Order::Greater => Order::Less,
    }
}

/// Character sequences ordered by code point, the way `str` orders text.
pub open spec fn lex(a: Seq<char>, b: Seq<char>) -> Order
    decreases a.len(),
{
    if a.len() == 0 {
        if b.len() == 0 {
            Order::Equal
        } else {
            Order::Less
        }
    } else if b.len() == 0 {
        Order::Greater
    } else if code(a[0]) < code(b[0]) {
        Order::Less
    } else if code(a[0]) > code(b[0]) {
        Order::Greater
    } else {
        lex(a.drop_first(), b.drop_first())
    }
}

/// Where the run of ASCII digits that starts at `i` ends.
pub open spec fn digit_end(s: Seq<char>, i: int) -> int
    decreases s.len() - i,
{
    if 0 <= i < s.len() && is_digit(s[i]) {
        digit_end(s, i + 1)
    } else {
        i
    }
}

/// The first position in `i..e` that holds no `0`, or `e`.
pub open spec fn zeros_end(s: Seq<char>, i: int, e: int) -> int
    decreases e - i,
{
    if 0 <= i < e && i < s.len() && s[i] == '0' {
        zeros_end(s, i + 1, e)
    } else {
        i
    }
}

pub proof fn lemma_digit_end(s: Seq<char>, i: int)
    requires
        0 <= i <= s.len(),
    ensures
        i <= digit_end(s, i) <= s.len(),
        forall|k: int| i <= k < digit_end(s, i) ==> is_digit(#[trigger] s[k]),
        digit_end(s, i) < s.len() ==> !is_digit(s[digit_end(s, i)]),
    decreases s.len() - i,
{
    if i < s.len() && is_digit(s[i]) {
        lemma_digit_end(s, i + 1);
    }
}

proof fn lemma_zeros_end(s: Seq<char>, i: int, e: int)
    requires
        0 <= i <= e <= s.len(),
    ensures
        i <= zeros_end(s, i, e) <= e,
        forall|k: int| i <= k < zeros_end(s, i, e) ==> #[trigger] s[k] == '0',
        zeros_end(s, i, e) < e ==> s[zeros_end(s, i, e)] != '0',
    decreases e - i,
{
    if i < e && s[i] == '0' {
        lemma_zeros_end(s, i + 1, e);
    }
}

/// The natural order from positions `i` of `a` and `j` of `b` on: digit
/// runs compare by value (length without leading zeros, then digits), other
/// characters by their lowercase; when both run out together the plain
/// order of the whole texts decides.
pub open spec fn natural_from(a: Seq<char>, b: Seq<char>, i: int, j: int) -> Order
    decreases a.len() - i + b.len() - j,
{
    if i < 0 || j < 0 || (i >= a.len() && j >= b.len()) {
        lex(a, b)
    } else if i >= a.len() {
        Order::Less
    } else if j >= b.len() {
        Order::Greater
    } else if is_digit(a[i]) && is_digit(b[j]) {
        proof {
            lemma_digit_end(a, i);
            lemma_digit_end(b, j);
        }
        let ea = digit_end(a, i);
        let eb = digit_end(b, j);
        let za = zeros_end(a, i, ea);
        let zb = zeros_end(b, j, eb);
        if ea - za < eb - zb {
            Order::Less
        } else if ea - za > eb - zb {
            Order::Greater
        } else {
            let o = lex(a.subrange(za, ea), b.subrange(zb, eb));
            if o != Order::Equal {
                o
            } else {
                natural_from(a, b, ea, eb)
            }
        }
    } else {
        let o = lex(lowercase(a[i]), lowercase(b[j]));
        if o != Order::Equal {
            o
        } else {
            natural_from(a, b, i + 1, j + 1)
        }
    }
}

/// Case-insensitive order in which digit runs compare by value.
pub open spec fn natural(a: Seq<char>, b: Seq<char>) -> Order {
    natural_from(a, b, 0, 0)
}

/// `a.cmp(b)` on characters.
pub fn lex_compare(a: &[char], b: &[char]) -> (r: Order)
    ensures
        r == lex(a@, b@),
{
    let mut k: usize = 0;
    assert(a@.subrange(0, a.len() as int) =~= a@);
    assert(b@.subrange(0, b.len() as int) =~= b@);
    loop
        invariant
            k <= a.len(),
            k <= b.len(),
            lex(a@, b@) == lex(
                a@.subrange(k as int, a.len() as int),
                b@.subrange(k as int, b.len() as int),
            ),
        decreases a.len() - k,
    {
        if k == a.len() {
            if k == b.len() {
                return Order::Equal;
            }
            return Order::Less;
        }
        if k == b.len() {
            return Order::Greater;
        }
        let (x, y) = (text::code_of(a[k]), text::code_of(b[k]));
        if x < y {
            return Order::Less;
        }
        if x > y {
            return Order::Greater;
        }
        assert(a@.subrange(k as int, a.len() as int).drop_first() =~= a@.subrange(
            k + 1,
            a.len() as int,
        ));
        assert(b@.subrange(k as int, b.len() as int).drop_first() =~= b@.subrange(
            k + 1,
            b.len() as int,
        ));
        k = k + 1;
    }
}

fn is_digit_char(c: char) -> (r: bool)
    ensures
        r == is_digit(c),
{
    '0' <= c && c <= '9'
}

fn run_end(s: &[char], i: usize) -> (e: usize)
    requires
        i <= s.len(),
    ensures
        e == digit_end(s@, i as int),
{
    let mut e = i;
    while e < s.len() && is_digit_char(s[e])
        invariant
            i <= e <= s.len(),
            digit_end(s@, i as int) == digit_end(s@, e as int),
        decreases s.len() - e,
    {
        e = e + 1;
    }
    e
}

fn skip_zeros(s: &[char], i: usize, e: usize) -> (z: usize)
    requires
        i <= e <= s.len(),
    ensures
        z == zeros_end(s@, i as int, e as int),
{
    let mut z = i;
    while z < e && s[z] == '0'
        invariant
            i <= z <= e,
            e <= s.len(),
            zeros_end(s@, i as int, e as int) == zeros_end(s@, z as int, e as int),
        decreases e - z,
    {
        z = z + 1;
    }
    z
}

/// The natural order of `a` and `b`.
pub fn natural_order(a: &str, b: &str) -> (r: Order)
    ensures
        r == natural(a@, b@),
{
    let x = text::chars_of(a);
    let y = text::chars_of(b);
    let mut i: usize = 0;
    let mut j: usize = 0;
    loop
        invariant
            i <= x.len(),
            j <= y.len(),
            x@ == a@,
            y@ == b@,
            natural(a@, b@) == natural_from(x@, y@, i as int, j as int),
        decreases x.len() - i + y.len() - j,
    {
        if i >= x.len() && j >= y.len() {
            return lex_compare(&x, &y);
        }
        if i >= x.len() {
            return Order::Less;
        }
        if j >= y.len() {
            return Order::Greater;
        }
        if is_digit_char(x[i]) && is_digit_char(y[j]) {
            let ea = run_end(&x, i);
            let eb = run_end(&y, j);
            proof {
                lemma_digit_end(x@, i as int);
                lemma_digit_end(y@, j as int);
            }
            let za = skip_zeros(&x, i, ea);
            let zb = skip_zeros(&y, j, eb);
            proof {
                lemma_zeros_end(x@, i as int, ea as int);
                lemma_zeros_end(y@, j as int, eb as int);
            }
            if ea - za < eb - zb {
                return Order::Less;
            }
            if ea - za > eb - zb {
                return Order::Greater;
            }
            let o = lex_compare(&text::slice_chars(&x, za, ea), &text::slice_chars(&y, zb, eb));
            match o {
                Order::Equal => {
                    i = ea;
                    j = eb;
                },
                _ => {
                    return o;
                },
            }
        } else {
            let o = lex_compare(&text::to_lowercase(x[i]), &text::to_lowercase(y[j]));
            match o {
                Order::Equal => {
                    i = i + 1;
                    j = j + 1;
                },
                _ => {
                    return o;
                },
            }
        }
    }
}

proof fn lemma_lex_reflexive(a: Seq<char>)
    ensures
        lex(a, a) == Order::Equal,
    decreases a.len(),
{
    if a.len() > 0 {
        lemma_lex_reflexive(a.drop_first());
    }
}

proof fn lemma_lex_equal(a: Seq<char>, b: Seq<char>)
    requires
        lex(a, b) == Order::Equal,
    ensures
        a == b,
    decreases a.len(),
{
    if a.len() > 0 && b.len() > 0 {
        lemma_lex_equal(a.drop_first(), b.drop_first());
        assert(a =~= seq![a[0]] + a.drop_first());
        assert(b =~= seq![b[0]] + b.drop_first());
        text::lemma_code_injective(a[0], b[0]);
    }
}

proof fn lemma_lex_antisymmetric(a: Seq<char>, b: Seq<char>)
    ensures
        lex(a, b) == flip(lex(b, a)),
    decreases a.len(),
{
    if a.len() > 0 && b.len() > 0 {
        lemma_lex_antisymmetric(a.drop_first(), b.drop_first());
    }
}

proof fn lemma_natural_reflexive_from(a: Seq<char>, i: int)
    requires
        0 <= i <= a.len(),
    ensures
        natural_from(a, a, i, i) == Order::Equal,
    decreases a.len() - i,
{
    if i >= a.len() {
        lemma_lex_reflexive(a);
    } else if is_digit(a[i]) {
        lemma_digit_end(a, i);
        let e = digit_end(a, i);
        lemma_zeros_end(a, i, e);
        let z = zeros_end(a, i, e);
        lemma_lex_reflexive(a.subrange(z, e));
        lemma_natural_reflexive_from(a, e);
    } else {
        lemma_lex_reflexive(lowercase(a[i]));
        lemma_natural_reflexive_from(a, i + 1);
    }
}

proof fn lemma_natural_equal_from(a: Seq<char>, b: Seq<char>, i: int, j: int)
    requires
        0 <= i <= a.len(),
        0 <= j <= b.len(),
        natural_from(a, b, i, j) == Order::Equal,
    ensures
        a == b,
    decreases a.len() - i + b.len() - j,
{
    if i >= a.len() && j >= b.len() {
        lemma_lex_equal(a, b);
    } else if i < a.len() && j < b.len() {
        if is_digit(a[i]) && is_digit(b[j]) {
            lemma_digit_end(a, i);
            lemma_digit_end(b, j);
            lemma_natural_equal_from(a, b, digit_end(a, i), digit_end(b, j));
        } else {
            lemma_natural_equal_from(a, b, i + 1, j + 1);
        }
    }
}

proof fn lemma_natural_antisymmetric_from(a: Seq<char>, b: Seq<char>, i: int, j: int)
    requires
        0 <= i <= a.len(),
        0 <= j <= b.len(),
    ensures
        natural_from(a, b, i, j) == flip(natural_from(b, a, j, i)),
    decreases a.len() - i + b.len() - j,
{
    if i >= a.len() && j >= b.len() {
        lemma_lex_antisymmetric(a, b);
    } else if i < a.len() && j < b.len() {
        if is_digit(a[i]) && is_digit(b[j]) {
            lemma_digit_end(a, i);
            lemma_digit_end(b, j);
            let ea = digit_end(a, i);
            let eb = digit_end(b, j);
            let za = zeros_end(a, i, ea);
            let zb = zeros_end(b, j, eb);
            lemma_lex_antisymmetric(a.subrange(za, ea), b.subrange(zb, eb));
            lemma_natural_antisymmetric_from(a, b, ea, eb);
        } else {
            lemma_lex_antisymmetric(lowercase(a[i]), lowercase(b[j]));
            lemma_natural_antisymmetric_from(a, b, i + 1, j + 1);
        }
    }
}

/// Case-insensitive comparison where digit runs compare by value:
/// `img2 < img10`, `IMG2` beside `img2`. Texts that compare alike this way
/// fall back to their plain order, so only identical texts are `Equal`.
pub fn natural_cmp(a: &str, b: &str) -> (r: Ordering)
    ensures
        r == ordering(natural(a@, b@)),
{
    match natural_order(a, b) {
        Order::Less => Ordering::Less,
        Order::Equal => Ordering::Equal,
        Order::Greater => Ordering::Greater,
    }
}

/// Every text is `Equal` to itself in the natural order.
pub proof fn natural_cmp_reflexive(a: Seq<char>)
    ensures
        natural(a, a) == Order::Equal,
{
    lemma_natural_reflexive_from(a, 0);
}

/// The natural order calls two texts `Equal` only when they are identical.
pub proof fn natural_cmp_equal_only_when_same(a: Seq<char>, b: Seq<char>)
    ensures
        natural(a, b) == Order::Equal <==> a == b,
{
    if natural(a, b) == Order::Equal {
        lemma_natural_equal_from(a, b, 0, 0);
    }
    if a == b {
        lemma_natural_reflexive_from(a, 0);
    }
}

/// Swapping the two texts swaps the answer.
pub proof fn natural_cmp_antisymmetric(a: Seq<char>, b: Seq<char>)
    ensures
        natural(a, b) == flip(natural(b, a)),
{
    lemma_natural_antisymmetric_from(a, b, 0, 0);
}


/// The texts of `v`.
pub open spec fn texts(v: Seq<String>) -> Seq<Seq<char>> {
    v.map_values(|s: String| s@)
}

/// Does the file name of `a` come after that of `b` in the natural order?
#[verifier::opaque]
pub open spec fn comes_after(a: Seq<char>, b: Seq<char>) -> bool {
    natural(name_or_empty(a), name_or_empty(b)) == Order::Greater
}

proof fn lemma_comes_after_flip(a: Seq<char>, b: Seq<char>)
    requires
        comes_after(a, b),
    ensures
        !comes_after(b, a),
{
    reveal(comes_after);
    natural_cmp_antisymmetric(name_or_empty(a), name_or_empty(b));
}

/// `t`, already in natural order of file names, with `x` put in after the
/// last entry that does not come after it.
pub open spec fn insert_by_name(t: Seq<Seq<char>>, x: Seq<char>) -> Seq<Seq<char>>
    decreases t.len(),
{
    if t.len() == 0 {
        seq![x]
    } else if comes_after(t.last(), x) {
        insert_by_name(t.drop_last(), x).push(t.last())
    } else {
        t.push(x)
    }
}

/// `s` sorted by the natural order of the file names, equal names keeping
/// their order (a stable insertion sort).
pub open spec fn sort_by_name(s: Seq<Seq<char>>) -> Seq<Seq<char>>
    decreases s.len(),
{
    if s.len() == 0 {
        s
    } else {
        insert_by_name(sort_by_name(s.drop_last()), s.last())
    }
}

/// The image paths of `s`, in their order.
pub open spec fn only_images(s: Seq<Seq<char>>) -> Seq<Seq<char>>
    decreases s.len(),
{
    if s.len() == 0 {
        s
    } else if spec_is_image(s.last()) {
        only_images(s.drop_last()).push(s.last())
    } else {
        only_images(s.drop_last())
    }
}

/// The images of a directory listing, in the order they are shown.
pub open spec fn image_order(listing: Seq<Seq<char>>) -> Seq<Seq<char>> {
    sort_by_name(only_images(listing))
}

/// No path comes after its successor in the natural order of file names.
pub open spec fn sorted_by_name(s: Seq<Seq<char>>) -> bool {
    forall|i: int| 0 <= i < s.len() - 1 ==> !comes_after(#[trigger] s[i], s[i + 1])
}

/// The images among the files of a directory, sorted by the natural order
/// of their names (what a directory scan shows).
pub fn images_in_order(files: Vec<String>) -> (r: Vec<String>)
    ensures
        texts(r@) == image_order(texts(files@)),
{
    let mut kept: Vec<String> = Vec::new();
    let mut names: Vec<String> = Vec::new();
    let mut i: usize = 0;
    while i < files.len()
        invariant
            i <= files.len(),
            kept.len() == names.len(),
            texts(kept@) == sort_by_name(only_images(texts(files@).subrange(0, i as int))),
            forall|k: int| 0 <= k < names.len() ==> #[trigger] names@[k]@ == name_or_empty(kept@[k]@),
        decreases files.len() - i,
    {
        let ghost before = texts(files@).subrange(0, i as int);
        let ghost after = texts(files@).subrange(0, i + 1);
        assert(after.drop_last() =~= before);
        assert(after.last() == files@[i as int]@);
        if is_image(files[i].as_str()) {
            let x = files[i].clone();
            let name = file_name(x.as_str());
            let mut j = kept.len();
            let ghost t = texts(kept@);
            assert(t.subrange(0, j as int) =~= t);
            assert(t.subrange(j as int, t.len() as int) =~= Seq::<Seq<char>>::empty());
            while j > 0 && natural_order(names[j - 1].as_str(), name.as_str()) == Order::Greater
                invariant
                    j <= kept.len(),
                    kept.len() == names.len(),
                    t == texts(kept@),
                    i < files.len(),
                    x@ == files@[i as int]@,
                    name@ == name_or_empty(x@),
                    forall|k: int| 0 <= k < names.len() ==> #[trigger] names@[k]@ == name_or_empty(kept@[k]@),
                    insert_by_name(t, x@) == insert_by_name(t.subrange(0, j as int), x@) + t.subrange(j as int, t.len() as int),
                decreases j,
            {
                let ghost u = t.subrange(0, j as int);
                assert(u.last() == kept@[j - 1]@);
                assert(comes_after(u.last(), x@)) by {
                    reveal(comes_after);
                }
                assert(u.drop_last() =~= t.subrange(0, j - 1));
                assert(t.subrange(j - 1, t.len() as int) =~= seq![u.last()] + t.subrange(j as int, t.len() as int));
                j = j - 1;
            }
            proof {
                let u = t.subrange(0, j as int);
                if j > 0 {
                    assert(u.last() == kept@[j - 1]@);
                    assert(!comes_after(u.last(), x@)) by {
                        reveal(comes_after);
                    }
                    assert(insert_by_name(u, x@) == u.push(x@));
                } else {
                    assert(u =~= Seq::<Seq<char>>::empty());
                    assert(insert_by_name(u, x@) == seq![x@]);
                }
            }
            kept.insert(j, x);
            names.insert(j, name);
            assert(texts(kept@) =~= t.subrange(0, j as int).push(files@[i as int]@) + t.subrange(j as int, t.len() as int));
            assert(only_images(after) == only_images(before).push(after.last()));
            proof {
                let ob = only_images(before);
                assert(ob.push(x@).drop_last() =~= ob);
                assert(sort_by_name(ob.push(x@)) == insert_by_name(sort_by_name(ob), x@));
                assert(texts(kept@) == insert_by_name(t, x@));
            }
        } else {
            assert(only_images(after) == only_images(before));
        }
        i = i + 1;
    }
    assert(texts(files@).subrange(0, files.len() as int) =~= texts(files@));
    kept
}

proof fn lemma_insert_by_name_count(t: Seq<Seq<char>>, x: Seq<char>)
    ensures
        insert_by_name(t, x).to_multiset() == t.to_multiset().insert(x),
        insert_by_name(t, x).len() == t.len() + 1,
    decreases t.len(),
{
    broadcast use vstd::seq_lib::group_to_multiset_ensures;
    if t.len() == 0 {
        assert(seq![x] =~= Seq::<Seq<char>>::empty().push(x));
    } else if comes_after(t.last(), x) {
        let d = t.drop_last();
        lemma_insert_by_name_count(d, x);
        assert(t =~= d.push(t.last()));
    }
}

proof fn lemma_insert_by_name_sorted(t: Seq<Seq<char>>, x: Seq<char>)
    requires
        sorted_by_name(t),
    ensures
        sorted_by_name(insert_by_name(t, x)),
        insert_by_name(t, x).len() == t.len() + 1,
        t.len() > 0 ==> (insert_by_name(t, x).last() == t.last() || insert_by_name(t, x).last() == x),
    decreases t.len(),
{
    if t.len() == 0 {
        assert(sorted_by_name(seq![x]));
    } else if comes_after(t.last(), x) {
        let d = t.drop_last();
        assert(sorted_by_name(d)) by {
            assert forall|i: int| 0 <= i < d.len() - 1 implies !comes_after(#[trigger] d[i], d[i + 1]) by {
                assert(d[i] == t[i] && d[i + 1] == t[i + 1]);
            }
        }
        lemma_insert_by_name_sorted(d, x);
        let r = insert_by_name(d, x);
        lemma_comes_after_flip(t.last(), x);
        let full = r.push(t.last());
        assert forall|i: int| 0 <= i < full.len() - 1 implies !comes_after(#[trigger] full[i], full[i + 1]) by {
            if i < r.len() - 1 {
                assert(full[i] == r[i] && full[i + 1] == r[i + 1]);
            } else {
                assert(full[i] == r.last());
                if d.len() > 0 && r.last() == d.last() {
                    assert(d.last() == t[t.len() - 2]);
                }
            }
        }
    } else {
        let full = t.push(x);
        assert forall|i: int| 0 <= i < full.len() - 1 implies !comes_after(#[trigger] full[i], full[i + 1]) by {
            if i < t.len() - 1 {
                assert(full[i] == t[i] && full[i + 1] == t[i + 1]);
            }
        }
    }
}

/// A directory scan lists each image of the directory exactly as often as
/// the listing holds it, sorted by the natural order of file names.
pub proof fn image_order_is_sorted_permutation(listing: Seq<Seq<char>>)
    ensures
        sorted_by_name(image_order(listing)),
        image_order(listing).to_multiset() == only_images(listing).to_multiset(),
    decreases listing.len(),
{
    lemma_sort_by_name(only_images(listing));
}

proof fn lemma_sort_by_name(s: Seq<Seq<char>>)
    ensures
        sorted_by_name(sort_by_name(s)),
        sort_by_name(s).to_multiset() == s.to_multiset(),
    decreases s.len(),
{
    broadcast use vstd::seq_lib::group_to_multiset_ensures;
    if s.len() == 0 {
        assert(sorted_by_name(s));
    } else {
        lemma_sort_by_name(s.drop_last());
        lemma_insert_by_name_sorted(sort_by_name(s.drop_last()), s.last());
        lemma_insert_by_name_count(sort_by_name(s.drop_last()), s.last());
        assert(s =~= s.drop_last().push(s.last()));
    }
}


/// What the file system says about one command-line argument.
pub struct Arg {
    /// The argument made absolute.
    pub path: String,
    pub is_dir: bool,
    pub is_file: bool,
    /// The images of the directory `path` names, or, for a lone argument
    /// that is no directory, of the directory it lies in; each in the order
    /// `images_in_order` gives.
    pub listing: Vec<String>,
}

/// The images to open.
pub struct Input {
    pub paths: Vec<String>,
    /// Index into `paths` to select initially.
    pub select: Option<usize>,
}

/// Does `s` hold a path naming the same as `p` (`Path` equality)?
pub open spec fn holds_path(s: Seq<Seq<char>>, p: Seq<char>) -> bool {
    exists|i: int| 0 <= i < s.len() && paths::same_path(#[trigger] s[i], p)
}

/// `s` with every path that names the same as one before it dropped,
/// first occurrences kept in order.
pub open spec fn dedup(s: Seq<Seq<char>>) -> Seq<Seq<char>>
    decreases s.len(),
{
    if s.len() == 0 {
        s
    } else if holds_path(dedup(s.drop_last()), s.last()) {
        dedup(s.drop_last())
    } else {
        dedup(s.drop_last()).push(s.last())
    }
}

/// Where a path naming the same as `x` first occurs in `s`.
pub open spec fn first_index(s: Seq<Seq<char>>, x: Seq<char>) -> Option<nat>
    decreases s.len(),
{
    if s.len() == 0 {
        None
    } else if paths::same_path(s[0], x) {
        Some(0)
    } else {
        match first_index(s.drop_first(), x) {
            Some(k) => Some(k + 1),
            None => None,
        }
    }
}

/// What one of several arguments contributes: a directory its images, an
/// image file itself, anything else nothing.
pub open spec fn contribution(a: Arg) -> Seq<Seq<char>> {
    if a.is_dir {
        texts(a.listing@)
    } else if a.is_file && spec_is_image(a.path@) {
        seq![a.path@]
    } else {
        Seq::empty()
    }
}

/// Everything several arguments contribute, in their order.
pub open spec fn gathered(args: Seq<Arg>) -> Seq<Seq<char>>
    decreases args.len(),
{
    if args.len() == 0 {
        Seq::empty()
    } else {
        gathered(args.drop_last()) + contribution(args.last())
    }
}

/// The paths to open for a lone argument that is no directory: its
/// directory's images, and the file itself if it is a file they lack.
pub open spec fn lone_file_paths(a: Arg) -> Seq<Seq<char>> {
    if !holds_path(texts(a.listing@), a.path@) && a.is_file {
        texts(a.listing@).push(a.path@)
    } else {
        texts(a.listing@)
    }
}

/// The components of `p`.
fn parts_of(p: &String) -> (r: Vec<Vec<char>>)
    ensures
        paths::parts_view(r@) == paths::components(p@),
{
    paths::components_of(&text::chars_of(p.as_str()))
}

/// Does one of `held`, the components of the paths `ps`, name the same as
/// `x`, the components of `p`?
fn holds_parts(held: &Vec<Vec<Vec<char>>>, x: &Vec<Vec<char>>, ps: Ghost<Seq<Seq<char>>>, p: Ghost<Seq<char>>) -> (r: bool)
    requires
        held.len() == ps@.len(),
        forall|i: int| 0 <= i < held.len() ==> paths::parts_view(#[trigger] held@[i]@) == paths::components(ps@[i]),
        paths::parts_view(x@) == paths::components(p@),
    ensures
        r == holds_path(ps@, p@),
{
    let mut k: usize = 0;
    while k < held.len()
        invariant
            k <= held.len(),
            held.len() == ps@.len(),
            forall|i: int| 0 <= i < held.len() ==> paths::parts_view(#[trigger] held@[i]@) == paths::components(ps@[i]),
            paths::parts_view(x@) == paths::components(p@),
            forall|j: int| 0 <= j < k ==> !paths::same_path(#[trigger] ps@[j], p@),
        decreases held.len() - k,
    {
        assert(paths::parts_view(held@[k as int]@) == paths::components(ps@[k as int]));
        if paths::same_parts(&held[k], x) {
            assert(paths::same_path(ps@[k as int], p@));
            return true;
        }
        k = k + 1;
    }
    false
}

fn position_of(v: &Vec<String>, x: &String) -> (r: Option<usize>)
    ensures
        match r {
            Some(k) => first_index(texts(v@), x@) == Some(k as nat),
            None => first_index(texts(v@), x@) is None,
        },
{
    let xp = parts_of(x);
    let mut k: usize = 0;
    while k < v.len()
        invariant
            k <= v.len(),
            paths::parts_view(xp@) == paths::components(x@),
            forall|j: int| 0 <= j < k ==> !paths::same_path(#[trigger] texts(v@)[j], x@),
        decreases v.len() - k,
    {
        let vp = parts_of(&v[k]);
        if paths::same_parts(&vp, &xp) {
            assert(paths::same_path(texts(v@)[k as int], x@));
            proof {
                lemma_first_index_at(texts(v@), x@, k as int);
            }
            return Some(k);
        }
        assert(!paths::same_path(texts(v@)[k as int], x@));
        k = k + 1;
    }
    proof {
        lemma_first_index_none(texts(v@), x@);
    }
    None
}

proof fn lemma_first_index_at(s: Seq<Seq<char>>, x: Seq<char>, k: int)
    requires
        0 <= k < s.len(),
        paths::same_path(s[k], x),
        forall|j: int| 0 <= j < k ==> !paths::same_path(#[trigger] s[j], x),
    ensures
        first_index(s, x) == Some(k as nat),
    decreases k,
{
    if k > 0 {
        lemma_first_index_at(s.drop_first(), x, k - 1);
    }
}

proof fn lemma_first_index_none(s: Seq<Seq<char>>, x: Seq<char>)
    requires
        forall|j: int| 0 <= j < s.len() ==> !paths::same_path(#[trigger] s[j], x),
    ensures
        first_index(s, x) is None,
    decreases s.len(),
{
    if s.len() > 0 {
        lemma_first_index_none(s.drop_first(), x);
    }
}

fn copy_strings(v: &Vec<String>) -> (r: Vec<String>)
    ensures
        texts(r@) == texts(v@),
{
    let mut r: Vec<String> = Vec::new();
    let mut k: usize = 0;
    while k < v.len()
        invariant
            k <= v.len(),
            r.len() == k,
            texts(r@) == texts(v@).subrange(0, k as int),
        decreases v.len() - k,
    {
        let c = v[k].clone();
        let ghost old_r = r@;
        r.push(c);
        assert forall|j: int| 0 <= j <= k implies #[trigger] texts(r@)[j] == texts(v@)[j] by {
            if j < k {
                assert(texts(old_r)[j] == texts(v@).subrange(0, k as int)[j]);
                assert(r@[j] == old_r[j]);
            }
        }
        k = k + 1;
        assert(texts(r@) =~= texts(v@).subrange(0, k as int));
    }
    assert(texts(v@).subrange(0, v.len() as int) =~= texts(v@));
    r
}

/// The components of each of `v`.
fn all_parts(v: &Vec<String>) -> (r: Vec<Vec<Vec<char>>>)
    ensures
        r.len() == v.len(),
        forall|i: int| 0 <= i < r.len() ==> paths::parts_view(#[trigger] r@[i]@) == paths::components(texts(v@)[i]),
{
    let mut r: Vec<Vec<Vec<char>>> = Vec::new();
    let mut k: usize = 0;
    while k < v.len()
        invariant
            k <= v.len(),
            r.len() == k,
            forall|i: int| 0 <= i < k ==> paths::parts_view(#[trigger] r@[i]@) == paths::components(texts(v@)[i]),
        decreases v.len() - k,
    {
        r.push(parts_of(&v[k]));
        k = k + 1;
    }
    r
}

/// The images to open:
/// * no argument: the images of the current directory (`current`);
/// * one argument: a directory's images; for a file, the images of its
///   directory with that file selected (added if the listing lacks it);
/// * several: exactly those files (directories contribute their images),
///   each path once, in the order given.
///
/// Paths are the same when `Path` takes them to be: component by
/// component, whatever the slashes between them.
pub fn resolve(args: &Vec<Arg>, current: &Vec<String>) -> (r: Input)
    ensures
        args.len() == 0 ==> texts(r.paths@) == texts(current@) && r.select is None,
        args.len() == 1 && args[0].is_dir ==> texts(r.paths@) == texts(args[0].listing@)
            && r.select is None,
        args.len() == 1 && !args[0].is_dir ==> texts(r.paths@) == lone_file_paths(args[0]) && match r.select {
            Some(k) => first_index(lone_file_paths(args[0]), args[0].path@) == Some(k as nat),
            None => first_index(lone_file_paths(args[0]), args[0].path@) is None,
        },
        args.len() > 1 ==> texts(r.paths@) == dedup(gathered(args@)) && r.select is None,
{
    if args.len() == 0 {
        return Input { paths: copy_strings(current), select: None };
    }
    if args.len() == 1 {
        let one = &args[0];
        if one.is_dir {
            return Input { paths: copy_strings(&one.listing), select: None };
        }
        let mut paths = copy_strings(&one.listing);
        let held = all_parts(&paths);
        let known = holds_parts(&held, &parts_of(&one.path), Ghost(texts(paths@)), Ghost(one.path@));
        if !known && one.is_file {
            paths.push(one.path.clone());
            assert(texts(paths@) =~= texts(one.listing@).push(one.path@));
        }
        let select = position_of(&paths, &one.path);
        return Input { paths, select };
    }
    let mut paths: Vec<String> = Vec::new();
    let mut held: Vec<Vec<Vec<char>>> = Vec::new();
    let mut k: usize = 0;
    while k < args.len()
        invariant
            k <= args.len(),
            texts(paths@) == dedup(gathered(args@.subrange(0, k as int))),
            held.len() == paths.len(),
            forall|i: int| 0 <= i < held.len() ==> paths::parts_view(#[trigger] held@[i]@) == paths::components(texts(paths@)[i]),
        decreases args.len() - k,
    {
        let a = &args[k];
        let ghost before = args@.subrange(0, k as int);
        let ghost upto = args@.subrange(0, k + 1);
        assert(upto.drop_last() =~= before);
        let mut part: Vec<String> = Vec::new();
        if a.is_dir {
            part = copy_strings(&a.listing);
        } else if a.is_file && is_image(a.path.as_str()) {
            part.push(a.path.clone());
            assert(texts(part@) =~= seq![a.path@]);
        } else {
            assert(texts(part@) =~= Seq::<Seq<char>>::empty());
        }
        assert(texts(part@) == contribution(args@[k as int]));
        let mut m: usize = 0;
        while m < part.len()
            invariant
                m <= part.len(),
                texts(paths@) == dedup(gathered(before) + texts(part@).subrange(0, m as int)),
                held.len() == paths.len(),
                forall|i: int| 0 <= i < held.len() ==> paths::parts_view(#[trigger] held@[i]@) == paths::components(texts(paths@)[i]),
            decreases part.len() - m,
        {
            let ghost g = gathered(before) + texts(part@).subrange(0, m as int);
            let ghost g2 = gathered(before) + texts(part@).subrange(0, m + 1);
            assert(g2.drop_last() =~= g);
            assert(g2.last() == part@[m as int]@);
            let p = parts_of(&part[m]);
            if !holds_parts(&held, &p, Ghost(texts(paths@)), Ghost(part@[m as int]@)) {
                let ghost old_paths = paths@;
                paths.push(part[m].clone());
                held.push(p);
                assert(texts(paths@) =~= dedup(g).push(part@[m as int]@));
                assert forall|i: int| 0 <= i < held.len() implies paths::parts_view(#[trigger] held@[i]@) == paths::components(texts(paths@)[i]) by {
                    if i < held.len() - 1 {
                        assert(paths@[i] == old_paths[i]);
                    }
                }
            }
            m = m + 1;
        }
        assert(texts(part@).subrange(0, part.len() as int) =~= texts(part@));
        assert(gathered(upto) == gathered(before) + contribution(upto.last()));
        k = k + 1;
    }
    assert(args@.subrange(0, args.len() as int) =~= args@);
    Input { paths, select: None }
}

} // verus!
