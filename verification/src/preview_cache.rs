//! Which decoded previews the preview pane keeps: the last few used, most
//! recent last, and which are being decoded. The pictures themselves are
//! the caller's, kept by image.

use vstd::prelude::*;
use std::collections::{HashSet, VecDeque};

verus! {

/// How many decoded previews are kept.
pub const CACHED: usize = 8;

/// The images whose decoded previews are kept, least recently used first,
/// and those being decoded.
pub struct PreviewCache {
    order: VecDeque<usize>,
    loading: HashSet<usize>,
}

/// Is `y` another image than `x`?
pub open spec fn other_than(x: usize) -> spec_fn(usize) -> bool {
    |y: usize| y != x
}

/// `s` without `x`.
pub open spec fn without(s: Seq<usize>, x: usize) -> Seq<usize> {
    s.filter(other_than(x))
}

/// `order` with `id` used last, and at most `CACHED` kept: the new order
/// and the images dropped from its front.
pub open spec fn kept(order: Seq<usize>, id: usize) -> (Seq<usize>, Seq<usize>) {
    let o = without(order, id).push(id);
    let cut = if o.len() > CACHED {
        o.len() - CACHED
    } else {
        0
    };
    (o.subrange(cut as int, o.len() as int), o.subrange(0, cut as int))
}

/// `v` without `x`, the others in their order.
fn remove(v: &VecDeque<usize>, x: usize) -> (r: VecDeque<usize>)
    ensures
        r@ == without(v@, x),
{
    let mut r: VecDeque<usize> = VecDeque::new();
    let mut k: usize = 0;
    while k < v.len()
        invariant
            k <= v@.len(),
            r@ == without(v@.subrange(0, k as int), x),
        decreases v@.len() - k,
    {
        proof {
            v@.subrange(0, k as int).lemma_filter_push(v@[k as int], other_than(x));
            assert(v@.subrange(0, k + 1) =~= v@.subrange(0, k as int).push(v@[k as int]));
        }
        if v[k] != x {
            r.push_back(v[k]);
        }
        k = k + 1;
    }
    assert(v@.subrange(0, v@.len() as int) =~= v@);
    r
}

/// Where `x` stands first in `v`, if anywhere.
fn position(v: &VecDeque<usize>, x: usize) -> (r: Option<usize>)
    ensures
        match r {
            Some(k) => k < v@.len() && v@[k as int] == x && forall|j: int| 0 <= j < k ==> v@[j] != x,
            None => !v@.contains(x),
        },
{
    let mut k: usize = 0;
    while k < v.len()
        invariant
            k <= v@.len(),
            forall|j: int| 0 <= j < k ==> v@[j] != x,
        decreases v@.len() - k,
    {
        if v[k] == x {
            return Some(k);
        }
        k = k + 1;
    }
    None
}

impl PreviewCache {
    /// The images kept, least recently used first.
    pub closed spec fn order(&self) -> Seq<usize> {
        self.order@
    }

    /// The images being decoded.
    pub closed spec fn loading(&self) -> Set<usize> {
        self.loading@
    }

    /// Nothing kept, nothing being decoded.
    pub fn new() -> (c: Self)
        ensures
            c.order() == Seq::<usize>::empty(),
            c.loading() == Set::<usize>::empty(),
    {
        PreviewCache { order: VecDeque::new(), loading: HashSet::new() }
    }

    /// Is the preview of `id` kept?
    pub fn holds(&self, id: usize) -> (r: bool)
        ensures
            r == self.order().contains(id),
    {
        position(&self.order, id).is_some()
    }

    /// Show the kept preview of `id`: it becomes the most recently used.
    /// `false`, and nothing changes, when it is not kept.
    pub fn use_kept(&mut self, id: usize) -> (r: bool)
        ensures
            r == old(self).order().contains(id),
            r ==> final(self).order() == without(old(self).order(), id).push(id),
            !r ==> final(self).order() == old(self).order(),
            final(self).loading() == old(self).loading(),
    {
        if position(&self.order, id).is_none() {
            return false;
        }
        let mut order = remove(&self.order, id);
        order.push_back(id);
        self.order = order;
        true
    }

    /// Start decoding `id`, unless it is kept or being decoded already.
    pub fn start(&mut self, id: usize) -> (r: bool)
        ensures
            r == (!old(self).order().contains(id) && !old(self).loading().contains(id)),
            r ==> final(self).loading() == old(self).loading().insert(id),
            !r ==> final(self).loading() == old(self).loading(),
            final(self).order() == old(self).order(),
    {
        broadcast use vstd::std_specs::hash::group_hash_axioms;
        if position(&self.order, id).is_some() {
            return false;
        }
        self.loading.insert(id)
    }

    /// Decoding `id` ended, whether or not it worked.
    pub fn finish(&mut self, id: usize)
        ensures
            final(self).loading() == old(self).loading().remove(id),
            final(self).order() == old(self).order(),
    {
        broadcast use vstd::std_specs::hash::group_hash_axioms;
        self.loading.remove(&id);
    }

    /// Keep the preview of `id`, as the most recently used; returns the
    /// images whose previews no longer fit, least recently used first.
    pub fn keep(&mut self, id: usize) -> (dropped: Vec<usize>)
        ensures
            (final(self).order(), dropped@) == kept(old(self).order(), id),
            final(self).loading() == old(self).loading(),
    {
        let mut o = remove(&self.order, id);
        o.push_back(id);
        let ghost full = o@;
        let mut dropped: Vec<usize> = Vec::new();
        while o.len() > CACHED
            invariant
                full.len() >= o@.len(),
                dropped@ + o@ == full,
                dropped@.len() > 0 ==> o@.len() >= CACHED,
            decreases o@.len(),
        {
            let ghost before = o@;
            match o.pop_front() {
                Some(x) => {
                    dropped.push(x);
                    assert(dropped@ + o@ =~= full) by {
                        assert(before =~= seq![x] + o@);
                        assert(dropped@ + o@ =~= dropped@.drop_last() + before);
                    }
                },
                None => {},
            }
        }
        proof {
            let cut = full.len() - o@.len();
            assert(dropped@ =~= full.subrange(0, cut));
            assert(o@ =~= full.subrange(cut, full.len() as int));
            if full.len() > CACHED {
                assert(o@.len() == CACHED);
            } else {
                assert(dropped@.len() == 0);
            }
        }
        self.order = o;
        dropped
    }

    /// Forget the preview of `id`: its file changed.
    pub fn forget(&mut self, id: usize)
        ensures
            final(self).order() == without(old(self).order(), id),
            final(self).loading() == old(self).loading(),
    {
        self.order = remove(&self.order, id);
    }
}

/// Keeping a preview in a cache of distinct images never lets it grow past
/// `CACHED`: `id` ends up kept as the most recent, each image at most
/// once, and whatever was kept before is either still kept or dropped.
pub proof fn keeping_bounds_the_cache(order: Seq<usize>, id: usize)
    requires
        order.no_duplicates(),
    ensures
        kept(order, id).0.len() <= CACHED,
        kept(order, id).0.last() == id,
        kept(order, id).0.no_duplicates(),
        forall|x: usize| order.contains(x) ==> kept(order, id).0.contains(x) || kept(order, id).1.contains(x),
{
    broadcast use vstd::seq_lib::group_filter_ensures;
    let w = without(order, id);
    let o = w.push(id);
    let (keep, dropped) = kept(order, id);
    assert(w.no_duplicates()) by {
        assert forall|i: int, j: int| 0 <= i < w.len() && 0 <= j < w.len() && i != j implies w[i] != w[j] by {
            lemma_filter_distinct(order, id, i, j);
        }
    }
    assert(!w.contains(id)) by {
        if w.contains(id) {
            let i = choose|i: int| 0 <= i < w.len() && w[i] == id;
            assert(other_than(id)(w[i]));
        }
    }
    assert(o.no_duplicates()) by {
        assert forall|i: int, j: int| 0 <= i < o.len() && 0 <= j < o.len() && i != j implies o[i] != o[j] by {
            if i < w.len() && j < w.len() {
                assert(o[i] == w[i] && o[j] == w[j]);
            } else if i < w.len() {
                assert(o[i] == w[i]);
            } else {
                assert(o[j] == w[j]);
            }
        }
    }
    let cut = o.len() - keep.len();
    assert(keep.no_duplicates()) by {
        assert forall|i: int, j: int| 0 <= i < keep.len() && 0 <= j < keep.len() && i != j implies keep[i] != keep[j] by {
            assert(keep[i] == o[i + cut] && keep[j] == o[j + cut]);
        }
    }
    assert(keep.last() == o.last());
    assert forall|x: usize| order.contains(x) implies keep.contains(x) || dropped.contains(x) by {
        if x == id {
            assert(keep[keep.len() - 1] == id);
        } else {
            let i = choose|i: int| 0 <= i < order.len() && order[i] == x;
            assert(other_than(id)(order[i]));
            assert(w.contains(x));
            let j = choose|j: int| 0 <= j < w.len() && w[j] == x;
            assert(o[j] == x);
            if j < cut {
                assert(dropped[j] == x);
            } else {
                assert(keep[j - cut] == x);
            }
        }
    }
}

proof fn lemma_filter_distinct(s: Seq<usize>, id: usize, i: int, j: int)
    requires
        s.no_duplicates(),
        0 <= i < without(s, id).len(),
        0 <= j < without(s, id).len(),
        i != j,
    ensures
        without(s, id)[i] != without(s, id)[j],
    decreases s.len(),
{
    broadcast use vstd::seq_lib::group_filter_ensures;
    let f = other_than(id);
    let w = without(s, id);
    let rest = s.drop_last();
    assert(s =~= rest.push(s.last()));
    rest.lemma_filter_push(s.last(), f);
    let w0 = without(rest, id);
    assert(rest.no_duplicates()) by {
        assert forall|a: int, b: int| 0 <= a < rest.len() && 0 <= b < rest.len() && a != b implies rest[a] != rest[b] by {
            assert(rest[a] == s[a] && rest[b] == s[b]);
        }
    }
    if f(s.last()) {
        assert(w == w0.push(s.last()));
        if i < w0.len() && j < w0.len() {
            lemma_filter_distinct(rest, id, i, j);
            assert(w[i] == w0[i] && w[j] == w0[j]);
        } else {
            let k = if i < w0.len() { i } else { j };
            assert(w[k] == w0[k]);
            assert(w0.contains(w0[k]));
            rest.lemma_filter_contains_rev(f, w0[k]);
            let m = choose|m: int| 0 <= m < rest.len() && rest[m] == w0[k];
            assert(s[m] == rest[m]);
            assert(s[s.len() - 1] == s.last());
        }
    } else {
        assert(w == w0);
        lemma_filter_distinct(rest, id, i, j);
    }
}

} // verus!
