//! Session state: images, workspaces, pending rotations, filtering and
//! ordering, undo.
//! Pure data, no file system access.

use vstd::prelude::*;

verus! {

/// Index into `Session::images`. Stable for the lifetime of the session.
pub type ImageId = usize;

pub const WORKSPACES: u8 = 9;

/// How many actions undo can take back.
pub const UNDO_DEPTH: usize = 200;

pub struct ImageEntry {
    pub path: String,
    pub workspace: Option<u8>,
    /// Quarter turns clockwise, 0 to 3, shown but not yet written to the file.
    pub rotation: u8,
}

/// Sort state of one view. View 0 is "all images", 1..=9 are the workspaces.
pub struct Workspace {
    pub manual_sort_enabled: bool,
    /// Remembered even while manual sorting is off, so toggling back restores it.
    pub explicit_order: Vec<ImageId>,
}

/// Everything undo brings back. File paths are not part of it: what
/// commands did on disk stays done.
struct Snapshot {
    workspaces: Vec<Option<u8>>,
    rotations: Vec<u8>,
    views: Vec<Workspace>,
    active: u8,
    selected: Option<ImageId>,
}

/// The sort state of a view.
#[verifier::ext_equal]
pub struct ViewModel {
    pub manual: bool,
    pub order: Seq<ImageId>,
}

/// The state an organizing action changes and undo brings back.
#[verifier::ext_equal]
pub struct State {
    /// The workspace of each image.
    pub workspaces: Seq<Option<u8>>,
    /// The pending rotation of each image, in quarter turns clockwise.
    pub rotations: Seq<u8>,
    /// The sort state of views 0..=9.
    pub views: Seq<ViewModel>,
    /// The view shown: 0 all images, 1..=9 a workspace.
    pub active: u8,
    pub selected: Option<ImageId>,
}

/// A session seen as values.
#[verifier::ext_equal]
pub struct SessionModel {
    /// The path of each image.
    pub paths: Seq<Seq<char>>,
    pub now: State,
    /// States to go back to, the latest last.
    pub undo: Seq<State>,
    /// States undone, the latest last.
    pub redo: Seq<State>,
}

pub open spec fn view_model(w: Workspace) -> ViewModel {
    ViewModel { manual: w.manual_sort_enabled, order: w.explicit_order@ }
}

pub open spec fn views_model(v: Seq<Workspace>) -> Seq<ViewModel> {
    v.map_values(|w: Workspace| view_model(w))
}

spec fn snapshot_model(s: Snapshot) -> State {
    State {
        workspaces: s.workspaces@,
        rotations: s.rotations@,
        views: views_model(s.views@),
        active: s.active,
        selected: s.selected,
    }
}

/// Is `st` a state of a session with `n` images: ten views, the active one
/// among them, a selection and every remembered order naming real images,
/// workspaces numbered 1 to 9?
pub open spec fn valid_state(st: State, n: nat) -> bool {
    &&& st.workspaces.len() == n
    &&& st.rotations.len() == n
    &&& forall|i: int| 0 <= i < n ==> #[trigger] st.rotations[i] < 4
    &&& st.views.len() == 10
    &&& st.active <= WORKSPACES
    &&& (st.selected matches Some(id) ==> id < n)
    &&& forall|i: int| 0 <= i < n ==> (#[trigger] st.workspaces[i] matches Some(w) ==> 1 <= w <= WORKSPACES)
    &&& forall|v: int, k: int|
        0 <= v < 10 && 0 <= k < st.views[v].order.len() ==> #[trigger] st.views[v].order[k] < n
}

/// Every state of the session, and its history, is valid; undo keeps at
/// most `UNDO_DEPTH` states.
pub open spec fn valid(m: SessionModel) -> bool {
    let n = m.paths.len();
    &&& valid_state(m.now, n)
    &&& forall|i: int| 0 <= i < m.undo.len() ==> valid_state(#[trigger] m.undo[i], n)
    &&& forall|i: int| 0 <= i < m.redo.len() ==> valid_state(#[trigger] m.redo[i], n)
    &&& m.undo.len() + m.redo.len() <= UNDO_DEPTH
    &&& n <= usize::MAX
}

/// Is image `id` shown in `view`?
pub open spec fn in_view(st: State, view: u8, id: int) -> bool {
    view == 0 || st.workspaces[id] == Some(view)
}

/// The images below `k` shown in `view`, in natural (index) order.
pub open spec fn ids_in(st: State, view: u8, k: nat) -> Seq<ImageId>
    decreases k,
{
    if k == 0 {
        Seq::empty()
    } else if in_view(st, view, k - 1) {
        ids_in(st, view, (k - 1) as nat).push((k - 1) as ImageId)
    } else {
        ids_in(st, view, (k - 1) as nat)
    }
}

/// The images of `order` that are shown in `view`, each once, first
/// occurrence first.
pub open spec fn kept(st: State, view: u8, order: Seq<ImageId>) -> Seq<ImageId>
    decreases order.len(),
{
    if order.len() == 0 {
        Seq::empty()
    } else {
        let k = kept(st, view, order.drop_last());
        let id = order.last();
        if id < st.workspaces.len() && in_view(st, view, id as int) && !k.contains(id) {
            k.push(id)
        } else {
            k
        }
    }
}

/// The entries of `s` that `k` lacks.
pub open spec fn without(s: Seq<ImageId>, k: Seq<ImageId>) -> Seq<ImageId>
    decreases s.len(),
{
    if s.len() == 0 {
        s
    } else if k.contains(s.last()) {
        without(s.drop_last(), k)
    } else {
        without(s.drop_last(), k).push(s.last())
    }
}

/// The images of `view` in display order: natural order, or with manual
/// sorting the remembered order first and what it does not know yet after
/// it, in natural order.
pub open spec fn order_of(st: State, view: u8) -> Seq<ImageId> {
    let natural = ids_in(st, view, st.workspaces.len());
    if !st.views[view as int].manual {
        natural
    } else {
        let k = kept(st, view, st.views[view as int].order);
        k + without(natural, k)
    }
}

/// Image ids shown in the active view, in display order.
pub open spec fn visible_of(st: State) -> Seq<ImageId> {
    order_of(st, st.active)
}

proof fn lemma_push(s: Seq<ImageId>, x: ImageId)
    ensures
        forall|y: ImageId| #[trigger] s.push(x).contains(y) <==> (s.contains(y) || y == x),
        s.no_duplicates() && !s.contains(x) ==> s.push(x).no_duplicates(),
{
    let c = s.push(x);
    assert forall|y: ImageId| #[trigger] c.contains(y) <==> (s.contains(y) || y == x) by {
        if c.contains(y) && y != x {
            let j = choose|j: int| 0 <= j < c.len() && c[j] == y;
            assert(j < s.len());
            assert(s[j] == y);
        }
        if s.contains(y) {
            let j = choose|j: int| 0 <= j < s.len() && s[j] == y;
            assert(c[j] == y);
        }
        if y == x {
            assert(c[c.len() - 1] == y);
        }
    }
    if s.no_duplicates() && !s.contains(x) {
        assert forall|i: int, j: int| 0 <= i < c.len() && 0 <= j < c.len() && i != j implies c[i] != c[j] by {
            if i < s.len() && j < s.len() {
                assert(c[i] == s[i] && c[j] == s[j]);
            } else if i < s.len() {
                assert(c[i] == s[i]);
                assert(s.contains(c[i]));
            } else if j < s.len() {
                assert(c[j] == s[j]);
                assert(s.contains(c[j]));
            }
        }
    }
}

proof fn lemma_drop_last_contains(s: Seq<ImageId>)
    requires
        s.len() > 0,
    ensures
        forall|y: ImageId| #[trigger] s.contains(y) <==> (s.drop_last().contains(y) || y == s.last()),
        s.no_duplicates() ==> s.drop_last().no_duplicates() && !s.drop_last().contains(s.last()),
{
    assert(s =~= s.drop_last().push(s.last()));
    lemma_push(s.drop_last(), s.last());
    if s.no_duplicates() {
        let d = s.drop_last();
        assert forall|i: int, j: int| 0 <= i < d.len() && 0 <= j < d.len() && i != j implies d[i] != d[j] by {
            assert(d[i] == s[i] && d[j] == s[j]);
        }
        if d.contains(s.last()) {
            let j = choose|j: int| 0 <= j < d.len() && d[j] == s.last();
            assert(s[j] == s[s.len() - 1]);
        }
    }
}

proof fn lemma_ids_in(st: State, view: u8, k: nat)
    requires
        k <= usize::MAX,
    ensures
        ids_in(st, view, k).no_duplicates(),
        forall|x: ImageId| #[trigger] ids_in(st, view, k).contains(x) <==> (x < k && in_view(st, view, x as int)),
        forall|i: int| 0 <= i < ids_in(st, view, k).len() ==> #[trigger] ids_in(st, view, k)[i] < k,
    decreases k,
{
    if k > 0 {
        lemma_ids_in(st, view, (k - 1) as nat);
        let prev = ids_in(st, view, (k - 1) as nat);
        if in_view(st, view, k - 1) {
            lemma_push(prev, (k - 1) as ImageId);
        }
    }
}

proof fn lemma_kept(st: State, view: u8, order: Seq<ImageId>)
    ensures
        kept(st, view, order).no_duplicates(),
        forall|x: ImageId| #[trigger] kept(st, view, order).contains(x) ==> (x < st.workspaces.len() && in_view(st, view, x as int)),
    decreases order.len(),
{
    if order.len() > 0 {
        lemma_kept(st, view, order.drop_last());
        let prev = kept(st, view, order.drop_last());
        let id = order.last();
        lemma_push(prev, id);
    }
}

proof fn lemma_without(s: Seq<ImageId>, k: Seq<ImageId>)
    requires
        s.no_duplicates(),
    ensures
        without(s, k).no_duplicates(),
        forall|x: ImageId| #[trigger] without(s, k).contains(x) <==> (s.contains(x) && !k.contains(x)),
    decreases s.len(),
{
    if s.len() > 0 {
        let d = s.drop_last();
        lemma_drop_last_contains(s);
        lemma_without(d, k);
        let prev = without(d, k);
        lemma_push(prev, s.last());
    }
}

/// Every view shows exactly the images that belong in it, each once.
pub proof fn order_shows_each_image_once(st: State, view: u8)
    requires
        view <= WORKSPACES,
        st.views.len() == 10,
        st.workspaces.len() <= usize::MAX,
    ensures
        order_of(st, view).no_duplicates(),
        forall|id: ImageId| #[trigger] order_of(st, view).contains(id) <==> (id < st.workspaces.len() && in_view(st, view, id as int)),
{
    let natural = ids_in(st, view, st.workspaces.len());
    lemma_ids_in(st, view, st.workspaces.len());
    if st.views[view as int].manual {
        let k = kept(st, view, st.views[view as int].order);
        lemma_kept(st, view, st.views[view as int].order);
        lemma_without(natural, k);
        let w = without(natural, k);
        let all = k + w;
        assert forall|x: ImageId| #[trigger] all.contains(x) <==> (k.contains(x) || w.contains(x)) by {
            if all.contains(x) {
                let j = choose|j: int| 0 <= j < all.len() && all[j] == x;
                if j < k.len() {
                    assert(k[j] == x);
                } else {
                    assert(w[j - k.len()] == x);
                }
            }
            if k.contains(x) {
                let j = choose|j: int| 0 <= j < k.len() && k[j] == x;
                assert(all[j] == x);
            }
            if w.contains(x) {
                let j = choose|j: int| 0 <= j < w.len() && w[j] == x;
                assert(all[j + k.len()] == x);
            }
        }
        assert forall|i: int, j: int| 0 <= i < all.len() && 0 <= j < all.len() && i != j implies all[i] != all[j] by {
            if i < k.len() && j < k.len() {
            } else if i >= k.len() && j >= k.len() {
                assert(all[i] == w[i - k.len()] && all[j] == w[j - k.len()]);
            } else if i < k.len() {
                assert(k.contains(all[i]));
                assert(w.contains(all[j])) by {
                    assert(w[j - k.len()] == all[j]);
                }
            } else {
                assert(k.contains(all[j]));
                assert(w.contains(all[i])) by {
                    assert(w[i - k.len()] == all[i]);
                }
            }
        }
    }
}

/// Keeps every image but `id`.
pub open spec fn other_than(id: ImageId) -> spec_fn(ImageId) -> bool {
    |x: ImageId| x != id
}

/// The selection after `select(id)`: `id` if it names one of `n` images.
pub open spec fn selection_of(id: Option<ImageId>, n: nat) -> Option<ImageId> {
    match id {
        Some(i) => if i < n { Some(i) } else { None },
        None => None,
    }
}

/// The first image of `s`, if there is one.
pub open spec fn first_of(s: Seq<ImageId>) -> Option<ImageId> {
    if s.len() > 0 { Some(s[0]) } else { None }
}

/// `st` with view `view` showing; the selection stays if the view shows
/// it, else the view's first image is selected.
pub open spec fn activated(st: State, view: u8) -> State {
    let s1 = State { active: view, ..st };
    let vis = visible_of(s1);
    if st.selected is Some && vis.contains(st.selected->0) {
        s1
    } else {
        State { selected: first_of(vis), ..s1 }
    }
}

/// `st` with the sort state of `view` replaced by `vm`.
pub open spec fn with_view(st: State, view: u8, vm: ViewModel) -> State {
    State { views: st.views.update(view as int, vm), ..st }
}

/// The views after image `id` goes from workspace `from` to `to`: it
/// leaves the remembered order of the old workspace and joins the end of
/// the new one's, unless that order still names it.
pub open spec fn views_after_assign(
    views: Seq<ViewModel>,
    id: ImageId,
    from: Option<u8>,
    to: Option<u8>,
) -> Seq<ViewModel> {
    let v1 = match from {
        Some(o) => views.update(
            o as int,
            ViewModel { manual: views[o as int].manual, order: views[o as int].order.filter(other_than(id)) },
        ),
        None => views,
    };
    match to {
        Some(w) => if v1[w as int].order.contains(id) {
            v1
        } else {
            v1.update(w as int, ViewModel { manual: v1[w as int].manual, order: v1[w as int].order.push(id) })
        },
        None => v1,
    }
}

/// Where the selection goes when the selected image `id` leaves the view:
/// to the image that now stands where it stood, else to the last one.
pub open spec fn neighbour(before: Seq<ImageId>, after: Seq<ImageId>, id: ImageId) -> Option<ImageId> {
    let pos = match before.index_of_first(id) {
        Some(p) => p,
        None => 0,
    };
    if pos < after.len() {
        Some(after[pos])
    } else if after.len() > 0 {
        Some(after.last())
    } else {
        None
    }
}

/// Does `assign(id, ws)` change anything? Only for an image of the
/// session, a workspace 1 to 9 or none, and a workspace other than its own.
pub open spec fn assign_changes(st: State, id: ImageId, ws: Option<u8>) -> bool {
    &&& id < st.workspaces.len()
    &&& !(ws is Some && (ws->0 == 0 || ws->0 > WORKSPACES))
    &&& st.workspaces[id as int] != ws
}

/// `st` after image `id` is put in workspace `ws`, the selection aside.
pub open spec fn placed(st: State, id: ImageId, ws: Option<u8>) -> State {
    State {
        workspaces: st.workspaces.update(id as int, ws),
        views: views_after_assign(st.views, id, st.workspaces[id as int], ws),
        ..st
    }
}

/// `st` after image `id` is put in workspace `ws`. If the selected image
/// leaves the view, a neighbour is selected.
pub open spec fn assigned(st: State, id: ImageId, ws: Option<u8>) -> State {
    let s1 = placed(st, id, ws);
    if st.selected == Some(id) && !in_view(s1, st.active, id as int) {
        State { selected: neighbour(visible_of(st), visible_of(s1), id), ..s1 }
    } else {
        s1
    }
}

/// `st` with manual sorting on in the active view. If it was off, the
/// remembered arrangement comes back, followed by the images it does not
/// cover, in natural order.
pub open spec fn manual_on(st: State) -> State {
    let v = st.active;
    if st.views[v as int].manual {
        st
    } else {
        let s1 = with_view(st, v, ViewModel { manual: true, order: st.views[v as int].order });
        with_view(s1, v, ViewModel { manual: true, order: order_of(s1, v) })
    }
}

/// `st` with manual sorting of the active view switched over.
pub open spec fn toggled(st: State) -> State {
    let v = st.active;
    if st.views[v as int].manual {
        with_view(st, v, ViewModel { manual: false, order: st.views[v as int].order })
    } else {
        manual_on(st)
    }
}

/// The place `move_to` aims at in an order of `len` images: `to`, but not
/// past the last place.
pub open spec fn clamped(to: usize, len: nat) -> int {
    if to < len {
        to as int
    } else if len > 0 {
        len - 1
    } else {
        0
    }
}

/// Does `move_to(id, to)` move anything: is `id` shown, and not already
/// at the place aimed at?
pub open spec fn move_changes(st: State, id: ImageId, to: usize) -> bool {
    let order = visible_of(manual_on(st));
    order.index_of_first(id) is Some && order.index_of_first(id)->0 != clamped(to, order.len())
}

/// `st` after `id` is moved to place `to` of the active view, with manual
/// sorting on.
pub open spec fn moved(st: State, id: ImageId, to: usize) -> State {
    let s1 = manual_on(st);
    let order = visible_of(s1);
    let from = order.index_of_first(id)->0;
    with_view(
        s1,
        st.active,
        ViewModel { manual: true, order: order.remove(from).insert(clamped(to, order.len()), id) },
    )
}

/// The place that `move_selected(delta)` aims at, from place `pos` of an
/// order of `len` images: `pos + delta`, kept within `0..len`.
pub open spec fn shifted(pos: int, delta: isize, len: nat) -> int {
    let raw = pos + delta;
    let sat = if raw < 0 { 0 } else if raw > usize::MAX { usize::MAX as int } else { raw };
    if sat < len { sat } else { len - 1 }
}

/// A pending rotation of `r` quarter turns, turned `quarters` more.
pub open spec fn turned_by(r: u8, quarters: u8) -> u8 {
    ((r + quarters % 4) % 4) as u8
}

/// A pending rotation of `r` quarter turns once the file itself records
/// `quarters` of them.
pub open spec fn unturned(r: u8, quarters: u8) -> u8 {
    ((r + 4 - quarters % 4) % 4) as u8
}

/// Does `rotate(id, quarters)` change anything: is `id` an image of the
/// session, turned by other than a whole number of full turns?
pub open spec fn rotate_changes(st: State, id: ImageId, quarters: u8) -> bool {
    id < st.workspaces.len() && quarters % 4 != 0
}

/// `st` after image `id` is turned `quarters` quarter turns clockwise.
pub open spec fn rotated(st: State, id: ImageId, quarters: u8) -> State {
    State { rotations: st.rotations.update(id as int, turned_by(st.rotations[id as int], quarters)), ..st }
}

/// `st` once the file of image `id` records `quarters` quarter turns
/// more: its pending rotation drops by as much.
pub open spec fn rebased(st: State, id: ImageId, quarters: u8) -> State {
    State { rotations: st.rotations.update(id as int, unturned(st.rotations[id as int], quarters)), ..st }
}

/// The session once the file of image `id` records `quarters` quarter
/// turns more: the present and every state undo or redo can bring back
/// are rebased alike.
pub open spec fn rotation_written(m: SessionModel, id: ImageId, quarters: u8) -> SessionModel {
    SessionModel {
        paths: m.paths,
        now: rebased(m.now, id, quarters),
        undo: m.undo.map_values(|st: State| rebased(st, id, quarters)),
        redo: m.redo.map_values(|st: State| rebased(st, id, quarters)),
    }
}

/// How many of `rotations` are pending (not zero).
pub open spec fn pending_count(rotations: Seq<u8>) -> nat
    decreases rotations.len(),
{
    if rotations.len() == 0 {
        0
    } else {
        pending_count(rotations.drop_last()) + if rotations.last() != 0 { 1nat } else { 0nat }
    }
}

/// The history after an organizing action leads from `m.now` to `next`:
/// the old state is remembered (the oldest forgotten beyond `UNDO_DEPTH`)
/// and nothing is left to redo.
pub open spec fn acted(m: SessionModel, next: State) -> SessionModel {
    let undo = m.undo.push(m.now);
    SessionModel {
        paths: m.paths,
        now: next,
        undo: if undo.len() > UNDO_DEPTH { undo.drop_first() } else { undo },
        redo: Seq::empty(),
    }
}

/// The session after `undo`.
pub open spec fn undone(m: SessionModel) -> SessionModel {
    if m.undo.len() == 0 {
        m
    } else {
        SessionModel { paths: m.paths, now: m.undo.last(), undo: m.undo.drop_last(), redo: m.redo.push(m.now) }
    }
}

/// The session after `redo`.
pub open spec fn redone(m: SessionModel) -> SessionModel {
    if m.redo.len() == 0 {
        m
    } else {
        SessionModel { paths: m.paths, now: m.redo.last(), undo: m.undo.push(m.now), redo: m.redo.drop_last() }
    }
}

/// The natural order of a view depends on the workspaces alone.
proof fn lemma_ids_in_same(s1: State, s2: State, view: u8, k: nat)
    requires
        s1.workspaces == s2.workspaces,
    ensures
        ids_in(s1, view, k) == ids_in(s2, view, k),
    decreases k,
{
    if k > 0 {
        lemma_ids_in_same(s1, s2, view, (k - 1) as nat);
    }
}

proof fn lemma_kept_all(st: State, view: u8, o: Seq<ImageId>)
    requires
        o.no_duplicates(),
        forall|i: int| 0 <= i < o.len() ==> #[trigger] o[i] < st.workspaces.len() && in_view(st, view, o[i] as int),
    ensures
        kept(st, view, o) == o,
    decreases o.len(),
{
    if o.len() > 0 {
        let d = o.drop_last();
        assert forall|i: int, j: int| 0 <= i < d.len() && 0 <= j < d.len() && i != j implies d[i] != d[j] by {
            assert(d[i] == o[i] && d[j] == o[j]);
        }
        assert forall|i: int| 0 <= i < d.len() implies #[trigger] d[i] < st.workspaces.len() && in_view(st, view, d[i] as int) by {
            assert(d[i] == o[i]);
        }
        lemma_kept_all(st, view, d);
        if d.contains(o.last()) {
            let j = choose|j: int| 0 <= j < d.len() && d[j] == o.last();
            assert(o[j] == o[o.len() - 1]);
        }
        assert(o[o.len() - 1] < st.workspaces.len());
        assert(d.push(o.last()) =~= o);
    }
}

proof fn lemma_without_all(s: Seq<ImageId>, k: Seq<ImageId>)
    requires
        forall|i: int| 0 <= i < s.len() ==> k.contains(#[trigger] s[i]),
    ensures
        without(s, k) == Seq::<ImageId>::empty(),
    decreases s.len(),
{
    if s.len() > 0 {
        let d = s.drop_last();
        assert forall|i: int| 0 <= i < d.len() implies k.contains(#[trigger] d[i]) by {
            assert(d[i] == s[i]);
        }
        lemma_without_all(d, k);
        assert(k.contains(s[s.len() - 1]));
    }
}

/// An order of `view` that names each image of the view once is shown as it is.
proof fn lemma_full_order(st: State, view: u8, o: Seq<ImageId>)
    requires
        view <= WORKSPACES,
        st.views.len() == 10,
        st.views[view as int] == (ViewModel { manual: true, order: o }),
        st.workspaces.len() <= usize::MAX,
        o.no_duplicates(),
        forall|x: ImageId| #[trigger] o.contains(x) <==> (x < st.workspaces.len() && in_view(st, view, x as int)),
    ensures
        order_of(st, view) == o,
{
    assert forall|i: int| 0 <= i < o.len() implies #[trigger] o[i] < st.workspaces.len() && in_view(st, view, o[i] as int) by {
        assert(o.contains(o[i]));
    }
    lemma_kept_all(st, view, o);
    let natural = ids_in(st, view, st.workspaces.len());
    lemma_ids_in(st, view, st.workspaces.len());
    assert forall|i: int| 0 <= i < natural.len() implies o.contains(#[trigger] natural[i]) by {
        assert(natural.contains(natural[i]));
    }
    lemma_without_all(natural, o);
    assert(o + Seq::<ImageId>::empty() =~= o);
}

/// Every place of an order of a view names an image of the session.
proof fn lemma_order_bounded(st: State, view: u8)
    requires
        view <= WORKSPACES,
        st.views.len() == 10,
        st.workspaces.len() <= usize::MAX,
    ensures
        forall|i: int| 0 <= i < order_of(st, view).len() ==> #[trigger] order_of(st, view)[i] < st.workspaces.len(),
{
    order_shows_each_image_once(st, view);
    let o = order_of(st, view);
    assert forall|i: int| 0 <= i < o.len() implies #[trigger] o[i] < st.workspaces.len() by {
        assert(o.contains(o[i]));
    }
}

/// Putting the entry at `from` back in at `to` keeps the entries and
/// their being distinct.
proof fn lemma_reinsert(v: Seq<ImageId>, from: int, to: int)
    requires
        v.no_duplicates(),
        0 <= from < v.len(),
        0 <= to < v.len(),
    ensures
        v.remove(from).insert(to, v[from]).no_duplicates(),
        v.remove(from).insert(to, v[from]).len() == v.len(),
        forall|x: ImageId| #[trigger] v.remove(from).insert(to, v[from]).contains(x) <==> v.contains(x),
{
    let id = v[from];
    let w = v.remove(from);
    let r = w.insert(to, id);
    assert forall|i: int| 0 <= i < w.len() implies #[trigger] w[i] == (if i < from { v[i] } else { v[i + 1] }) by {}
    assert forall|i: int| 0 <= i < r.len() implies #[trigger] r[i] == (if i < to { w[i] } else if i == to { id } else { w[i - 1] }) by {}
    // Each place of `r` comes from one place of `v`.
    let src = |i: int| if i == to { from } else {
        let j = if i < to { i } else { i - 1 };
        if j < from { j } else { j + 1 }
    };
    assert forall|i: int| 0 <= i < r.len() implies 0 <= #[trigger] src(i) < v.len() && r[i] == v[src(i)] by {}
    assert forall|i: int, j: int| 0 <= i < r.len() && 0 <= j < r.len() && i != j implies r[i] != r[j] by {
        assert(r[i] == v[src(i)] && r[j] == v[src(j)]);
        assert(src(i) != src(j));
    }
    assert forall|x: ImageId| #[trigger] r.contains(x) <==> v.contains(x) by {
        if r.contains(x) {
            let i = choose|i: int| 0 <= i < r.len() && r[i] == x;
            assert(v[src(i)] == x);
        }
        if v.contains(x) {
            let k = choose|k: int| 0 <= k < v.len() && v[k] == x;
            if k == from {
                assert(r[to] == x);
            } else {
                let j = if k < from { k } else { k - 1 };
                let i = if j < to { j } else { j + 1 };
                assert(src(i) == k);
                assert(r[i] == x);
            }
        }
    }
}


/// What `filter` keeps is taken from the sequence filtered.
proof fn lemma_filter_bounded(o: Seq<ImageId>, id: ImageId, n: nat)
    requires
        forall|k: int| 0 <= k < o.len() ==> #[trigger] o[k] < n,
    ensures
        forall|k: int| 0 <= k < o.filter(other_than(id)).len() ==> #[trigger] o.filter(other_than(id))[k] < n,
{
    let f = o.filter(other_than(id));
    assert forall|k: int| 0 <= k < f.len() implies #[trigger] f[k] < n by {
        assert(f.contains(f[k]));
        o.lemma_filter_contains_rev(other_than(id), f[k]);
        let j = choose|j: int| 0 <= j < o.len() && o[j] == f[k];
        assert(o[j] < n);
    }
}

proof fn lemma_placed_valid(st: State, id: ImageId, ws: Option<u8>)
    requires
        valid_state(st, st.workspaces.len()),
        assign_changes(st, id, ws),
    ensures
        valid_state(placed(st, id, ws), st.workspaces.len()),
{
    let n = st.workspaces.len();
    let s1 = placed(st, id, ws);
    let from = st.workspaces[id as int];
    let v1 = match from {
        Some(o) => st.views.update(
            o as int,
            ViewModel { manual: st.views[o as int].manual, order: st.views[o as int].order.filter(other_than(id)) },
        ),
        None => st.views,
    };
    if let Some(o) = from {
        lemma_filter_bounded(st.views[o as int].order, id, n);
    }
    assert forall|v: int, k: int| 0 <= v < 10 && 0 <= k < v1[v].order.len() implies #[trigger] v1[v].order[k] < n by {
        if from is Some && v == from->0 as int {
        } else {
            assert(v1[v] == st.views[v]);
        }
    }
    assert forall|v: int, k: int| 0 <= v < 10 && 0 <= k < s1.views[v].order.len() implies #[trigger] s1.views[v].order[k] < n by {
        if ws is Some && v == ws->0 as int && !v1[v].order.contains(id) {
            if k < v1[v].order.len() {
                assert(s1.views[v].order[k] == v1[v].order[k]);
            }
        } else {
            assert(s1.views[v] == v1[v]);
        }
    }
    assert forall|i: int| 0 <= i < n implies (#[trigger] s1.workspaces[i] matches Some(w) ==> 1 <= w <= WORKSPACES) by {
        if i != id {
            assert(s1.workspaces[i] == st.workspaces[i]);
        }
    }
}

proof fn lemma_assigned_valid(st: State, id: ImageId, ws: Option<u8>)
    requires
        valid_state(st, st.workspaces.len()),
        st.workspaces.len() <= usize::MAX,
        assign_changes(st, id, ws),
    ensures
        valid_state(assigned(st, id, ws), st.workspaces.len()),
{
    lemma_placed_valid(st, id, ws);
    let s1 = placed(st, id, ws);
    lemma_order_bounded(s1, st.active);
    let after = visible_of(s1);
    visible_of(st).index_of_first_ensures(id);
    let nb = neighbour(visible_of(st), after, id);
    if nb is Some {
        let pos = match visible_of(st).index_of_first(id) {
            Some(p) => p,
            None => 0,
        };
        if pos < after.len() {
            assert(after[pos] < st.workspaces.len());
        } else {
            assert(after[after.len() - 1] < st.workspaces.len());
        }
    }
}

proof fn lemma_activated_valid(st: State, view: u8)
    requires
        valid_state(st, st.workspaces.len()),
        st.workspaces.len() <= usize::MAX,
        view <= WORKSPACES,
    ensures
        valid_state(activated(st, view), st.workspaces.len()),
{
    let s1 = State { active: view, ..st };
    lemma_order_bounded(s1, view);
    if visible_of(s1).len() > 0 {
        assert(visible_of(s1)[0] < st.workspaces.len());
    }
}

proof fn lemma_manual_on_valid(st: State)
    requires
        valid_state(st, st.workspaces.len()),
        st.workspaces.len() <= usize::MAX,
    ensures
        valid_state(manual_on(st), st.workspaces.len()),
{
    let v = st.active;
    if !st.views[v as int].manual {
        let n = st.workspaces.len();
        let s1 = with_view(st, v, ViewModel { manual: true, order: st.views[v as int].order });
        assert forall|w: int, k: int| 0 <= w < 10 && 0 <= k < s1.views[w].order.len() implies #[trigger] s1.views[w].order[k] < n by {
            if w != v {
                assert(s1.views[w] == st.views[w]);
            }
        }
        lemma_order_bounded(s1, v);
        let s2 = manual_on(st);
        assert forall|w: int, k: int| 0 <= w < 10 && 0 <= k < s2.views[w].order.len() implies #[trigger] s2.views[w].order[k] < n by {
            if w != v {
                assert(s2.views[w] == s1.views[w]);
            }
        }
    }
}

proof fn lemma_toggled_valid(st: State)
    requires
        valid_state(st, st.workspaces.len()),
        st.workspaces.len() <= usize::MAX,
    ensures
        valid_state(toggled(st), st.workspaces.len()),
{
    let v = st.active;
    let n = st.workspaces.len();
    if st.views[v as int].manual {
        let t = toggled(st);
        assert forall|w: int, k: int| 0 <= w < 10 && 0 <= k < t.views[w].order.len() implies #[trigger] t.views[w].order[k] < n by {
            if w != v {
                assert(t.views[w] == st.views[w]);
            }
        }
    } else {
        lemma_manual_on_valid(st);
    }
}

proof fn lemma_moved_valid(st: State, id: ImageId, to: usize)
    requires
        valid_state(st, st.workspaces.len()),
        st.workspaces.len() <= usize::MAX,
        move_changes(st, id, to),
    ensures
        valid_state(moved(st, id, to), st.workspaces.len()),
{
    let n = st.workspaces.len();
    lemma_manual_on_valid(st);
    let s1 = manual_on(st);
    let v = st.active;
    let order = visible_of(s1);
    order.index_of_first_ensures(id);
    let from = order.index_of_first(id)->0;
    order_shows_each_image_once(s1, v);
    lemma_reinsert(order, from, clamped(to, order.len()));
    let r = order.remove(from).insert(clamped(to, order.len()), id);
    let fin = moved(st, id, to);
    assert forall|w: int, k: int| 0 <= w < 10 && 0 <= k < fin.views[w].order.len() implies #[trigger] fin.views[w].order[k] < n by {
        if w != v {
            assert(fin.views[w] == s1.views[w]);
        } else {
            assert(r.contains(r[k]));
            assert(order.contains(r[k]));
        }
    }
}

proof fn lemma_rotated_valid(st: State, id: ImageId, quarters: u8)
    requires
        valid_state(st, st.workspaces.len()),
        id < st.workspaces.len(),
    ensures
        valid_state(rotated(st, id, quarters), st.workspaces.len()),
        valid_state(rebased(st, id, quarters), st.workspaces.len()),
{
    let n = st.workspaces.len();
    let a = rotated(st, id, quarters);
    let b = rebased(st, id, quarters);
    assert forall|i: int| 0 <= i < n implies #[trigger] a.rotations[i] < 4 && b.rotations[i] < 4 by {
        if i != id {
            assert(a.rotations[i] == st.rotations[i] && b.rotations[i] == st.rotations[i]);
        }
    }
}

/// Turning an image right and then left, or right four times, leaves the
/// state as it was.
pub proof fn turning_back_and_forth(st: State, id: ImageId)
    requires
        valid_state(st, st.workspaces.len()),
        id < st.workspaces.len(),
    ensures
        rotated(rotated(st, id, 1), id, 3) == st,
        rotated(rotated(rotated(rotated(st, id, 1), id, 1), id, 1), id, 1) == st,
{
    let r = st.rotations[id as int];
    assert(r < 4);
    assert(rotated(rotated(st, id, 1), id, 3).rotations =~= st.rotations);
    assert(rotated(rotated(rotated(rotated(st, id, 1), id, 1), id, 1), id, 1).rotations =~= st.rotations);
}

/// Once the file of an image records `quarters` quarter turns, the pending
/// rotation plus what the file gained is what was pending before, and
/// nothing else changes: the image is shown as it was. Writing what is
/// pending leaves nothing pending.
pub proof fn saving_keeps_what_is_shown(st: State, id: ImageId, quarters: u8)
    requires
        valid_state(st, st.workspaces.len()),
        id < st.workspaces.len(),
    ensures
        turned_by(rebased(st, id, quarters).rotations[id as int], quarters) == st.rotations[id as int],
        forall|i: int| 0 <= i < st.rotations.len() && i != id ==> #[trigger] rebased(st, id, quarters).rotations[i]
            == st.rotations[i],
        rebased(st, id, quarters).workspaces == st.workspaces,
        rebased(st, id, quarters).views == st.views,
        rebased(st, id, quarters).active == st.active,
        rebased(st, id, quarters).selected == st.selected,
        rebased(st, id, st.rotations[id as int]).rotations[id as int] == 0,
{
    assert(st.rotations[id as int] < 4);
}

/// Undo takes back an organizing action: whatever state the action led
/// to, undo returns to the state before it, with the same files.
pub proof fn undo_takes_back_an_action(m: SessionModel, next: State)
    ensures
        undone(acted(m, next)).now == m.now,
        undone(acted(m, next)).paths == m.paths,
        undone(acted(m, next)).redo == seq![next],
{
    let a = acted(m, next);
    assert(a.undo.len() > 0);
    assert(a.undo.last() == m.now);
    assert(Seq::<State>::empty().push(next) =~= seq![next]);
}

/// Redo after undo returns the session to where it was, history included.
pub proof fn redo_undoes_undo(m: SessionModel)
    requires
        m.undo.len() > 0,
    ensures
        redone(undone(m)) == m,
{
    assert(m.undo.drop_last().push(m.undo.last()) =~= m.undo);
    assert(m.redo.push(m.now).drop_last() =~= m.redo);
}

/// Undo after redo returns the session to where it was, history included.
pub proof fn undo_undoes_redo(m: SessionModel)
    requires
        m.redo.len() > 0,
    ensures
        undone(redone(m)) == m,
{
    assert(m.redo.drop_last().push(m.redo.last()) =~= m.redo);
    assert(m.undo.push(m.now).drop_last() =~= m.undo);
}

/// Switching manual sorting over twice leaves the view as it was shown: an
/// arrangement is remembered while sorting is off.
pub proof fn toggling_twice_keeps_the_view(st: State)
    requires
        valid_state(st, st.workspaces.len()),
        st.workspaces.len() <= usize::MAX,
    ensures
        visible_of(toggled(toggled(st))) == visible_of(st),
{
    let a = st.active;
    let o = st.views[a as int].order;
    if st.views[a as int].manual {
        let t = toggled(st);
        let s1 = with_view(t, a, ViewModel { manual: true, order: o });
        assert(s1.views =~= st.views);
        assert(s1 == st);
        let v = visible_of(st);
        order_shows_each_image_once(st, a);
        let fin = toggled(t);
        assert(fin == with_view(s1, a, ViewModel { manual: true, order: v }));
        lemma_full_order(fin, a, v);
    } else {
        let t = toggled(st);
        let fin = toggled(t);
        assert(fin.workspaces == st.workspaces);
        assert(!fin.views[a as int].manual);
        lemma_ids_in_same(fin, st, a, st.workspaces.len());
    }
}

/// A move puts the image at the place aimed at and keeps the order of the
/// others.
pub proof fn move_places_the_image(st: State, id: ImageId, to: usize)
    requires
        valid_state(st, st.workspaces.len()),
        st.workspaces.len() <= usize::MAX,
        move_changes(st, id, to),
    ensures
        visible_of(moved(st, id, to)) == ({
            let order = visible_of(manual_on(st));
            order.remove(order.index_of_first(id)->0).insert(clamped(to, order.len()), id)
        }),
{
    let s1 = manual_on(st);
    let a = st.active;
    let order = visible_of(s1);
    let from = order.index_of_first(id)->0;
    order.index_of_first_ensures(id);
    assert(s1.views.len() == 10);
    assert(s1.active == a);
    order_shows_each_image_once(s1, a);
    let t = clamped(to, order.len());
    lemma_reinsert(order, from, t);
    let fin = moved(st, id, to);
    lemma_full_order(fin, a, order.remove(from).insert(t, id));
}

/// The first place of `id` in `v`.
fn position(v: &Vec<ImageId>, id: ImageId) -> (r: Option<usize>)
    ensures
        match r {
            Some(p) => v@.index_of_first(id) == Some(p as int),
            None => v@.index_of_first(id) is None,
        },
{
    let mut k: usize = 0;
    while k < v.len()
        invariant
            k <= v.len(),
            forall|j: int| 0 <= j < k ==> v@[j] != id,
        decreases v.len() - k,
    {
        if v[k] == id {
            proof {
                v@.index_of_first_ensures(id);
            }
            return Some(k);
        }
        k = k + 1;
    }
    proof {
        v@.index_of_first_ensures(id);
    }
    None
}

/// Does `v` name `id`?
fn holds(v: &Vec<ImageId>, id: ImageId) -> (r: bool)
    ensures
        r == v@.contains(id),
{
    let mut k: usize = 0;
    while k < v.len()
        invariant
            k <= v.len(),
            forall|j: int| 0 <= j < k ==> v@[j] != id,
        decreases v.len() - k,
    {
        if v[k] == id {
            return true;
        }
        k = k + 1;
    }
    false
}

/// `v` without `id`.
fn all_but(v: &Vec<ImageId>, id: ImageId) -> (r: Vec<ImageId>)
    ensures
        r@ == v@.filter(other_than(id)),
{
    let mut out: Vec<ImageId> = Vec::new();
    let mut k: usize = 0;
    while k < v.len()
        invariant
            k <= v.len(),
            out@ == v@.subrange(0, k as int).filter(other_than(id)),
        decreases v.len() - k,
    {
        proof {
            v@.subrange(0, k as int).lemma_filter_push(v@[k as int], other_than(id));
            assert(v@.subrange(0, k + 1) =~= v@.subrange(0, k as int).push(v@[k as int]));
        }
        if v[k] != id {
            out.push(v[k]);
        }
        k = k + 1;
    }
    assert(v@.subrange(0, v.len() as int) =~= v@);
    out
}

/// `snaps` once the file of image `id` records `quarters` quarter turns more.
fn rebase_all(snaps: Vec<Snapshot>, id: ImageId, quarters: u8) -> (r: Vec<Snapshot>)
    requires
        forall|i: int| 0 <= i < snaps.len() ==> id < (#[trigger] snaps@[i]).rotations@.len(),
        forall|i: int, k: int| 0 <= i < snaps.len() && 0 <= k < snaps@[i].rotations@.len() ==> #[trigger] snaps@[i].rotations@[k] < 4,
    ensures
        r@.map_values(|s: Snapshot| snapshot_model(s)) == snaps@.map_values(|s: Snapshot| snapshot_model(s)).map_values(
            |st: State| rebased(st, id, quarters),
        ),
{
    let ghost want = snaps@.map_values(|s: Snapshot| snapshot_model(s)).map_values(
        |st: State| rebased(st, id, quarters),
    );
    let ghost all = snaps@;
    let mut out: Vec<Snapshot> = Vec::new();
    let mut rest = snaps;
    let ghost mut i: int = 0;
    while rest.len() > 0
        invariant
            0 <= i <= all.len(),
            rest.len() + i == all.len(),
            rest@ == all.subrange(i, all.len() as int),
            out.len() == i,
            forall|j: int| 0 <= j < i ==> snapshot_model(#[trigger] out@[j]) == want[j],
            forall|j: int| 0 <= j < all.len() ==> id < (#[trigger] all[j]).rotations@.len(),
            forall|j: int, k: int| 0 <= j < all.len() && 0 <= k < all[j].rotations@.len() ==> #[trigger] all[j].rotations@[k] < 4,
            want == all.map_values(|s: Snapshot| snapshot_model(s)).map_values(|st: State| rebased(st, id, quarters)),
        decreases rest.len(),
    {
        let mut snap = rest.remove(0);
        assert(snap == all[i]);
        let r = snap.rotations[id];
        assert(r < 4);
        let v: u8 = (r + 4 - quarters % 4) % 4;
        snap.rotations.set(id, v);
        proof {
            let before = snapshot_model(all[i]);
            assert(snapshot_model(snap).rotations =~= rebased(before, id, quarters).rotations);
            assert(snapshot_model(snap) == rebased(before, id, quarters));
            assert(want[i] == rebased(before, id, quarters));
            assert(rest@ =~= all.subrange(i + 1, all.len() as int));
        }
        out.push(snap);
        proof {
            i = i + 1;
        }
    }
    assert(out@.map_values(|s: Snapshot| snapshot_model(s)) =~= want);
    out
}

pub struct Session {
    images: Vec<ImageEntry>,
    views: Vec<Workspace>,
    active: u8,
    selected: Option<ImageId>,
    undo: Vec<Snapshot>,
    redo: Vec<Snapshot>,
}

impl View for Session {
    type V = SessionModel;

    closed spec fn view(&self) -> SessionModel {
        SessionModel {
            paths: self.images@.map_values(|e: ImageEntry| e.path@),
            now: State {
                workspaces: self.images@.map_values(|e: ImageEntry| e.workspace),
                rotations: self.images@.map_values(|e: ImageEntry| e.rotation),
                views: views_model(self.views@),
                active: self.active,
                selected: self.selected,
            },
            undo: self.undo@.map_values(|s: Snapshot| snapshot_model(s)),
            redo: self.redo@.map_values(|s: Snapshot| snapshot_model(s)),
        }
    }
}

impl Session {
    /// The session's invariant: its state and every state it can go back
    /// or forward to are valid, and at most `UNDO_DEPTH` of those are kept.
    pub open spec fn wf(&self) -> bool {
        valid(self@)
    }

    /// A session of `paths`, all unassigned, nothing selected, the view of
    /// all images active and in natural order.
    pub fn new(paths: Vec<String>) -> (s: Self)
        ensures
            s.wf(),
            s@.paths == paths@.map_values(|p: String| p@),
            s@.now.workspaces == Seq::new(paths@.len(), |i: int| None::<u8>),
            s@.now.rotations == Seq::new(paths@.len(), |i: int| 0u8),
            s@.now.views == Seq::new(10, |v: int| ViewModel { manual: false, order: Seq::empty() }),
            s@.now.active == 0,
            s@.now.selected is None,
            s@.undo.len() == 0,
            s@.redo.len() == 0,
    {
        let mut images: Vec<ImageEntry> = Vec::new();
        let mut rest = paths;
        let ghost all = rest@;
        let ghost mut i: int = 0;
        while rest.len() > 0
            invariant
                0 <= i <= all.len(),
                rest.len() + i == all.len(),
                rest@ == all.subrange(i, all.len() as int),
                images.len() == i,
                forall|j: int| 0 <= j < i ==> #[trigger] images@[j].path@ == all[j]@,
                forall|j: int| 0 <= j < images.len() ==> #[trigger] images@[j].workspace is None,
                forall|j: int| 0 <= j < images.len() ==> #[trigger] images@[j].rotation == 0,
            decreases rest.len(),
        {
            let path = rest.remove(0);
            assert(path == all[i]);
            images.push(ImageEntry { path, workspace: None, rotation: 0 });
            proof {
                assert(rest@ =~= all.subrange(i + 1, all.len() as int));
                i = i + 1;
            }
        }
        assert(all.subrange(0, all.len() as int) =~= all);
        let mut views: Vec<Workspace> = Vec::new();
        let mut v: usize = 0;
        while v < 10
            invariant
                v <= 10,
                views.len() == v,
                forall|j: int| 0 <= j < v ==> !(#[trigger] views@[j]).manual_sort_enabled && views@[j].explicit_order@.len() == 0,
            decreases 10 - v,
        {
            views.push(Workspace { manual_sort_enabled: false, explicit_order: Vec::new() });
            v = v + 1;
        }
        let s = Session { images, views, active: 0, selected: None, undo: Vec::new(), redo: Vec::new() };
        assert(s@.now.workspaces =~= Seq::new(all.len(), |i: int| None::<u8>));
        assert(s@.now.rotations =~= Seq::new(all.len(), |i: int| 0u8));
        assert(s@.paths =~= all.map_values(|p: String| p@));
        assert forall|j: int| 0 <= j < 10 implies s@.now.views[j] == (ViewModel { manual: false, order: Seq::<ImageId>::empty() }) by {
            assert(s@.now.views[j].order =~= Seq::<ImageId>::empty());
        }
        assert(s@.now.views =~= Seq::new(10, |v: int| ViewModel { manual: false, order: Seq::empty() }));
        assert(s@.undo =~= Seq::<State>::empty());
        assert(s@.redo =~= Seq::<State>::empty());
        s
    }

    pub fn images(&self) -> (r: &[ImageEntry])
        ensures
            r@.map_values(|e: ImageEntry| e.path@) == self@.paths,
            r@.map_values(|e: ImageEntry| e.workspace) == self@.now.workspaces,
            r@.map_values(|e: ImageEntry| e.rotation) == self@.now.rotations,
    {
        self.images.as_slice()
    }

    pub fn image(&self, id: ImageId) -> (r: &ImageEntry)
        requires
            id < self@.paths.len(),
        ensures
            r.path@ == self@.paths[id as int],
            r.workspace == self@.now.workspaces[id as int],
            r.rotation == self@.now.rotations[id as int],
    {
        &self.images[id]
    }

    /// 0 = all images, 1..=9 = workspace filter.
    pub fn active(&self) -> (r: u8)
        ensures
            r == self@.now.active,
    {
        self.active
    }

    pub fn selected(&self) -> (r: Option<ImageId>)
        ensures
            r == self@.now.selected,
    {
        self.selected
    }

    fn in_view(&self, view: u8, id: ImageId) -> (r: bool)
        requires
            id < self@.paths.len(),
        ensures
            r == in_view(self@.now, view, id as int),
    {
        view == 0 || self.images[id].workspace == Some(view)
    }

    fn natural(&self, view: u8) -> (r: Vec<ImageId>)
        ensures
            r@ == ids_in(self@.now, view, self@.now.workspaces.len()),
    {
        let mut out: Vec<ImageId> = Vec::new();
        let mut id: usize = 0;
        while id < self.images.len()
            invariant
                id <= self.images.len(),
                self@.now.workspaces.len() == self.images.len(),
                self@.paths.len() == self.images.len(),
                out@ == ids_in(self@.now, view, id as nat),
            decreases self.images.len() - id,
        {
            if self.in_view(view, id) {
                out.push(id);
            }
            id = id + 1;
        }
        out
    }

    /// The images of `view` in display order.
    pub fn view_order(&self, view: u8) -> (r: Vec<ImageId>)
        requires
            self.wf(),
            view <= WORKSPACES,
        ensures
            r@ == order_of(self@.now, view),
    {
        let ghost st = self@.now;
        let n = self.images.len();
        let ws = &self.views[view as usize];
        assert(view_model(*ws) == st.views[view as int]);
        if !ws.manual_sort_enabled {
            return self.natural(view);
        }
        let mut seen: Vec<bool> = vec![false; n];
        let mut out: Vec<ImageId> = Vec::new();
        let order = &ws.explicit_order;
        let mut k: usize = 0;
        while k < order.len()
            invariant
                k <= order.len(),
                self.wf(),
                st == self@.now,
                n == st.workspaces.len(),
                n == self@.paths.len(),
                order@ == st.views[view as int].order,
                view <= WORKSPACES,
                seen.len() == n,
                out@ == kept(st, view, order@.subrange(0, k as int)),
                forall|x: int| 0 <= x < n ==> seen@[x] == out@.contains(x as ImageId),
            decreases order.len() - k,
        {
            let id = order[k];
            assert(id < n);
            let ghost prev = order@.subrange(0, k as int);
            assert(order@.subrange(0, k + 1).drop_last() =~= prev);
            if self.in_view(view, id) && !seen[id] {
                let ghost before = out@;
                seen.set(id, true);
                out.push(id);
                assert forall|x: int| 0 <= x < n implies seen@[x] == out@.contains(x as ImageId) by {
                    if x != id {
                        if out@.contains(x as ImageId) {
                            let j = choose|j: int| 0 <= j < out@.len() && out@[j] == x as ImageId;
                            assert(before[j] == x);
                        }
                        if before.contains(x as ImageId) {
                            let j = choose|j: int| 0 <= j < before.len() && before[j] == x as ImageId;
                            assert(out@[j] == x);
                        }
                    } else {
                        assert(out@[out@.len() - 1] == id);
                    }
                }
            }
            k = k + 1;
        }
        assert(order@.subrange(0, order.len() as int) =~= order@);
        let ghost kk = out@;
        let natural = self.natural(view);
        proof {
            lemma_ids_in(st, view, n as nat);
        }
        let mut j: usize = 0;
        while j < natural.len()
            invariant
                j <= natural.len(),
                n == st.workspaces.len(),
                seen.len() == n,
                natural@ == ids_in(st, view, n as nat),
                forall|i: int| 0 <= i < natural@.len() ==> #[trigger] natural@[i] < n,
                forall|x: int| 0 <= x < n ==> seen@[x] == kk.contains(x as ImageId),
                out@ == kk + without(natural@.subrange(0, j as int), kk),
            decreases natural.len() - j,
        {
            let id = natural[j];
            let ghost pre = natural@.subrange(0, j as int);
            assert(natural@.subrange(0, j + 1).drop_last() =~= pre);
            if !seen[id] {
                out.push(id);
                assert(out@ =~= kk + without(natural@.subrange(0, j + 1), kk));
            }
            j = j + 1;
        }
        assert(natural@.subrange(0, natural.len() as int) =~= natural@);
        out
    }

    /// Image ids shown in the active view, in display order.
    pub fn visible(&self) -> (r: Vec<ImageId>)
        requires
            self.wf(),
        ensures
            r@ == visible_of(self@.now),
    {
        self.view_order(self.active)
    }

    /// How many images are in workspace `ws`.
    pub fn workspace_count(&self, ws: u8) -> (r: usize)
        ensures
            r == self@.now.workspaces.filter(|w: Option<u8>| w == Some(ws)).len(),
    {
        let mut count: usize = 0;
        let mut k: usize = 0;
        let ghost all = self@.now.workspaces;
        while k < self.images.len()
            invariant
                k <= self.images.len(),
                all == self@.now.workspaces,
                all.len() == self.images.len(),
                count <= k,
                count == all.subrange(0, k as int).filter(|w: Option<u8>| w == Some(ws)).len(),
            decreases self.images.len() - k,
        {
            let ghost pre = all.subrange(0, k as int);
            assert(all.subrange(0, k + 1).drop_last() =~= pre);
            reveal_with_fuel(Seq::filter, 1);
            if self.images[k].workspace == Some(ws) {
                count = count + 1;
            }
            k = k + 1;
        }
        assert(all.subrange(0, k as int) =~= all);
        count
    }

    /// Is the active view sorted by hand?
    pub fn manual_sort(&self) -> (r: bool)
        requires
            self.wf(),
        ensures
            r == self@.now.views[self@.now.active as int].manual,
    {
        self.views[self.active as usize].manual_sort_enabled
    }

    /// A copy of the state that undo brings back.
    fn snapshot(&self) -> (r: Snapshot)
        ensures
            snapshot_model(r) == self@.now,
    {
        let mut workspaces: Vec<Option<u8>> = Vec::new();
        let mut rotations: Vec<u8> = Vec::new();
        let mut k: usize = 0;
        while k < self.images.len()
            invariant
                k <= self.images.len(),
                workspaces@ == self@.now.workspaces.subrange(0, k as int),
                rotations@ == self@.now.rotations.subrange(0, k as int),
            decreases self.images.len() - k,
        {
            workspaces.push(self.images[k].workspace);
            rotations.push(self.images[k].rotation);
            k = k + 1;
            assert(workspaces@ =~= self@.now.workspaces.subrange(0, k as int));
            assert(rotations@ =~= self@.now.rotations.subrange(0, k as int));
        }
        assert(self@.now.workspaces.subrange(0, k as int) =~= self@.now.workspaces);
        assert(self@.now.rotations.subrange(0, k as int) =~= self@.now.rotations);
        let mut views: Vec<Workspace> = Vec::new();
        let mut v: usize = 0;
        while v < self.views.len()
            invariant
                v <= self.views.len(),
                views.len() == v,
                views_model(views@) == views_model(self.views@).subrange(0, v as int),
            decreases self.views.len() - v,
        {
            let w = &self.views[v];
            let order = w.explicit_order.clone();
            assert(order@ =~= w.explicit_order@);
            let ghost prev = views@;
            views.push(Workspace { manual_sort_enabled: w.manual_sort_enabled, explicit_order: order });
            assert(view_model(views@[v as int]) == view_model(self.views@[v as int]));
            assert(views@ =~= prev.push(views@[v as int]));
            v = v + 1;
            assert(views_model(views@) =~= views_model(self.views@).subrange(0, v as int));
        }
        assert(views_model(self.views@).subrange(0, v as int) =~= views_model(self.views@));
        Snapshot { workspaces, rotations, views, active: self.active, selected: self.selected }
    }

    /// Bring back the state of `snap`; the files stay where they are.
    fn restore(&mut self, snap: Snapshot)
        requires
            snap.workspaces.len() == old(self).images.len(),
            snap.rotations.len() == old(self).images.len(),
        ensures
            final(self)@ == (SessionModel { now: snapshot_model(snap), ..old(self)@ }),
    {
        let Snapshot { workspaces, rotations, views, active, selected } = snap;
        let mut k: usize = 0;
        while k < self.images.len()
            invariant
                k <= self.images.len(),
                self.images.len() == workspaces.len(),
                self.images.len() == rotations.len(),
                self.images.len() == old(self).images.len(),
                forall|j: int| 0 <= j < k ==> #[trigger] self.images@[j].workspace == workspaces@[j],
                forall|j: int| 0 <= j < k ==> #[trigger] self.images@[j].rotation == rotations@[j],
                forall|j: int| 0 <= j < self.images.len() ==> #[trigger] self.images@[j].path == old(self).images@[j].path,
                self.views == old(self).views,
                self.active == old(self).active,
                self.selected == old(self).selected,
                self.undo == old(self).undo,
                self.redo == old(self).redo,
            decreases self.images.len() - k,
        {
            self.images[k].workspace = workspaces[k];
            self.images[k].rotation = rotations[k];
            k = k + 1;
        }
        self.views = views;
        self.active = active;
        self.selected = selected;
        assert(self@.paths =~= old(self)@.paths);
        assert(self@.now.workspaces =~= workspaces@);
        assert(self@.now.rotations =~= rotations@);
    }

    /// Remember `before`, the state an organizing action is about to
    /// change; forget the oldest beyond `UNDO_DEPTH` and what could be redone.
    fn checkpoint(&mut self, before: Snapshot)
        requires
            old(self).wf(),
            valid_state(snapshot_model(before), old(self)@.paths.len()),
        ensures
            final(self).wf(),
            final(self)@ == acted(SessionModel { now: snapshot_model(before), ..old(self)@ }, old(self)@.now),
    {
        let ghost before_model = snapshot_model(before);
        self.undo.push(before);
        if self.undo.len() > UNDO_DEPTH {
            self.undo.remove(0);
        }
        self.redo.clear();
        proof {
            let m = SessionModel { now: before_model, ..old(self)@ };
            let pushed = old(self)@.undo.push(before_model);
            if pushed.len() > UNDO_DEPTH {
                assert(self@.undo =~= pushed.drop_first());
            } else {
                assert(self@.undo =~= pushed);
            }
            assert(self@.redo =~= Seq::<State>::empty());
            assert(self@ =~= acted(m, old(self)@.now));
        }
    }

    /// Take back the last assignment, reordering, rotation or sort toggle.
    /// Returns to the view and selection it happened in. Browsing is not
    /// undone.
    pub fn undo(&mut self) -> (r: bool)
        requires
            old(self).wf(),
        ensures
            final(self).wf(),
            r == (old(self)@.undo.len() > 0),
            final(self)@ == undone(old(self)@),
    {
        if self.undo.len() == 0 {
            return false;
        }
        let snap = self.undo.pop().unwrap();
        let now = self.snapshot();
        self.redo.push(now);
        self.restore(snap);
        proof {
            assert(self@.undo =~= old(self)@.undo.drop_last());
            assert(self@.redo =~= old(self)@.redo.push(old(self)@.now));
            assert(self@ =~= undone(old(self)@));
        }
        true
    }

    /// Bring back what the last undo took back.
    pub fn redo(&mut self) -> (r: bool)
        requires
            old(self).wf(),
        ensures
            final(self).wf(),
            r == (old(self)@.redo.len() > 0),
            final(self)@ == redone(old(self)@),
    {
        if self.redo.len() == 0 {
            return false;
        }
        let snap = self.redo.pop().unwrap();
        let now = self.snapshot();
        self.undo.push(now);
        self.restore(snap);
        proof {
            assert(self@.redo =~= old(self)@.redo.drop_last());
            assert(self@.undo =~= old(self)@.undo.push(old(self)@.now));
            assert(self@ =~= redone(old(self)@));
        }
        true
    }

    /// Select image `id`, or nothing; an id that names no image selects nothing.
    pub fn select(&mut self, id: Option<ImageId>)
        requires
            old(self).wf(),
        ensures
            final(self).wf(),
            final(self)@ == (SessionModel {
                now: State { selected: selection_of(id, old(self)@.paths.len()), ..old(self)@.now },
                ..old(self)@
            }),
    {
        self.selected = match id {
            Some(i) => if i < self.images.len() { Some(i) } else { None },
            None => None,
        };
        proof {
            assert(self@ =~= (SessionModel {
                now: State { selected: selection_of(id, old(self)@.paths.len()), ..old(self)@.now },
                ..old(self)@
            }));
        }
    }

    /// Switch the filter: 0 shows all images, 1 to 9 a workspace, anything
    /// else is ignored. Keeps the selection if still visible, else selects
    /// the first image. Browsing is no undo step.
    pub fn set_active(&mut self, view: u8)
        requires
            old(self).wf(),
        ensures
            final(self).wf(),
            view > WORKSPACES ==> final(self)@ == old(self)@,
            view <= WORKSPACES ==> final(self)@ == (SessionModel { now: activated(old(self)@.now, view), ..old(self)@ }),
    {
        if view > WORKSPACES {
            return;
        }
        self.active = view;
        let visible = self.visible();
        let keep = match self.selected {
            Some(id) => holds(&visible, id),
            None => false,
        };
        if !keep {
            self.selected = if visible.len() > 0 { Some(visible[0]) } else { None };
        }
        proof {
            lemma_activated_valid(old(self)@.now, view);
            assert(self@ =~= (SessionModel { now: activated(old(self)@.now, view), ..old(self)@ }));
        }
    }

    /// Assign `id` to a workspace (exclusive) or clear it with `None`.
    /// If the image leaves the active view, a neighbouring image becomes
    /// selected. Anything but an image of the session and a workspace 1 to
    /// 9 or none is ignored, as is an assignment that changes nothing.
    pub fn assign(&mut self, id: ImageId, ws: Option<u8>)
        requires
            old(self).wf(),
        ensures
            final(self).wf(),
            assign_changes(old(self)@.now, id, ws) ==> final(self)@ == acted(
                old(self)@,
                assigned(old(self)@.now, id, ws),
            ),
            !assign_changes(old(self)@.now, id, ws) ==> final(self)@ == old(self)@,
    {
        if id >= self.images.len() {
            return;
        }
        match ws {
            Some(w) => if w == 0 || w > WORKSPACES {
                return;
            },
            None => {},
        }
        let previous = self.images[id].workspace;
        let same = match (previous, ws) {
            (Some(a), Some(b)) => a == b,
            (None, None) => true,
            _ => false,
        };
        if same {
            return;
        }
        let ghost st = old(self)@.now;
        let ghost n = old(self)@.paths.len();
        let before = self.snapshot();
        self.checkpoint(before);
        let before_visible = self.visible();
        self.images[id].workspace = ws;
        match previous {
            Some(o) => {
                let rest = all_but(&self.views[o as usize].explicit_order, id);
                self.views[o as usize].explicit_order = rest;
            },
            None => {},
        }
        match ws {
            Some(w) => {
                if !holds(&self.views[w as usize].explicit_order, id) {
                    self.views[w as usize].explicit_order.push(id);
                }
            },
            None => {},
        }
        proof {
            lemma_placed_valid(st, id, ws);
            assert(self@.now.workspaces =~= placed(st, id, ws).workspaces);
            assert(self@.now.views =~= placed(st, id, ws).views);
            assert(self@.now == placed(st, id, ws));
            assert(self@.paths =~= old(self)@.paths);
        }
        let was_selected = match self.selected {
            Some(s) => s == id,
            None => false,
        };
        if was_selected && !self.in_view(self.active, id) {
            let after = self.visible();
            let pos = match position(&before_visible, id) {
                Some(p) => p,
                None => 0,
            };
            self.selected = if pos < after.len() {
                Some(after[pos])
            } else if after.len() > 0 {
                Some(after[after.len() - 1])
            } else {
                None
            };
        }
        proof {
            lemma_assigned_valid(st, id, ws);
            assert(self@ =~= acted(old(self)@, assigned(st, id, ws)));
        }
    }

    /// Turn manual sorting on in the active view. A remembered arrangement
    /// comes back; images it doesn't cover follow in natural order.
    fn enable_manual_sort(&mut self)
        requires
            old(self).wf(),
        ensures
            final(self).wf(),
            final(self)@ == (SessionModel { now: manual_on(old(self)@.now), ..old(self)@ }),
    {
        let view = self.active;
        if self.views[view as usize].manual_sort_enabled {
            return;
        }
        let ghost st = old(self)@.now;
        self.views[view as usize].manual_sort_enabled = true;
        let ghost s1 = with_view(st, view, ViewModel { manual: true, order: st.views[view as int].order });
        proof {
            assert(self@.now.views =~= s1.views);
            assert(self@.now == s1);
            assert forall|w: int, k: int| 0 <= w < 10 && 0 <= k < s1.views[w].order.len() implies #[trigger] s1.views[w].order[k] < st.workspaces.len() by {
                if w != view {
                    assert(s1.views[w] == st.views[w]);
                }
            }
        }
        let order = self.view_order(view);
        self.views[view as usize].explicit_order = order;
        proof {
            lemma_manual_on_valid(st);
            assert(self@.now.views =~= manual_on(st).views);
            assert(self@ =~= (SessionModel { now: manual_on(st), ..old(self)@ }));
        }
    }

    /// Switch manual sorting of the active view over; returns whether it is
    /// now on. An undo step.
    pub fn toggle_manual_sort(&mut self) -> (r: bool)
        requires
            old(self).wf(),
        ensures
            final(self).wf(),
            r == !old(self)@.now.views[old(self)@.now.active as int].manual,
            final(self)@ == acted(old(self)@, toggled(old(self)@.now)),
    {
        let ghost st = old(self)@.now;
        let before = self.snapshot();
        self.checkpoint(before);
        assert(self@ == acted(old(self)@, st));
        let enabled = !self.manual_sort();
        if enabled {
            self.enable_manual_sort();
        } else {
            self.views[self.active as usize].manual_sort_enabled = false;
            proof {
                lemma_toggled_valid(st);
                assert(self@.now.views =~= toggled(st).views);
            }
        }
        proof {
            assert(self@ =~= acted(old(self)@, toggled(st)));
        }
        enabled
    }

    /// Move `id` to place `to` within the active view (not past its last
    /// place), with manual sorting on. Returns false, and changes nothing,
    /// where the image is not shown or is already there.
    pub fn move_to(&mut self, id: ImageId, to: usize) -> (r: bool)
        requires
            old(self).wf(),
        ensures
            final(self).wf(),
            r == move_changes(old(self)@.now, id, to),
            r ==> final(self)@ == acted(old(self)@, moved(old(self)@.now, id, to)),
            !r ==> final(self)@ == old(self)@,
    {
        let ghost st = old(self)@.now;
        let before = self.snapshot();
        self.enable_manual_sort();
        let mut order = self.visible();
        let from = position(&order, id);
        let len = order.len();
        let to = if to < len {
            to
        } else if len > 0 {
            len - 1
        } else {
            0
        };
        let from = match from {
            Some(f) => if f != to {
                f
            } else {
                self.restore(before);
                assert(self@ =~= old(self)@);
                return false;
            },
            None => {
                self.restore(before);
                assert(self@ =~= old(self)@);
                return false;
            },
        };
        self.checkpoint(before);
        assert(self@ == acted(old(self)@, manual_on(st)));
        proof {
            order@.index_of_first_ensures(id);
        }
        order.remove(from);
        order.insert(to, id);
        self.views[self.active as usize].explicit_order = order;
        proof {
            lemma_moved_valid(st, id, to);
            assert(self@.now.views =~= moved(st, id, to).views);
            assert(self@ =~= acted(old(self)@, moved(st, id, to)));
        }
        true
    }

    /// Shift the selected image backward (-1) or forward (+1), not past
    /// either end of the view.
    pub fn move_selected(&mut self, delta: isize) -> (r: bool)
        requires
            old(self).wf(),
        ensures
            final(self).wf(),
            ({
                let vis = visible_of(old(self)@.now);
                let sel = old(self)@.now.selected;
                if sel is Some && vis.index_of_first(sel->0) is Some {
                    let pos = vis.index_of_first(sel->0)->0;
                    let to = shifted(pos, delta, vis.len());
                    if to != pos && move_changes(old(self)@.now, sel->0, to as usize) {
                        r && final(self)@ == acted(old(self)@, moved(old(self)@.now, sel->0, to as usize))
                    } else {
                        !r && final(self)@ == old(self)@
                    }
                } else {
                    !r && final(self)@ == old(self)@
                }
            }),
    {
        let id = match self.selected {
            Some(id) => id,
            None => return false,
        };
        let order = self.visible();
        let pos = match position(&order, id) {
            Some(p) => p,
            None => return false,
        };
        proof {
            order@.index_of_first_ensures(id);
        }
        let stepped: usize = if delta >= 0 {
            pos.saturating_add(delta as usize)
        } else {
            let back: usize = (-(delta + 1)) as usize + 1;
            pos.saturating_sub(back)
        };
        let to = if stepped < order.len() {
            stepped
        } else {
            order.len() - 1
        };
        if to == pos {
            return false;
        }
        self.move_to(id, to)
    }

    /// Record that a file now lives elsewhere (after an explicit move or
    /// rename). Not an undo step: what happened on disk stays done.
    pub fn set_path(&mut self, id: ImageId, path: String)
        requires
            old(self).wf(),
        ensures
            final(self).wf(),
            id < old(self)@.paths.len() ==> final(self)@ == (SessionModel {
                paths: old(self)@.paths.update(id as int, path@),
                ..old(self)@
            }),
            id >= old(self)@.paths.len() ==> final(self)@ == old(self)@,
    {
        if id < self.images.len() {
            self.images[id].path = path;
            proof {
                assert(self@.paths =~= old(self)@.paths.update(id as int, path@));
                assert(self@.now.workspaces =~= old(self)@.now.workspaces);
                assert(self@.now.rotations =~= old(self)@.now.rotations);
            }
        }
    }

    /// How many images carry a rotation not yet written to their files.
    pub fn unsaved_rotations(&self) -> (r: usize)
        ensures
            r == pending_count(self@.now.rotations),
    {
        let ghost all = self@.now.rotations;
        let mut count: usize = 0;
        let mut k: usize = 0;
        while k < self.images.len()
            invariant
                k <= self.images.len(),
                all == self@.now.rotations,
                all.len() == self.images.len(),
                count == pending_count(all.subrange(0, k as int)),
                count <= k,
            decreases self.images.len() - k,
        {
            assert(all.subrange(0, k + 1).drop_last() =~= all.subrange(0, k as int));
            if self.images[k].rotation != 0 {
                count = count + 1;
            }
            k = k + 1;
        }
        assert(all.subrange(0, k as int) =~= all);
        count
    }

    /// Turn image `id` by `quarters` quarter turns clockwise (`r`: one,
    /// `R`: three), on screen only until it is saved to the file. An undo
    /// step; an id that names no image, or whole turns, change nothing.
    pub fn rotate(&mut self, id: ImageId, quarters: u8)
        requires
            old(self).wf(),
        ensures
            final(self).wf(),
            rotate_changes(old(self)@.now, id, quarters) ==> final(self)@ == acted(
                old(self)@,
                rotated(old(self)@.now, id, quarters),
            ),
            !rotate_changes(old(self)@.now, id, quarters) ==> final(self)@ == old(self)@,
    {
        if id >= self.images.len() || quarters % 4 == 0 {
            return;
        }
        let ghost st = old(self)@.now;
        let before = self.snapshot();
        self.checkpoint(before);
        let r = self.images[id].rotation;
        assert(r == st.rotations[id as int]);
        self.images[id].rotation = (r + quarters % 4) % 4;
        proof {
            lemma_rotated_valid(st, id, quarters);
            assert(self@.now.rotations =~= rotated(st, id, quarters).rotations);
            assert(self@.now.workspaces =~= st.workspaces);
            assert(self@.paths =~= old(self)@.paths);
            assert(self@ =~= acted(old(self)@, rotated(st, id, quarters)));
        }
    }

    /// The file of image `id` now records `quarters` more quarter turns:
    /// its pending rotation drops by as much, now and in every state undo
    /// or redo can bring back, so each still shows the image as it did.
    /// Not an undo step: what happened on disk stays done.
    pub fn rotation_saved(&mut self, id: ImageId, quarters: u8)
        requires
            old(self).wf(),
        ensures
            final(self).wf(),
            id < old(self)@.paths.len() ==> final(self)@ == rotation_written(old(self)@, id, quarters),
            id >= old(self)@.paths.len() ==> final(self)@ == old(self)@,
    {
        if id >= self.images.len() {
            return;
        }
        let ghost m = old(self)@;
        let ghost n = m.paths.len();
        proof {
            assert forall|i: int| 0 <= i < self.undo.len() implies id < (#[trigger] self.undo@[i]).rotations@.len() by {
                assert(valid_state(m.undo[i], n));
            }
            assert forall|i: int, k: int| 0 <= i < self.undo.len() && 0 <= k < self.undo@[i].rotations@.len() implies #[trigger] self.undo@[i].rotations@[k] < 4 by {
                assert(valid_state(m.undo[i], n));
                assert(m.undo[i].rotations[k] == self.undo@[i].rotations@[k]);
            }
            assert forall|i: int| 0 <= i < self.redo.len() implies id < (#[trigger] self.redo@[i]).rotations@.len() by {
                assert(valid_state(m.redo[i], n));
            }
            assert forall|i: int, k: int| 0 <= i < self.redo.len() && 0 <= k < self.redo@[i].rotations@.len() implies #[trigger] self.redo@[i].rotations@[k] < 4 by {
                assert(valid_state(m.redo[i], n));
                assert(m.redo[i].rotations[k] == self.redo@[i].rotations@[k]);
            }
        }
        let mut undo: Vec<Snapshot> = Vec::new();
        std::mem::swap(&mut undo, &mut self.undo);
        self.undo = rebase_all(undo, id, quarters);
        let mut redo: Vec<Snapshot> = Vec::new();
        std::mem::swap(&mut redo, &mut self.redo);
        self.redo = rebase_all(redo, id, quarters);
        let r = self.images[id].rotation;
        assert(r == m.now.rotations[id as int]);
        self.images[id].rotation = (r + 4 - quarters % 4) % 4;
        proof {
            let w = rotation_written(m, id, quarters);
            lemma_rotated_valid(m.now, id, quarters);
            assert(self@.now.rotations =~= w.now.rotations);
            assert(self@.now.workspaces =~= m.now.workspaces);
            assert(self@.paths =~= m.paths);
            assert(self@.undo =~= w.undo);
            assert(self@.redo =~= w.redo);
            assert(self@ =~= w);
            assert forall|i: int| 0 <= i < w.undo.len() implies valid_state(#[trigger] w.undo[i], n) by {
                lemma_rotated_valid(m.undo[i], id, quarters);
            }
            assert forall|i: int| 0 <= i < w.redo.len() implies valid_state(#[trigger] w.redo[i], n) by {
                lemma_rotated_valid(m.redo[i], id, quarters);
            }
        }
    }
}


/// What a well-formed session gives its callers: its state is valid (ten
/// views, images and selection in range), and undo and redo together keep
/// at most `UNDO_DEPTH` states, each valid.
pub proof fn sessions_stay_valid(s: &Session)
    requires
        s.wf(),
    ensures
        valid_state(s@.now, s@.paths.len()),
        s@.now.views.len() == 10,
        s@.now.workspaces.len() <= usize::MAX,
        s@.undo.len() + s@.redo.len() <= UNDO_DEPTH,
        forall|i: int| 0 <= i < s@.undo.len() ==> valid_state(#[trigger] s@.undo[i], s@.paths.len()),
        forall|i: int| 0 <= i < s@.redo.len() ==> valid_state(#[trigger] s@.redo[i], s@.paths.len()),
{
}

} // verus!
