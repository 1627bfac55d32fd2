//! The drag controller: the pending/active drag lifecycle, the frozen
//! carried set, the drop commit, and the per-frame animation step.

use vstd::prelude::*;

use crate::model::{
    active_drag, apply_clicks, carried_now, has_id, ids_contain, index_of, is_header, unique_ids,
    with_drag_y, with_list_y, with_selected, DndDemo, DragState, Element, ElementContents,
    InputEvent, Pos, ACTIVATION_THRESHOLD, ITEM_HEIGHT,
};
use crate::slew::{in_range, SlewPair, MAX_DT};

verus! {

/// The dragged item exists and is itself selected, so the drag carries its
/// whole selection group.
pub open spec fn dragged_selected(elems: Seq<Element>, dragged_id: u64) -> bool {
    has_id(elems, dragged_id) && elems[index_of(elems, dragged_id)].is_selected
}

/// An item belongs to the carried set frozen at drag start: the grabbed
/// item always; the other selected items only when the grabbed item is
/// itself selected; headers never.
pub open spec fn start_carried(elems: Seq<Element>, dragged_id: u64, e: Element) -> bool {
    &&& !is_header(e)
    &&& (e.id == dragged_id || (e.is_selected && dragged_selected(elems, dragged_id)))
}

/// Identities of the items carried by a drag grabbing `dragged_id`, in
/// storage order, among the first `n` items.
pub open spec fn carried_ids_upto(elems: Seq<Element>, dragged_id: u64, n: int) -> Seq<u64>
    decreases n,
{
    if n <= 0 {
        Seq::empty()
    } else {
        let rest = carried_ids_upto(elems, dragged_id, n - 1);
        if start_carried(elems, dragged_id, elems[n - 1]) {
            rest.push(elems[n - 1].id)
        } else {
            rest
        }
    }
}

/// Identities of all items the drag would carry, in storage order.
pub open spec fn carried_ids(elems: Seq<Element>, dragged_id: u64) -> Seq<u64> {
    carried_ids_upto(elems, dragged_id, elems.len() as int)
}

/// The carried prefix count never exceeds the number of items counted.
pub proof fn lemma_carried_ids_bounds(elems: Seq<Element>, dragged_id: u64, n: int)
    ensures
        carried_ids_upto(elems, dragged_id, n).len() <= (if n <= 0 {
            0int
        } else {
            n
        }),
    decreases n,
{
    if n > 0 {
        lemma_carried_ids_bounds(elems, dragged_id, n - 1);
    }
}

/// An element the commit moves to the split point: a non-header item whose
/// identity the drag carried.
pub open spec fn commit_carried(carried: Seq<u64>, e: Element) -> bool {
    !is_header(e) && carried.contains(e.id)
}

/// The elements of `elems` that stay in place on commit, in storage order.
pub open spec fn kept(elems: Seq<Element>, carried: Seq<u64>) -> Seq<Element> {
    elems.filter(|e: Element| !commit_carried(carried, e))
}

/// The elements of `elems` the commit moves, in storage order.
pub open spec fn moved(elems: Seq<Element>, carried: Seq<u64>) -> Seq<Element> {
    elems.filter(|e: Element| commit_carried(carried, e))
}

/// The storage order after a drop at `sp`: a stable three-way partition —
/// the non-carried items that stood before the split, then every carried
/// item in its original relative order, then the non-carried items from
/// the split onward.
pub open spec fn commit_order(elems: Seq<Element>, carried: Seq<u64>, sp: int) -> Seq<Element> {
    kept(elems.take(sp), carried) + moved(elems, carried) + kept(elems.skip(sp), carried)
}

/// Every selection flag cleared; a completed drag consumes the selection.
pub open spec fn clear_selection(elems: Seq<Element>) -> Seq<Element> {
    Seq::new(elems.len(), |i: int| with_selected(elems[i], false))
}

/// The whole effect of a commit on the stored items.
pub open spec fn commit_spec(elems: Seq<Element>, carried: Seq<u64>, sp: int) -> Seq<Element> {
    clear_selection(commit_order(elems, carried, sp))
}

/// A filtered sequence is no longer than its source, keeps only elements
/// satisfying the predicate, draws every element from the source, and
/// preserves uniqueness of identities.
proof fn lemma_filter_props(s: Seq<Element>, p: spec_fn(Element) -> bool)
    ensures
        s.filter(p).len() <= s.len(),
        forall|k: int| 0 <= k < s.filter(p).len() ==> p(#[trigger] s.filter(p)[k]),
        forall|k: int|
            0 <= k < s.filter(p).len() ==> exists|j: int|
                0 <= j < s.len() && s[j] == #[trigger] s.filter(p)[k],
        unique_ids(s) ==> unique_ids(s.filter(p)),
    decreases s.len(),
{
    reveal(Seq::filter);
    if s.len() > 0 {
        let t = s.drop_last();
        lemma_filter_props(t, p);
        assert forall|k: int|
            0 <= k < s.filter(p).len() implies p(#[trigger] s.filter(p)[k]) && exists|j: int|
            0 <= j < s.len() && s[j] == s.filter(p)[k] by {
            if k < t.filter(p).len() {
                assert(s.filter(p)[k] == t.filter(p)[k]);
                let j = choose|j: int| 0 <= j < t.len() && t[j] == t.filter(p)[k];
                assert(s[j] == s.filter(p)[k]);
            } else {
                assert(s.filter(p)[k] == s.last());
                assert(s[s.len() - 1] == s.filter(p)[k]);
            }
        }
        if unique_ids(s) {
            assert(unique_ids(t));
            assert forall|i: int, j: int|
                0 <= i < j < s.filter(p).len() implies (#[trigger] s.filter(p)[i]).id != (
            #[trigger] s.filter(p)[j]).id by {
                if j < t.filter(p).len() {
                    assert(t.filter(p)[i] == s.filter(p)[i] && t.filter(p)[j] == s.filter(p)[j]);
                } else {
                    // The last slot holds `s.last()`; the earlier slot holds a
                    // value drawn from `t`, whose identities all differ from it.
                    assert(s.filter(p)[j] == s.last());
                    assert(t.filter(p)[i] == s.filter(p)[i]);
                    let j0 = choose|j0: int| 0 <= j0 < t.len() && t[j0] == t.filter(p)[i];
                    assert(s[j0] == s.filter(p)[i]);
                    assert(s[j0].id != s[s.len() - 1].id);
                }
            }
        }
    }
}

/// The kept and moved elements together account for every element once.
proof fn lemma_filter_partition_len(s: Seq<Element>, carried: Seq<u64>)
    ensures
        kept(s, carried).len() + moved(s, carried).len() == s.len(),
    decreases s.len(),
{
    reveal(Seq::filter);
    if s.len() > 0 {
        lemma_filter_partition_len(s.drop_last(), carried);
    }
}

/// A filter that accepts the first element keeps it first.
proof fn lemma_filter_first(s: Seq<Element>, p: spec_fn(Element) -> bool)
    requires
        s.len() > 0,
        p(s[0]),
    ensures
        s.filter(p).len() > 0,
        s.filter(p)[0] == s[0],
    decreases s.len(),
{
    reveal(Seq::filter);
    if s.len() == 1 {
        assert(s.drop_last() =~= Seq::<Element>::empty());
        assert(s.last() == s[0]);
    } else {
        let t = s.drop_last();
        assert(t[0] == s[0]);
        lemma_filter_first(t, p);
    }
}

/// With nothing carried the commit is the identity reorder: every item
/// keeps its place (only the selection is consumed).
pub proof fn lemma_commit_empty(elems: Seq<Element>, sp: int)
    requires
        0 <= sp <= elems.len(),
    ensures
        commit_order(elems, Seq::empty(), sp) == elems,
    decreases elems.len(),
{
    lemma_commit_trivial(elems.take(sp));
    lemma_commit_trivial(elems.skip(sp));
    lemma_commit_trivial(elems);
    assert(commit_order(elems, Seq::empty(), sp) =~= elems);
}

/// Filtering against an empty carried set keeps everything and moves
/// nothing.
proof fn lemma_commit_trivial(s: Seq<Element>)
    ensures
        kept(s, Seq::empty()) == s,
        moved(s, Seq::empty()) == Seq::<Element>::empty(),
    decreases s.len(),
{
    reveal(Seq::filter);
    if s.len() > 0 {
        lemma_commit_trivial(s.drop_last());
        assert(kept(s, Seq::empty()) =~= s);
    }
}

/// The committed order is a permutation-shaped rearrangement: same length,
/// every slot filled from the original storage, identities still unique,
/// and the reserved header anchor still first whenever the split point
/// spares it.
pub proof fn lemma_commit_order_wf(elems: Seq<Element>, carried: Seq<u64>, sp: int)
    requires
        0 <= sp <= elems.len(),
        unique_ids(elems),
    ensures
        commit_order(elems, carried, sp).len() == elems.len(),
        unique_ids(commit_order(elems, carried, sp)),
        forall|k: int|
            0 <= k < elems.len() ==> exists|j: int|
                0 <= j < elems.len() && elems[j] == #[trigger] commit_order(elems, carried, sp)[k],
        sp >= 1 && elems.len() > 0 && is_header(elems[0]) ==> commit_order(elems, carried, sp)[0]
            == elems[0],
{
    let co = commit_order(elems, carried, sp);
    let notc = |e: Element| !commit_carried(carried, e);
    let isc = |e: Element| commit_carried(carried, e);
    let pre = elems.take(sp);
    let post = elems.skip(sp);
    let a = kept(pre, carried);
    let b = moved(elems, carried);
    let c = kept(post, carried);
    lemma_filter_props(pre, notc);
    lemma_filter_props(post, notc);
    lemma_filter_props(elems, isc);
    assert(unique_ids(pre));
    assert(unique_ids(post));

    // Length: the two kept parts together are the kept elements of the
    // whole list, and kept plus moved is everything.
    assert(pre + post =~= elems);
    Seq::filter_distributes_over_add(pre, post, notc);
    assert(kept(pre + post, carried) == kept(pre, carried) + kept(post, carried));
    lemma_filter_partition_len(elems, carried);
    assert(co.len() == elems.len());

    // Each slot of each part is drawn from the original storage.
    assert forall|k: int| 0 <= k < elems.len() implies exists|j: int|
        0 <= j < elems.len() && elems[j] == #[trigger] co[k] by {
        if k < a.len() {
            assert(co[k] == a[k]);
            let j = choose|j: int| 0 <= j < pre.len() && pre[j] == a[k];
            assert(elems[j] == co[k]);
        } else if k < a.len() + b.len() {
            assert(co[k] == b[k - a.len()]);
            let j = choose|j: int| 0 <= j < elems.len() && elems[j] == b[k - a.len()];
            assert(elems[j] == co[k]);
        } else {
            assert(co[k] == c[k - a.len() - b.len()]);
            let j = choose|j: int| 0 <= j < post.len() && post[j] == c[k - a.len() - b.len()];
            assert(elems[sp + j] == co[k]);
        }
    }

    // Unique identities: within each part by the filter lemma; across
    // parts because the two kept parts come from disjoint index ranges and
    // the moved part satisfies the opposite predicate.
    assert forall|i: int, j: int| 0 <= i < j < co.len() implies (#[trigger] co[i]).id != (
    #[trigger] co[j]).id by {
        let x = co[i];
        let y = co[j];
        if i < a.len() && j < a.len() {
            assert(x == a[i] && y == a[j]);
            assert(a[i].id != a[j].id);
        } else if a.len() <= i < a.len() + b.len() && a.len() <= j < a.len() + b.len() {
            assert(x == b[i - a.len()] && y == b[j - a.len()]);
            assert(b[i - a.len()].id != b[j - a.len()].id);
        } else if a.len() + b.len() <= i && a.len() + b.len() <= j {
            assert(x == c[i - a.len() - b.len()] && y == c[j - a.len() - b.len()]);
            assert(c[i - a.len() - b.len()].id != c[j - a.len() - b.len()].id);
        } else if x.id == y.id {
            // The slots lie in different parts; trace each back to its
            // original index. Distinct indices contradict the unique
            // identities of the source; a shared index makes one element
            // both kept and moved, or stand on both sides of the split.
            let gi = commit_part_source(elems, carried, sp, i);
            let gj = commit_part_source(elems, carried, sp, j);
            if i < a.len() {
                assert(0 <= gi < sp && elems[gi] == x);
                assert(notc(x));
            } else if i < a.len() + b.len() {
                assert(0 <= gi < elems.len() && elems[gi] == x);
                assert(isc(x));
            } else {
                assert(sp <= gi < elems.len() && elems[gi] == x);
                assert(notc(x));
            }
            if j < a.len() {
                assert(0 <= gj < sp && elems[gj] == y);
                assert(notc(y));
            } else if j < a.len() + b.len() {
                assert(0 <= gj < elems.len() && elems[gj] == y);
                assert(isc(y));
            } else {
                assert(sp <= gj < elems.len() && elems[gj] == y);
                assert(notc(y));
            }
            if gi == gj {
                assert(x == y);
            } else {
                assert(elems[gi].id != elems[gj].id);
            }
        }
    }

    if sp >= 1 && elems.len() > 0 && is_header(elems[0]) {
        assert(pre[0] == elems[0]);
        assert(notc(elems[0]));
        lemma_filter_first(pre, notc);
        assert(co[0] == a[0]);
    }
}

/// Filtering the kept elements distributes over appending one element.
proof fn lemma_kept_push(s: Seq<Element>, carried: Seq<u64>, x: Element)
    ensures
        kept(s.push(x), carried) == (if !commit_carried(carried, x) {
            kept(s, carried).push(x)
        } else {
            kept(s, carried)
        }),
{
    reveal(Seq::filter);
    assert(s.push(x).drop_last() =~= s);
}

/// Filtering the moved elements distributes over appending one element.
proof fn lemma_moved_push(s: Seq<Element>, carried: Seq<u64>, x: Element)
    ensures
        moved(s.push(x), carried) == (if commit_carried(carried, x) {
            moved(s, carried).push(x)
        } else {
            moved(s, carried)
        }),
{
    reveal(Seq::filter);
    assert(s.push(x).drop_last() =~= s);
}

/// Filtering the empty sequence yields the empty sequence.
proof fn lemma_filter_empty(carried: Seq<u64>)
    ensures
        kept(Seq::empty(), carried) == Seq::<Element>::empty(),
        moved(Seq::empty(), carried) == Seq::<Element>::empty(),
{
    reveal(Seq::filter);
}

/// Whether the commit moves this element: a non-header row whose identity
/// stands in the carried list.
fn elem_commit_carried(carried_ids: &Vec<u64>, e: &Element) -> (r: bool)
    ensures
        r == commit_carried(carried_ids@, *e),
{
    match &e.contents {
        ElementContents::Header(_) => false,
        ElementContents::Value(_) => ids_contain(carried_ids, e.id),
    }
}

/// The items with the grabbed item's floating offset pinned to zero, as
/// the animation step does before slewing while a drag floats; a stale
/// grabbed identity changes nothing.
pub open spec fn zero_dragged(elems: Seq<Element>, dragged_id: u64) -> Seq<Element> {
    if has_id(elems, dragged_id) {
        let d = index_of(elems, dragged_id);
        elems.update(
            d,
            with_drag_y(elems[d], SlewPair { current: 0i64, target: elems[d].drag_y.target }),
        )
    } else {
        elems
    }
}

/// One animation step on one item: a carried item slews its offset within
/// the floating stack, every other item slews its list position.
pub open spec fn animate_one(ds: Option<DragState>, dt: int, e: Element) -> Element {
    if carried_now(ds, e) {
        with_drag_y(
            e,
            SlewPair {
                current: crate::slew::slew_step(
                    e.drag_y.current as int,
                    e.drag_y.target as int,
                    dt,
                ) as i64,
                target: e.drag_y.target,
            },
        )
    } else {
        with_list_y(
            e,
            SlewPair {
                current: crate::slew::slew_step(
                    e.list_y.current as int,
                    e.list_y.target as int,
                    dt,
                ) as i64,
                target: e.list_y.target,
            },
        )
    }
}

/// The original index a committed slot was filled from (a helper `choose`
/// shared by the uniqueness argument above).
spec fn commit_part_source(elems: Seq<Element>, carried: Seq<u64>, sp: int, k: int) -> int {
    let a = kept(elems.take(sp), carried);
    let b = moved(elems, carried);
    let c = kept(elems.skip(sp), carried);
    if k < a.len() {
        choose|j: int| 0 <= j < elems.take(sp).len() && elems.take(sp)[j] == a[k]
    } else if k < a.len() + b.len() {
        choose|j: int| 0 <= j < elems.len() && elems[j] == b[k - a.len()]
    } else {
        sp + (choose|j: int|
            0 <= j < elems.skip(sp).len() && elems.skip(sp)[j] == c[k - a.len() - b.len()])
    }
}

impl DndDemo {
    /// Start a pending drag on the item with this identity: freeze the grab
    /// offset and the carried set, and give every carried item its initial
    /// offsets within the future floating stack, so the carried items slide
    /// together from their list positions into one compact stack. A header
    /// or a stale identity leaves the widget untouched.
    pub fn begin_drag(&mut self, mouse_pos: Pos, element_left_top: Pos, dragged_id: u64)
        requires
            old(self).wf(),
            in_range(mouse_pos.x as int),
            in_range(mouse_pos.y as int),
            in_range(element_left_top.x as int),
            in_range(element_left_top.y as int),
        ensures
            final(self).wf(),
            ({
                let elems = old(self).elements@;
                if has_id(elems, dragged_id) && !is_header(elems[index_of(elems, dragged_id)]) {
                    let d = index_of(elems, dragged_id);
                    &&& (final(self).drag_state matches Some(st) && {
                        &&& !st.activated
                        &&& st.start_pos == mouse_pos
                        &&& st.offset.x as int == element_left_top.x - mouse_pos.x
                        &&& st.offset.y as int == element_left_top.y - mouse_pos.y
                        &&& st.dragged_id == dragged_id
                        &&& st.carried@ == carried_ids(elems, dragged_id)
                    })
                    &&& final(self).elements@.len() == elems.len()
                    &&& forall|i: int|
                        0 <= i < elems.len() ==> #[trigger] final(self).elements@[i] == (
                        if start_carried(elems, dragged_id, elems[i]) {
                            with_drag_y(
                                elems[i],
                                SlewPair {
                                    current: ((i - d) * (ITEM_HEIGHT as int)) as i64,
                                    target: ((carried_ids_upto(elems, dragged_id, i).len()
                                        - carried_ids_upto(elems, dragged_id, d).len()) * (
                                    ITEM_HEIGHT as int)) as i64,
                                },
                            )
                        } else {
                            elems[i]
                        })
                } else {
                    *final(self) == *old(self)
                }
            }),
            final(self).drop_region_hovered == old(self).drop_region_hovered,
            final(self).split_point == old(self).split_point,
            final(self).next_id == old(self).next_id,
            final(self).last_few_clicks == old(self).last_few_clicks,
    {
        let ghost elems = self.elements@;
        let found = self.find_index(dragged_id);
        let d = match found {
            None => {
                return ;
            },
            Some(d) => d,
        };
        match &self.elements[d].contents {
            ElementContents::Header(_) => {
                return ;
            },
            ElementContents::Value(_) => {},
        }
        let dragged_sel = self.elements[d].is_selected;
        let len = self.elements.len();

        // Freeze the carried set: the grabbed item, plus every selected
        // item when the grabbed item is itself selected.
        let mut carried: Vec<u64> = Vec::new();
        let mut cbd: usize = 0;
        let mut i: usize = 0;
        while i < len
            invariant
                old(self).wf(),
                *self == *old(self),
                elems == self.elements@,
                len == elems.len(),
                d < len,
                elems[d as int].id == dragged_id,
                d as int == index_of(elems, dragged_id),
                dragged_sel == dragged_selected(elems, dragged_id),
                0 <= i <= len,
                carried@ == carried_ids_upto(elems, dragged_id, i as int),
                carried@.len() <= i,
                i <= d ==> cbd == 0,
                i > d ==> cbd as int == carried_ids_upto(elems, dragged_id, d as int).len(),
            decreases len - i,
        {
            if i == d {
                cbd = carried.len();
            }
            let e = &self.elements[i];
            let is_carried = match &e.contents {
                ElementContents::Header(_) => false,
                ElementContents::Value(_) => e.id == dragged_id || (e.is_selected && dragged_sel),
            };
            if is_carried {
                carried.push(e.id);
            }
            i += 1;
        }

        proof {
            lemma_carried_ids_bounds(elems, dragged_id, d as int);
        }

        // Initial offsets within the floating stack: each carried item
        // starts at its list position relative to the grabbed item and
        // heads for its slot in the compact stack.
        let mut cb: usize = 0;
        let mut j: usize = 0;
        while j < len
            invariant
                old(self).wf(),
                elems == old(self).elements@,
                len == elems.len(),
                d < len,
                elems[d as int].id == dragged_id,
                d as int == index_of(elems, dragged_id),
                dragged_sel == dragged_selected(elems, dragged_id),
                cbd as int == carried_ids_upto(elems, dragged_id, d as int).len(),
                cbd <= d,
                0 <= j <= len,
                cb as int == carried_ids_upto(elems, dragged_id, j as int).len(),
                cb <= j,
                self.elements@.len() == len,
                forall|k: int|
                    0 <= k < len ==> #[trigger] self.elements@[k] == (if k < j && start_carried(
                        elems,
                        dragged_id,
                        elems[k],
                    ) {
                        with_drag_y(
                            elems[k],
                            SlewPair {
                                current: ((k - d) * (ITEM_HEIGHT as int)) as i64,
                                target: ((carried_ids_upto(elems, dragged_id, k).len()
                                    - carried_ids_upto(elems, dragged_id, d as int).len()) * (
                                ITEM_HEIGHT as int)) as i64,
                            },
                        )
                    } else {
                        elems[k]
                    }),
                self.drag_state == old(self).drag_state,
                self.drop_region_hovered == old(self).drop_region_hovered,
                self.split_point == old(self).split_point,
                self.next_id == old(self).next_id,
                self.last_few_clicks == old(self).last_few_clicks,
            decreases len - j,
        {
            let e_ref = &self.elements[j];
            let is_carried = match &e_ref.contents {
                ElementContents::Header(_) => false,
                ElementContents::Value(_) => e_ref.id == dragged_id || (e_ref.is_selected
                    && dragged_sel),
            };
            if is_carried {
                let current: i64 = (j as i64 - d as i64) * ITEM_HEIGHT;
                let target: i64 = (cb as i64 - cbd as i64) * ITEM_HEIGHT;
                let mut e = self.elements.remove(j);
                e.drag_y = SlewPair { current, target };
                self.elements.insert(j, e);
                cb += 1;
            }
            j += 1;
        }

        self.drag_state = Some(
            DragState {
                activated: false,
                start_pos: mouse_pos,
                offset: Pos {
                    x: element_left_top.x - mouse_pos.x,
                    y: element_left_top.y - mouse_pos.y,
                },
                dragged_id,
                carried,
            },
        );
        proof {
            assert forall|k: int| 0 <= k < len implies 0 <= #[trigger] carried_ids_upto(
                elems,
                dragged_id,
                k,
            ).len() <= k by {
                lemma_carried_ids_bounds(elems, dragged_id, k);
            }
        }
    }

    /// Physically reorder the stored items for a drop at `split_point`:
    /// the stable three-way partition of `commit_spec`, after which every
    /// selection flag is cleared.
    pub fn commit_drag(&mut self, split_point: usize, carried_ids: &Vec<u64>)
        requires
            old(self).wf(),
            1 <= split_point <= old(self).elements@.len(),
        ensures
            final(self).wf(),
            final(self).elements@ == commit_spec(
                old(self).elements@,
                carried_ids@,
                split_point as int,
            ),
            final(self).elements@.len() == old(self).elements@.len(),
            final(self).drag_state == old(self).drag_state,
            final(self).drop_region_hovered == old(self).drop_region_hovered,
            final(self).split_point == old(self).split_point,
            final(self).next_id == old(self).next_id,
            final(self).last_few_clicks == old(self).last_few_clicks,
    {
        let ghost orig = self.elements@;
        let ghost carried = carried_ids@;
        let mut rest: Vec<Element> = Vec::new();
        core::mem::swap(&mut rest, &mut self.elements);
        let len = rest.len();
        let mut before: Vec<Element> = Vec::new();
        let mut mid: Vec<Element> = Vec::new();
        let mut after: Vec<Element> = Vec::new();
        proof {
            lemma_filter_empty(carried);
            assert(orig.take(0) =~= Seq::<Element>::empty());
            assert(orig.subrange(split_point as int, split_point as int) =~= Seq::<
                Element,
            >::empty());
        }
        let mut i: usize = 0;
        while i < len
            invariant
                len == orig.len(),
                0 <= i <= len,
                rest@ == orig.skip(i as int),
                1 <= split_point <= len,
                carried == carried_ids@,
                before@ == kept(
                    orig.take(
                        if i <= split_point {
                            i as int
                        } else {
                            split_point as int
                        },
                    ),
                    carried,
                ),
                mid@ == moved(orig.take(i as int), carried),
                after@ == (if i <= split_point {
                    Seq::<Element>::empty()
                } else {
                    kept(orig.subrange(split_point as int, i as int), carried)
                }),
            decreases len - i,
        {
            let e = rest.remove(0);
            proof {
                assert(orig.skip(i as int)[0] == orig[i as int]);
                assert(orig.skip(i as int).remove(0) =~= orig.skip(i as int + 1));
                assert(orig.take(i as int + 1) =~= orig.take(i as int).push(orig[i as int]));
                lemma_kept_push(orig.take(i as int), carried, orig[i as int]);
                lemma_moved_push(orig.take(i as int), carried, orig[i as int]);
                if i >= split_point {
                    assert(orig.subrange(split_point as int, i as int + 1) =~= orig.subrange(
                        split_point as int,
                        i as int,
                    ).push(orig[i as int]));
                    lemma_kept_push(
                        orig.subrange(split_point as int, i as int),
                        carried,
                        orig[i as int],
                    );
                }
            }
            let is_moved = elem_commit_carried(carried_ids, &e);
            if is_moved {
                mid.push(e);
            } else if i < split_point {
                before.push(e);
            } else {
                after.push(e);
            }
            i += 1;
        }
        before.append(&mut mid);
        before.append(&mut after);
        proof {
            assert(orig.take(len as int) =~= orig);
            if len == split_point {
                assert(orig.skip(split_point as int) =~= Seq::<Element>::empty());
                lemma_filter_empty(carried);
            } else {
                assert(orig.subrange(split_point as int, len as int) =~= orig.skip(
                    split_point as int,
                ));
            }
            assert(before@ == commit_order(orig, carried, split_point as int));
        }
        let ghost co = commit_order(orig, carried, split_point as int);
        let total = before.len();
        let mut cleared: Vec<Element> = Vec::new();
        let mut k: usize = 0;
        while k < total
            invariant
                total == co.len(),
                0 <= k <= total,
                before@ == co.skip(k as int),
                cleared@.len() == k,
                forall|m: int| 0 <= m < k ==> cleared@[m] == with_selected(co[m], false),
            decreases total - k,
        {
            let mut e = before.remove(0);
            proof {
                assert(co.skip(k as int)[0] == co[k as int]);
                assert(co.skip(k as int).remove(0) =~= co.skip(k as int + 1));
            }
            e.is_selected = false;
            cleared.push(e);
            k += 1;
        }
        self.elements = cleared;
        proof {
            assert(self.elements@ =~= commit_spec(orig, carried, split_point as int));
            lemma_commit_order_wf(orig, carried, split_point as int);
            let cs = self.elements@;
            assert forall|m: int| 0 <= m < cs.len() implies !(#[trigger] cs[m]).is_selected
                && cs[m].id == co[m].id && cs[m].list_y == co[m].list_y && cs[m].drag_y
                == co[m].drag_y && is_header(cs[m]) == is_header(co[m]) by {}
            assert forall|m: int| 0 <= m < co.len() implies (#[trigger] co[m]).id
                < old(self).next_id && co[m].list_y.wf() && co[m].drag_y.wf() by {
                let j = choose|j: int| 0 <= j < orig.len() && orig[j] == co[m];
                assert(orig[j].id < old(self).next_id);
            }
            assert(unique_ids(cs));
            assert(is_header(cs[0]));
        }
    }

    /// End the drag: an activated drag commits the reorder at the current
    /// split point with its frozen carried set; a drag released before
    /// activation commits nothing but still consumes the selection, like a
    /// deselecting click. Either way the drag state is discarded.
    pub fn clear_drag_state(&mut self)
        requires
            old(self).wf(),
        ensures
            final(self).wf(),
            final(self).drag_state is None,
            final(self).elements@.len() == old(self).elements@.len(),
            match old(self).drag_state {
                None => *final(self) == *old(self),
                Some(st) => {
                    &&& final(self).elements@ == commit_spec(
                        old(self).elements@,
                        if st.activated {
                            st.carried@
                        } else {
                            Seq::empty()
                        },
                        old(self).split_point as int,
                    )
                    &&& final(self).drop_region_hovered == old(self).drop_region_hovered
                    &&& final(self).split_point == old(self).split_point
                    &&& final(self).next_id == old(self).next_id
                    &&& final(self).last_few_clicks == old(self).last_few_clicks
                },
            },
    {
        let mut ds: Option<DragState> = None;
        core::mem::swap(&mut ds, &mut self.drag_state);
        match ds {
            None => {},
            Some(st) => {
                let sp = self.split_point;
                if st.activated {
                    self.commit_drag(sp, &st.carried);
                } else {
                    let empty: Vec<u64> = Vec::new();
                    self.commit_drag(sp, &empty);
                }
            },
        }
    }

    /// One animation step while a drag floats: the grabbed item's floating
    /// offset is pinned to zero, then every carried item slews its offset
    /// within the floating stack and every other item slews its list
    /// position. Without an active drag nothing moves (the static layout
    /// already snapped every position).
    pub fn animate_frame(&mut self, dt: i64)
        requires
            old(self).wf(),
            0 <= dt <= MAX_DT,
        ensures
            final(self).wf(),
            !active_drag(old(self).drag_state) ==> *final(self) == *old(self),
            active_drag(old(self).drag_state) ==> ({
                let st = old(self).drag_state->Some_0;
                let z = zero_dragged(old(self).elements@, st.dragged_id);
                &&& final(self).elements@.len() == old(self).elements@.len()
                &&& forall|i: int|
                    0 <= i < z.len() ==> #[trigger] final(self).elements@[i] == animate_one(
                        old(self).drag_state,
                        dt as int,
                        z[i],
                    )
                &&& final(self).drag_state == old(self).drag_state
                &&& final(self).drop_region_hovered == old(self).drop_region_hovered
                &&& final(self).split_point == old(self).split_point
                &&& final(self).next_id == old(self).next_id
                &&& final(self).last_few_clicks == old(self).last_few_clicks
            }),
    {
        let active = Self::have_active_drag(&self.drag_state);
        if !active {
            return ;
        }
        let dragged_id = match &self.drag_state {
            Some(st) => st.dragged_id,
            None => unreached(),
        };
        match self.find_index(dragged_id) {
            Some(d) => {
                let mut e = self.elements.remove(d);
                e.drag_y.current = 0;
                self.elements.insert(d, e);
                proof {
                    assert(self.elements@ =~= zero_dragged(old(self).elements@, dragged_id));
                }
            },
            None => {
                proof {
                    assert(self.elements@ =~= zero_dragged(old(self).elements@, dragged_id));
                }
            },
        }
        let ghost z = zero_dragged(old(self).elements@, dragged_id);
        let ghost ds = old(self).drag_state;
        let len = self.elements.len();
        let mut i: usize = 0;
        while i < len
            invariant
                0 <= i <= len,
                len == z.len(),
                0 <= dt <= MAX_DT,
                ds == old(self).drag_state,
                self.drag_state == ds,
                self.elements@.len() == len,
                forall|j: int| 0 <= j < len ==> (#[trigger] z[j]).list_y.wf() && z[j].drag_y.wf(),
                forall|j: int|
                    0 <= j < len ==> #[trigger] self.elements@[j] == (if j < i {
                        animate_one(ds, dt as int, z[j])
                    } else {
                        z[j]
                    }),
                self.drop_region_hovered == old(self).drop_region_hovered,
                self.split_point == old(self).split_point,
                self.next_id == old(self).next_id,
                self.last_few_clicks == old(self).last_few_clicks,
            decreases len - i,
        {
            let carried = Self::is_part_of_drag(&self.drag_state, &self.elements[i]);
            let mut e = self.elements.remove(i);
            if carried {
                e.drag_y.update(dt);
            } else {
                e.list_y.update(dt);
            }
            self.elements.insert(i, e);
            i += 1;
        }
        proof {
            let elems0 = old(self).elements@;
            assert forall|j: int| 0 <= j < len implies (#[trigger] self.elements@[j]).id
                == elems0[j].id && self.elements@[j].is_selected == elems0[j].is_selected
                && self.elements@[j].contents == elems0[j].contents && self.elements@[j].list_y.wf()
                && self.elements@[j].drag_y.wf() by {
                crate::slew::lemma_slew_step_between(
                    z[j].list_y.current as int,
                    z[j].list_y.target as int,
                    dt as int,
                );
                crate::slew::lemma_slew_step_between(
                    z[j].drag_y.current as int,
                    z[j].drag_y.target as int,
                    dt as int,
                );
            }
            assert(unique_ids(self.elements@));
            assert(is_header(self.elements@[0]) == is_header(elems0[0]));
        }
    }

    /// Advance the widget by one frame in the fixed order the model relies
    /// on: click processing first, then the drag-state transitions (host
    /// cancellation, drag starts, releases, activation), then layout (the
    /// split point and the gapped layout while a drag is active, the
    /// static layout otherwise), then the slew step. The host draws after
    /// this, reading positions and the carried query.
    pub fn frame(&mut self, dt: i64, mouse_pos: Pos, drag_in_progress: bool, events: &Vec<InputEvent>)
        requires
            old(self).wf(),
            0 <= dt <= MAX_DT,
            in_range(mouse_pos.x as int),
            in_range(mouse_pos.y as int),
            forall|k: int|
                0 <= k < events@.len() ==> (#[trigger] events@[k] matches InputEvent::DragStart {
                    left_top,
                    ..
                } ==> in_range(left_top.x as int) && in_range(left_top.y as int)),
        ensures
            final(self).wf(),
            final(self).elements@.len() == old(self).elements@.len(),
            final(self).next_id == old(self).next_id,
            final(self).drop_region_hovered == old(self).drop_region_hovered,
            // The click history is exactly the old one with the frame's
            // click events folded through, in order.
            final(self).last_few_clicks@ == apply_clicks(
                old(self).elements@,
                old(self).last_few_clicks@,
                events@,
                events@.len() as int,
            ).1,
            // A frame free of drag state and drag events applies its
            // clicks in order and snaps everything to the static layout.
            (old(self).drag_state is None && (forall|k: int|
                0 <= k < events@.len() ==> !((#[trigger] events@[k]) is DragStart) && !(
                events@[k] is DragRelease))) ==> final(self).elements@ == crate::model::static_layout(
                apply_clicks(
                    old(self).elements@,
                    old(self).last_few_clicks@,
                    events@,
                    events@.len() as int,
                ).0,
            ),
            // Without a drag gesture in progress and without a fresh
            // drag-start event, no drag survives the frame.
            ((old(self).drag_state is None || !drag_in_progress) && (forall|k: int|
                0 <= k < events@.len() ==> !((#[trigger] events@[k]) is DragStart))) ==> final(self).drag_state is None,
            // An event-free frame with the gesture still in progress only
            // animates: no identity, selection flag or content changes.
            (events@.len() == 0 && drag_in_progress) ==> (forall|i: int|
                0 <= i < old(self).elements@.len() ==> {
                    let e0 = old(self).elements@[i];
                    let e1 = #[trigger] final(self).elements@[i];
                    e1.id == e0.id && e1.is_selected == e0.is_selected && e1.contents
                        == e0.contents
                }),
            // With no drag active at the end of the frame, every item
            // stands exactly on the static layout: row `i` at `i` row
            // heights, displayed position snapped to the target.
            !active_drag(final(self).drag_state) ==> forall|i: int|
                0 <= i < final(self).elements@.len() ==> (#[trigger] final(self).elements@[i]).list_y == (SlewPair {
                    current: (i * (ITEM_HEIGHT as int)) as i64,
                    target: (i * (ITEM_HEIGHT as int)) as i64,
                }),
    {
        let ghost n0 = self.elements@.len();

        // Selection and click processing.
        let num_events = events.len();
        let mut k: usize = 0;
        while k < num_events
            invariant
                self.wf(),
                num_events == events@.len(),
                self.elements@.len() == n0,
                self.next_id == old(self).next_id,
                0 <= k <= num_events,
                self.drag_state == old(self).drag_state,
                self.drop_region_hovered == old(self).drop_region_hovered,
                self.split_point == old(self).split_point,
                (self.elements@, self.last_few_clicks@) == apply_clicks(
                    old(self).elements@,
                    old(self).last_few_clicks@,
                    events@,
                    k as int,
                ),
                num_events == 0 ==> *self == *old(self),
            decreases num_events - k,
        {
            match &events[k] {
                InputEvent::Click { item_id, ctrl_held, time } => {
                    proof {
                        assert(events@[k as int] is Click);
                    }
                    self.handle_click(*item_id, *ctrl_held, *time);
                },
                _ => {},
            }
            k += 1;
        }

        let ghost folded = apply_clicks(
            old(self).elements@,
            old(self).last_few_clicks@,
            events@,
            events@.len() as int,
        );

        // Drag-state transitions: host cancellation, starts, releases,
        // then the pending-to-active threshold test.
        if !drag_in_progress {
            self.clear_drag_state();
        }
        let mut k2: usize = 0;
        while k2 < num_events
            invariant
                self.wf(),
                num_events == events@.len(),
                self.elements@.len() == n0,
                self.next_id == old(self).next_id,
                in_range(mouse_pos.x as int),
                in_range(mouse_pos.y as int),
                forall|k: int|
                    0 <= k < events@.len() ==> (#[trigger] events@[k]
                        matches InputEvent::DragStart { left_top, .. } ==> in_range(
                        left_top.x as int,
                    ) && in_range(left_top.y as int)),
                ((old(self).drag_state is None || !drag_in_progress) && (forall|m: int|
                    0 <= m < events@.len() ==> !((#[trigger] events@[m]) is DragStart)))
                    ==> self.drag_state is None,
                self.drop_region_hovered == old(self).drop_region_hovered,
                self.last_few_clicks@ == folded.1,
                (old(self).drag_state is None && (forall|m: int|
                    0 <= m < events@.len() ==> !((#[trigger] events@[m]) is DragStart) && !(
                    events@[m] is DragRelease))) ==> (self.elements@ == folded.0
                    && self.drag_state is None),
                (num_events == 0 && drag_in_progress) ==> *self == *old(self),
            decreases num_events - k2,
        {
            match &events[k2] {
                InputEvent::DragStart { item_id, left_top } => {
                    proof {
                        assert(events@[k2 as int] is DragStart);
                    }
                    self.begin_drag(mouse_pos, *left_top, *item_id);
                },
                InputEvent::DragRelease => {
                    self.clear_drag_state();
                },
                InputEvent::Click { .. } => {},
            }
            k2 += 1;
        }
        self.update_activation(mouse_pos);
        let ghost pre_layout = *self;

        // Layout, then the slew step.
        if Self::have_active_drag(&self.drag_state) {
            self.update_split_point(mouse_pos.y);
            let cc = self.carried_count();
            let sp = self.split_point;
            self.layout_during_drag(sp, cc);
            self.animate_frame(dt);
        } else {
            self.layout_static();
            self.animate_frame(dt);
        }
        proof {
            if events@.len() == 0 && drag_in_progress {
                assert(pre_layout.elements@ == old(self).elements@);
                assert forall|i: int| 0 <= i < old(self).elements@.len() implies {
                    let e0 = old(self).elements@[i];
                    let e1 = #[trigger] self.elements@[i];
                    e1.id == e0.id && e1.is_selected == e0.is_selected && e1.contents
                        == e0.contents
                } by {}
            }
        }
    }

    /// Promote a pending drag to active once the pointer has travelled
    /// beyond the activation threshold from the drag-start position.
    /// Without a drag in progress, nothing changes.
    pub fn update_activation(&mut self, mouse_pos: Pos)
        requires
            old(self).wf(),
            in_range(mouse_pos.x as int),
            in_range(mouse_pos.y as int),
        ensures
            final(self).wf(),
            final(self).elements == old(self).elements,
            final(self).last_few_clicks == old(self).last_few_clicks,
            final(self).drop_region_hovered == old(self).drop_region_hovered,
            final(self).split_point == old(self).split_point,
            final(self).next_id == old(self).next_id,
            match old(self).drag_state {
                None => final(self).drag_state is None,
                Some(st) => final(self).drag_state matches Some(st2) && {
                    &&& st2.activated == (st.activated || {
                        let dx = mouse_pos.x - st.start_pos.x;
                        let dy = mouse_pos.y - st.start_pos.y;
                        dx * dx + dy * dy > (ACTIVATION_THRESHOLD as int) * (
                        ACTIVATION_THRESHOLD as int)
                    })
                    &&& st2.start_pos == st.start_pos
                    &&& st2.offset == st.offset
                    &&& st2.dragged_id == st.dragged_id
                    &&& st2.carried == st.carried
                },
            },
    {
        match &mut self.drag_state {
            None => {},
            Some(st) => {
                let dx: i64 = mouse_pos.x - st.start_pos.x;
                let dy: i64 = mouse_pos.y - st.start_pos.y;
                let travelled: bool = if dx > ACTIVATION_THRESHOLD || dx < -ACTIVATION_THRESHOLD
                    || dy > ACTIVATION_THRESHOLD || dy < -ACTIVATION_THRESHOLD {
                    proof {
                        assert(dx * dx + dy * dy > (ACTIVATION_THRESHOLD as int) * (
                        ACTIVATION_THRESHOLD as int)) by (nonlinear_arith)
                            requires
                                dx > ACTIVATION_THRESHOLD || dx < -ACTIVATION_THRESHOLD || dy
                                    > ACTIVATION_THRESHOLD || dy < -ACTIVATION_THRESHOLD,
                                ACTIVATION_THRESHOLD == 5,
                        ;
                    }
                    true
                } else {
                    proof {
                        assert(0 <= dx * dx <= 25 && 0 <= dy * dy <= 25) by (nonlinear_arith)
                            requires
                                -5 <= dx <= 5,
                                -5 <= dy <= 5,
                        ;
                    }
                    dx * dx + dy * dy > ACTIVATION_THRESHOLD * ACTIVATION_THRESHOLD
                };
                st.activated = st.activated || travelled;
            },
        }
    }
}

} // verus!
