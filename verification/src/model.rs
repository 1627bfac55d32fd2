//! The list model: item storage, selection state, click history, and the
//! per-frame layout of every item's target position.

use vstd::prelude::*;

use crate::slew::{in_range, SlewPair, MAX_COORD};

verus! {

/// Vertical space one row occupies.
pub const ITEM_HEIGHT: i64 = 22;

/// Pointer travel (in coordinate units) beyond which a pending drag becomes
/// active.
pub const ACTIVATION_THRESHOLD: i64 = 5;

/// Bound on the click-history ring; the oldest record is evicted first.
pub const MAX_CLICK_RECORDS: usize = 5;

/// Bound on how many items the model holds, so that every computed layout
/// position stays a storable coordinate.
pub const MAX_ELEMS: usize = 100_000;

/// A coordinate obtained as the difference of two storable coordinates.
pub open spec fn in_range2(v: int) -> bool {
    -2 * (MAX_COORD as int) <= v <= 2 * (MAX_COORD as int)
}

/// A two-dimensional position (or displacement) in coordinate units.
#[derive(Clone, Copy, PartialEq, Eq, Structural, Debug)]
pub struct Pos {
    pub x: i64,
    pub y: i64,
}

/// What a row shows: a section header with a label, or a value entry.
/// Headers are non-selectable, non-draggable anchors.
pub enum ElementContents {
    Value(i32),
    Header(String),
}

/// One row of the list.
pub struct Element {
    /// Process-unique identity; never reused, never derived from position.
    pub id: u64,
    /// Vertical position within the list: displayed and layout target.
    pub list_y: SlewPair,
    /// Offset within the floating stack while the item is carried by a drag.
    pub drag_y: SlewPair,
    /// Selection flag; meaningful only for value items.
    pub is_selected: bool,
    pub contents: ElementContents,
}

/// One remembered click, used to resolve range-selection chords.
pub struct ClickRecord {
    pub id: u64,
    pub index: usize,
    pub time: u64,
    pub ctrl_held: bool,
}

/// Transient drag bookkeeping; exists only between drag start and release.
pub struct DragState {
    /// True once pointer travel from `start_pos` exceeded the threshold.
    pub activated: bool,
    /// Pointer position at drag start.
    pub start_pos: Pos,
    /// Vector from the pointer to the grabbed item's top-left corner,
    /// frozen at drag start.
    pub offset: Pos,
    /// Identity of the grabbed item.
    pub dragged_id: u64,
    /// Identities of the items the drag carries, in storage order, frozen
    /// at drag start.
    pub carried: Vec<u64>,
}

/// A discrete input event the host hands to the model once per frame.
pub enum InputEvent {
    /// Primary click on the item with this identity.
    Click { item_id: u64, ctrl_held: bool, time: u64 },
    /// A drag gesture began on the item with this identity, whose top-left
    /// corner stood at `left_top`.
    DragStart { item_id: u64, left_top: Pos },
    /// The drag gesture was released.
    DragRelease,
}

/// The reorderable list widget: item storage plus the drag controller.
pub struct DndDemo {
    pub elements: Vec<Element>,
    pub drag_state: Option<DragState>,
    pub drop_region_hovered: bool,
    /// Index into storage above which dropped items would be inserted.
    pub split_point: usize,
    pub last_few_clicks: Vec<ClickRecord>,
    /// Next identity to hand out; larger than every stored identity.
    pub next_id: u64,
}

/// Whether a row is a section header.
pub open spec fn is_header(e: Element) -> bool {
    e.contents is Header
}

/// All stored identities are pairwise distinct.
pub open spec fn unique_ids(elems: Seq<Element>) -> bool {
    forall|i: int, j: int|
        0 <= i < j < elems.len() ==> (#[trigger] elems[i]).id != (#[trigger] elems[j]).id
}

/// Some stored element has this identity.
pub open spec fn has_id(elems: Seq<Element>, id: u64) -> bool {
    exists|i: int| 0 <= i < elems.len() && (#[trigger] elems[i]).id == id
}

/// The index holding this identity (unique when `unique_ids` holds).
pub open spec fn index_of(elems: Seq<Element>, id: u64) -> int {
    choose|i: int| 0 <= i < elems.len() && (#[trigger] elems[i]).id == id
}

/// The same element with its selection flag replaced.
pub open spec fn with_selected(e: Element, b: bool) -> Element {
    Element { id: e.id, list_y: e.list_y, drag_y: e.drag_y, is_selected: b, contents: e.contents }
}

/// The same element with its list position replaced.
pub open spec fn with_list_y(e: Element, p: SlewPair) -> Element {
    Element { id: e.id, list_y: p, drag_y: e.drag_y, is_selected: e.is_selected, contents: e.contents }
}

/// The same element with its carried-stack offset replaced.
pub open spec fn with_drag_y(e: Element, p: SlewPair) -> Element {
    Element { id: e.id, list_y: e.list_y, drag_y: p, is_selected: e.is_selected, contents: e.contents }
}

impl DndDemo {
    /// Invariants of the stored items: bounded count, unique identities
    /// below `next_id`, headers never selected, every animated coordinate
    /// storable, and the reserved header anchor at index 0.
    pub open spec fn wf_elements(self) -> bool {
        let elems = self.elements@;
        &&& elems.len() <= MAX_ELEMS
        &&& unique_ids(elems)
        &&& forall|i: int| 0 <= i < elems.len() ==> (#[trigger] elems[i]).id < self.next_id
        &&& forall|i: int| 0 <= i < elems.len() && is_header(#[trigger] elems[i]) ==> !elems[i].is_selected
        &&& forall|i: int| 0 <= i < elems.len() ==> (#[trigger] elems[i]).list_y.wf() && elems[i].drag_y.wf()
        &&& elems.len() > 0
        &&& is_header(elems[0])
    }

    /// Well-formedness of the whole widget state.
    pub open spec fn wf(self) -> bool {
        &&& self.wf_elements()
        &&& 1 <= self.split_point <= self.elements@.len()
        &&& self.last_few_clicks@.len() <= MAX_CLICK_RECORDS
        &&& match self.drag_state {
            Some(st) => {
                &&& in_range(st.start_pos.x as int)
                &&& in_range(st.start_pos.y as int)
                &&& in_range2(st.offset.x as int)
                &&& in_range2(st.offset.y as int)
            },
            None => true,
        }
    }

    /// Everything but the items and the click history is unchanged.
    pub open spec fn same_control_state(self, other: DndDemo) -> bool {
        &&& self.drag_state == other.drag_state
        &&& self.drop_region_hovered == other.drop_region_hovered
        &&& self.split_point == other.split_point
        &&& self.next_id == other.next_id
    }

    /// Find the storage index of an identity, or report that it is stale.
    pub fn find_index(&self, id: u64) -> (r: Option<usize>)
        requires
            self.wf(),
        ensures
            match r {
                Some(i) => {
                    &&& has_id(self.elements@, id)
                    &&& i < self.elements@.len()
                    &&& self.elements@[i as int].id == id
                    &&& i as int == index_of(self.elements@, id)
                },
                None => !has_id(self.elements@, id),
            },
    {
        let n = self.elements.len();
        let mut j: usize = 0;
        while j < n
            invariant
                self.wf(),
                n == self.elements@.len(),
                0 <= j <= n,
                forall|k: int| 0 <= k < j ==> (#[trigger] self.elements@[k]).id != id,
            decreases n - j,
        {
            if self.elements[j].id == id {
                proof {
                    let i0 = index_of(self.elements@, id);
                    assert(0 <= i0 < self.elements@.len() && self.elements@[i0].id == id);
                }
                return Some(j);
            }
            j += 1;
        }
        None
    }
}

/// A sequence with the selection flag set on every non-header row whose
/// index lies in the inclusive range `lo ..= hi`.
pub open spec fn select_range_spec(elems: Seq<Element>, lo: int, hi: int) -> Seq<Element> {
    Seq::new(
        elems.len(),
        |i: int|
            if lo <= i <= hi && !is_header(elems[i]) {
                with_selected(elems[i], true)
            } else {
                elems[i]
            },
    )
}

/// The items and the click history after the first `n` events' clicks are
/// applied in order (the other event kinds touch neither).
pub open spec fn apply_clicks(
    elems: Seq<Element>,
    clicks: Seq<ClickRecord>,
    events: Seq<InputEvent>,
    n: int,
) -> (Seq<Element>, Seq<ClickRecord>)
    decreases n,
{
    if n <= 0 {
        (elems, clicks)
    } else {
        let prev = apply_clicks(elems, clicks, events, n - 1);
        match events[n - 1] {
            InputEvent::Click { item_id, ctrl_held, time } => (
                click_elems(prev.0, prev.1, item_id, ctrl_held),
                click_records(prev.1, prev.0, item_id, ctrl_held, time),
            ),
            _ => prev,
        }
    }
}

/// Range selection is independent of the order of its endpoints: resolving
/// the rows of the two identities in either order yields the same inclusive
/// index range, so the same set of items ends selected.
pub proof fn lemma_select_range_order_independent(
    elems: Seq<Element>,
    anchor_id: u64,
    target_id: u64,
)
    requires
        has_id(elems, anchor_id),
        has_id(elems, target_id),
    ensures
        ({
            let a = index_of(elems, anchor_id);
            let b = index_of(elems, target_id);
            select_range_spec(
                elems,
                if a <= b {
                    a
                } else {
                    b
                },
                if a <= b {
                    b
                } else {
                    a
                },
            ) == select_range_spec(
                elems,
                if b <= a {
                    b
                } else {
                    a
                },
                if b <= a {
                    a
                } else {
                    b
                },
            )
        }),
{
}

impl DndDemo {
    /// Flip the selection flag of the non-header item with this identity.
    /// A header or a stale identity leaves the widget untouched.
    pub fn select_toggle(&mut self, item_id: u64)
        requires
            old(self).wf(),
        ensures
            final(self).wf(),
            ({
                let elems = old(self).elements@;
                if has_id(elems, item_id) && !is_header(elems[index_of(elems, item_id)]) {
                    final(self).elements@ == elems.update(
                        index_of(elems, item_id),
                        with_selected(
                            elems[index_of(elems, item_id)],
                            !elems[index_of(elems, item_id)].is_selected,
                        ),
                    )
                } else {
                    final(self).elements@ == elems
                }
            }),
            final(self).same_control_state(*old(self)),
            final(self).last_few_clicks == old(self).last_few_clicks,
    {
        let found = self.find_index(item_id);
        match found {
            None => {},
            Some(i) => {
                let mut e = self.elements.remove(i);
                match &e.contents {
                    ElementContents::Header(_) => {
                        self.elements.insert(i, e);
                        proof {
                            assert(self.elements@ =~= old(self).elements@);
                        }
                    },
                    ElementContents::Value(_) => {
                        e.is_selected = !e.is_selected;
                        self.elements.insert(i, e);
                        proof {
                            let elems = old(self).elements@;
                            assert(self.elements@ =~= elems.update(
                                i as int,
                                with_selected(elems[i as int], !elems[i as int].is_selected),
                            ));
                        }
                    },
                }
            },
        }
    }

    /// Set the selection flag on every non-header item between the rows
    /// holding the two identities, endpoints included, in either order.
    /// If either identity is stale, nothing is selected.
    pub fn select_range(&mut self, anchor_id: u64, target_id: u64)
        requires
            old(self).wf(),
        ensures
            final(self).wf(),
            ({
                let elems = old(self).elements@;
                if has_id(elems, anchor_id) && has_id(elems, target_id) {
                    let a = index_of(elems, anchor_id);
                    let b = index_of(elems, target_id);
                    final(self).elements@ == select_range_spec(
                        elems,
                        if a <= b { a } else { b },
                        if a <= b { b } else { a },
                    )
                } else {
                    final(self).elements@ == elems
                }
            }),
            final(self).same_control_state(*old(self)),
            final(self).last_few_clicks == old(self).last_few_clicks,
    {
        let fa = self.find_index(anchor_id);
        let fb = self.find_index(target_id);
        let (a, b) = match (fa, fb) {
            (Some(a), Some(b)) => (a, b),
            _ => {
                return ;
            },
        };
        let (lo, hi) = if a <= b {
            (a, b)
        } else {
            (b, a)
        };
        let ghost elems = self.elements@;
        let mut i: usize = lo;
        while i <= hi
            invariant
                old(self).wf(),
                elems == old(self).elements@,
                lo <= i <= hi + 1,
                hi < elems.len(),
                self.elements@.len() == elems.len(),
                forall|j: int|
                    0 <= j < elems.len() ==> #[trigger] self.elements@[j] == (if lo <= j < i
                        && !is_header(elems[j]) {
                        with_selected(elems[j], true)
                    } else {
                        elems[j]
                    }),
                self.drag_state == old(self).drag_state,
                self.drop_region_hovered == old(self).drop_region_hovered,
                self.split_point == old(self).split_point,
                self.next_id == old(self).next_id,
                self.last_few_clicks == old(self).last_few_clicks,
            decreases hi + 1 - i,
        {
            let mut e = self.elements.remove(i);
            match &e.contents {
                ElementContents::Header(_) => {},
                ElementContents::Value(_) => {
                    e.is_selected = true;
                },
            }
            self.elements.insert(i, e);
            proof {
                assert forall|j: int| 0 <= j < elems.len() implies #[trigger] self.elements@[j]
                    == (if lo <= j < i + 1 && !is_header(elems[j]) {
                    with_selected(elems[j], true)
                } else {
                    elems[j]
                }) by {}
            }
            i += 1;
        }
        proof {
            assert(self.elements@ =~= select_range_spec(elems, lo as int, hi as int));
        }
    }

    /// The initial demonstration list: two labelled sections of value rows,
    /// nothing selected, no drag in progress.
    pub fn new() -> (d: DndDemo)
        ensures
            d.wf(),
            d.elements@.len() == 9,
            forall|i: int| 0 <= i < 9 ==> (#[trigger] d.elements@[i]).id == i as u64,
            forall|i: int| 0 <= i < 9 ==> !(#[trigger] d.elements@[i]).is_selected,
            forall|i: int|
                0 <= i < 9 ==> (#[trigger] d.elements@[i]).list_y == (SlewPair {
                    current: 0i64,
                    target: 0i64,
                }) && d.elements@[i].drag_y == (SlewPair { current: 0i64, target: 0i64 }),
            (d.elements@[0].contents matches ElementContents::Header(s) && s@ == "Group A"@),
            d.elements@[1].contents == ElementContents::Value(1i32),
            d.elements@[2].contents == ElementContents::Value(2i32),
            d.elements@[3].contents == ElementContents::Value(3i32),
            (d.elements@[4].contents matches ElementContents::Header(s) && s@ == "Group B"@),
            d.elements@[5].contents == ElementContents::Value(4i32),
            d.elements@[6].contents == ElementContents::Value(5i32),
            d.elements@[7].contents == ElementContents::Value(6i32),
            d.elements@[8].contents == ElementContents::Value(7i32),
            d.drag_state is None,
            !d.drop_region_hovered,
            d.split_point == 1,
            d.last_few_clicks@.len() == 0,
            d.next_id == 9,
    {
        let mut counter: u64 = 0;
        let mut elements: Vec<Element> = Vec::new();
        elements.push(
            Element::from_value(
                ElementContents::Header(String::from_str("Group A")),
                &mut counter,
            ),
        );
        elements.push(Element::from_value(ElementContents::Value(1), &mut counter));
        elements.push(Element::from_value(ElementContents::Value(2), &mut counter));
        elements.push(Element::from_value(ElementContents::Value(3), &mut counter));
        elements.push(
            Element::from_value(
                ElementContents::Header(String::from_str("Group B")),
                &mut counter,
            ),
        );
        elements.push(Element::from_value(ElementContents::Value(4), &mut counter));
        elements.push(Element::from_value(ElementContents::Value(5), &mut counter));
        elements.push(Element::from_value(ElementContents::Value(6), &mut counter));
        elements.push(Element::from_value(ElementContents::Value(7), &mut counter));
        DndDemo {
            elements,
            drag_state: None,
            drop_region_hovered: false,
            split_point: 1,
            last_few_clicks: Vec::new(),
            next_id: counter,
        }
    }
}

/// A drag is in progress and has crossed the activation threshold.
pub open spec fn active_drag(ds: Option<DragState>) -> bool {
    ds matches Some(st) && st.activated
}

/// The element is part of the active drag's floating group: drags carry
/// only non-header items recorded in the frozen carried set, and only once
/// the drag is activated.
pub open spec fn carried_now(ds: Option<DragState>, e: Element) -> bool {
    match ds {
        Some(st) => st.activated && !is_header(e) && st.carried@.contains(e.id),
        None => false,
    }
}

/// How many of the first `n` elements the active drag carries.
pub open spec fn num_carried_upto(elems: Seq<Element>, ds: Option<DragState>, n: int) -> int
    decreases n,
{
    if n <= 0 {
        0
    } else {
        num_carried_upto(elems, ds, n - 1) + if carried_now(ds, elems[n - 1]) {
            1int
        } else {
            0int
        }
    }
}

/// The carried count never exceeds the number of elements counted.
pub proof fn lemma_num_carried_bounds(elems: Seq<Element>, ds: Option<DragState>, n: int)
    ensures
        0 <= num_carried_upto(elems, ds, n) <= (if n <= 0 {
            0int
        } else {
            n
        }),
    decreases n,
{
    if n > 0 {
        lemma_num_carried_bounds(elems, ds, n - 1);
    }
}

/// Every item's layout position in storage order: row `i` at `i` row
/// heights, displayed position snapped to the target.
pub open spec fn static_layout(elems: Seq<Element>) -> Seq<Element> {
    Seq::new(
        elems.len(),
        |i: int|
            with_list_y(
                elems[i],
                SlewPair {
                    current: (i * (ITEM_HEIGHT as int)) as i64,
                    target: (i * (ITEM_HEIGHT as int)) as i64,
                },
            ),
    )
}

/// Idempotence of the static layout: laying the items out twice in a row,
/// with no state change between, gives the same displayed and target
/// positions as laying them out once.
pub proof fn lemma_static_layout_idempotent(elems: Seq<Element>)
    ensures
        static_layout(static_layout(elems)) == static_layout(elems),
{
    assert(static_layout(static_layout(elems)) =~= static_layout(elems));
}

/// The layout target of non-carried row `i` while a drag is active: rows
/// stack in storage order, with a gap of `carried_count` row heights opened
/// at the split point.
pub open spec fn drag_target(
    elems: Seq<Element>,
    ds: Option<DragState>,
    split_point: int,
    carried_count: int,
    i: int,
) -> int {
    (ITEM_HEIGHT as int) * ((i - num_carried_upto(elems, ds, i)) + if i >= split_point {
        carried_count
    } else {
        0int
    })
}

/// The split point among the first `n` rows: one past the last non-carried
/// row whose displayed centre lies above the pointer, and never below the
/// reserved header anchor.
pub open spec fn split_spec_upto(
    elems: Seq<Element>,
    ds: Option<DragState>,
    mouse_y: int,
    n: int,
) -> int
    decreases n,
{
    if n <= 0 {
        1
    } else {
        if !carried_now(ds, elems[n - 1]) && mouse_y > elems[n - 1].list_y.current
            + (ITEM_HEIGHT as int) / 2 {
            n
        } else {
            split_spec_upto(elems, ds, mouse_y, n - 1)
        }
    }
}

/// The split point over the whole list.
pub open spec fn split_spec(elems: Seq<Element>, ds: Option<DragState>, mouse_y: int) -> int {
    split_spec_upto(elems, ds, mouse_y, elems.len() as int)
}

/// Membership test on a carried-identity list.
pub(crate) fn ids_contain(ids: &Vec<u64>, id: u64) -> (r: bool)
    ensures
        r == ids@.contains(id),
{
    let n = ids.len();
    let mut j: usize = 0;
    while j < n
        invariant
            n == ids@.len(),
            0 <= j <= n,
            forall|k: int| 0 <= k < j ==> ids@[k] != id,
        decreases n - j,
    {
        if ids[j] == id {
            return true;
        }
        j += 1;
    }
    false
}

impl DndDemo {
    /// Whether the drag state holds an activated drag.
    pub fn have_active_drag(drag_state: &Option<DragState>) -> (r: bool)
        ensures
            r == active_drag(*drag_state),
    {
        match drag_state {
            Some(st) => st.activated,
            None => false,
        }
    }

    /// Whether an element is carried by the activated drag.
    pub fn is_part_of_drag(drag_state: &Option<DragState>, element: &Element) -> (r: bool)
        ensures
            r == carried_now(*drag_state, *element),
    {
        match &element.contents {
            ElementContents::Header(_) => false,
            ElementContents::Value(_) => match drag_state {
                Some(st) => st.activated && ids_contain(&st.carried, element.id),
                None => false,
            },
        }
    }

    /// How many elements the activated drag carries.
    pub fn carried_count(&self) -> (n: usize)
        requires
            self.wf(),
        ensures
            n as int == num_carried_upto(
                self.elements@,
                self.drag_state,
                self.elements@.len() as int,
            ),
            n <= self.elements@.len(),
    {
        let len = self.elements.len();
        let mut n: usize = 0;
        let mut i: usize = 0;
        while i < len
            invariant
                self.wf(),
                len == self.elements@.len(),
                0 <= i <= len,
                n <= i,
                n as int == num_carried_upto(self.elements@, self.drag_state, i as int),
            decreases len - i,
        {
            if Self::is_part_of_drag(&self.drag_state, &self.elements[i]) {
                n += 1;
            }
            i += 1;
        }
        n
    }

    /// Lay every item out in storage order with no gap, snapping displayed
    /// positions to their targets. Runs when no drag is active.
    pub fn layout_static(&mut self)
        requires
            old(self).wf(),
        ensures
            final(self).wf(),
            final(self).elements@ == static_layout(old(self).elements@),
            final(self).same_control_state(*old(self)),
            final(self).last_few_clicks == old(self).last_few_clicks,
    {
        let ghost elems = self.elements@;
        let len = self.elements.len();
        let mut y: i64 = 0;
        let mut i: usize = 0;
        while i < len
            invariant
                old(self).wf(),
                elems == old(self).elements@,
                len == elems.len(),
                0 <= i <= len,
                y as int == i * (ITEM_HEIGHT as int),
                self.elements@.len() == len,
                forall|j: int|
                    0 <= j < len ==> #[trigger] self.elements@[j] == (if j < i {
                        static_layout(elems)[j]
                    } else {
                        elems[j]
                    }),
                self.drag_state == old(self).drag_state,
                self.drop_region_hovered == old(self).drop_region_hovered,
                self.split_point == old(self).split_point,
                self.next_id == old(self).next_id,
                self.last_few_clicks == old(self).last_few_clicks,
            decreases len - i,
        {
            let mut e = self.elements.remove(i);
            e.list_y = SlewPair { current: y, target: y };
            self.elements.insert(i, e);
            y += ITEM_HEIGHT;
            i += 1;
        }
        proof {
            assert(self.elements@ =~= static_layout(elems));
        }
    }

    /// Recompute the split point from the pointer's vertical position and
    /// the currently displayed (slewed) row positions.
    pub fn update_split_point(&mut self, mouse_y: i64)
        requires
            old(self).wf(),
            in_range(mouse_y as int),
        ensures
            final(self).wf(),
            final(self).split_point as int == split_spec(
                old(self).elements@,
                old(self).drag_state,
                mouse_y as int,
            ),
            *final(self) == (DndDemo { split_point: final(self).split_point, ..*old(self) }),
    {
        let len = self.elements.len();
        let mut sp: usize = 1;
        let mut i: usize = 0;
        while i < len
            invariant
                self.wf(),
                len == self.elements@.len(),
                0 <= i <= len,
                1 <= sp,
                sp <= (if i == 0 {
                    1
                } else {
                    i
                }),
                sp as int == split_spec_upto(self.elements@, self.drag_state, mouse_y as int, i as int),
            decreases len - i,
        {
            let carried = Self::is_part_of_drag(&self.drag_state, &self.elements[i]);
            if !carried && mouse_y > self.elements[i].list_y.current + ITEM_HEIGHT / 2 {
                sp = i + 1;
            }
            i += 1;
        }
        self.split_point = sp;
    }

    /// Lay out the non-carried items while a drag is active, leaving a gap
    /// of `carried_count` row heights at the split point. Carried items are
    /// untouched; they are positioned by the floating stack instead.
    /// Displayed positions keep slewing from where they were.
    pub fn layout_during_drag(&mut self, split_point: usize, carried_count: usize)
        requires
            old(self).wf(),
            split_point <= old(self).elements@.len(),
            carried_count <= MAX_ELEMS,
        ensures
            final(self).wf(),
            final(self).elements@.len() == old(self).elements@.len(),
            forall|i: int|
                0 <= i < old(self).elements@.len() ==> #[trigger] final(self).elements@[i] == (if carried_now(
                    old(self).drag_state,
                    old(self).elements@[i],
                ) {
                    old(self).elements@[i]
                } else {
                    with_list_y(
                        old(self).elements@[i],
                        SlewPair {
                            current: old(self).elements@[i].list_y.current,
                            target: drag_target(
                                old(self).elements@,
                                old(self).drag_state,
                                split_point as int,
                                carried_count as int,
                                i,
                            ) as i64,
                        },
                    )
                }),
            final(self).same_control_state(*old(self)),
            final(self).last_few_clicks == old(self).last_few_clicks,
    {
        let ghost elems = self.elements@;
        let ghost ds = self.drag_state;
        let len = self.elements.len();
        let mut y: i64 = 0;
        let mut nc: usize = 0;
        let mut i: usize = 0;
        while i < len
            invariant
                old(self).wf(),
                elems == old(self).elements@,
                ds == old(self).drag_state,
                len == elems.len(),
                split_point <= len,
                carried_count <= MAX_ELEMS,
                0 <= i <= len,
                nc as int == i - num_carried_upto(elems, ds, i as int),
                nc <= i,
                y as int == (ITEM_HEIGHT as int) * (nc + if i > split_point {
                    carried_count as int
                } else {
                    0int
                }),
                self.elements@.len() == len,
                forall|j: int|
                    0 <= j < len ==> #[trigger] self.elements@[j] == (if j < i && !carried_now(
                        ds,
                        elems[j],
                    ) {
                        with_list_y(
                            elems[j],
                            SlewPair {
                                current: elems[j].list_y.current,
                                target: drag_target(
                                    elems,
                                    ds,
                                    split_point as int,
                                    carried_count as int,
                                    j,
                                ) as i64,
                            },
                        )
                    } else {
                        elems[j]
                    }),
                self.drag_state == old(self).drag_state,
                self.drop_region_hovered == old(self).drop_region_hovered,
                self.split_point == old(self).split_point,
                self.next_id == old(self).next_id,
                self.last_few_clicks == old(self).last_few_clicks,
            decreases len - i,
        {
            proof {
                lemma_num_carried_bounds(elems, ds, i as int);
            }
            if i == split_point {
                y += ITEM_HEIGHT * (carried_count as i64);
            }
            let carried = Self::is_part_of_drag(&self.drag_state, &self.elements[i]);
            if !carried {
                let mut e = self.elements.remove(i);
                e.list_y.target = y;
                self.elements.insert(i, e);
                y += ITEM_HEIGHT;
                nc += 1;
            }
            i += 1;
        }
        proof {
            assert forall|j: int| 0 <= j < len implies 0 <= #[trigger] num_carried_upto(
                elems,
                ds,
                j,
            ) <= j by {
                lemma_num_carried_bounds(elems, ds, j);
            }
        }
    }

    /// Where a carried item is drawn while the drag floats: the pointer
    /// plus the frozen grab offset, plus the item's slewed offset within
    /// the floating stack.
    pub fn floating_position(&self, mouse_pos: Pos, index: usize) -> (p: Pos)
        requires
            self.wf(),
            self.drag_state is Some,
            index < self.elements@.len(),
            in_range(mouse_pos.x as int),
            in_range(mouse_pos.y as int),
        ensures
            ({
                let st = self.drag_state->Some_0;
                &&& p.x as int == mouse_pos.x + st.offset.x
                &&& p.y as int == mouse_pos.y + st.offset.y + self.elements@[index as int].drag_y.current
            }),
    {
        let st = match &self.drag_state {
            Some(st) => st,
            None => unreached(),
        };
        Pos {
            x: mouse_pos.x + st.offset.x,
            y: mouse_pos.y + st.offset.y + self.elements[index].drag_y.current,
        }
    }
}

/// Two sequences of the same length whose rows carry the same identities
/// agree on `has_id` and, under unique identities, on `index_of`.
pub proof fn lemma_index_of_same(s1: Seq<Element>, s2: Seq<Element>, id: u64)
    requires
        s1.len() == s2.len(),
        forall|i: int| 0 <= i < s1.len() ==> (#[trigger] s1[i]).id == (#[trigger] s2[i]).id,
        unique_ids(s1),
        has_id(s1, id),
    ensures
        has_id(s2, id),
        index_of(s2, id) == index_of(s1, id),
{
    let i1 = index_of(s1, id);
    assert(0 <= i1 < s1.len() && s1[i1].id == id);
    assert(s2[i1].id == id);
    assert(has_id(s2, id));
    let i2 = index_of(s2, id);
    assert(0 <= i2 < s2.len() && s2[i2].id == id);
    assert(s1[i2].id == id);
    if i1 != i2 {
        assert(s1[i1].id != s1[i2].id);
    }
}

/// A click record ring after one more click: the record is appended and,
/// past the capacity, the oldest record is evicted.
pub open spec fn push_click(recs: Seq<ClickRecord>, r: ClickRecord) -> Seq<ClickRecord> {
    let s2 = recs.push(r);
    if s2.len() > MAX_CLICK_RECORDS {
        s2.drop_first()
    } else {
        s2
    }
}

/// The items after the selection flag of the clicked row is flipped.
pub open spec fn toggled_elems(elems: Seq<Element>, item_id: u64) -> Seq<Element> {
    let i = index_of(elems, item_id);
    elems.update(i, with_selected(elems[i], !elems[i].is_selected))
}

/// The items after a primary click: a header or stale identity changes
/// nothing; otherwise the clicked row's selection flag flips, and a click
/// with the range modifier held extends the selection from the previously
/// clicked row (if any, and still present) through the clicked row.
pub open spec fn click_elems(
    elems: Seq<Element>,
    clicks: Seq<ClickRecord>,
    item_id: u64,
    ctrl_held: bool,
) -> Seq<Element> {
    if !has_id(elems, item_id) || is_header(elems[index_of(elems, item_id)]) {
        elems
    } else {
        let t = toggled_elems(elems, item_id);
        if ctrl_held && clicks.len() > 0 && has_id(t, clicks.last().id) {
            let a = index_of(t, clicks.last().id);
            let b = index_of(t, item_id);
            select_range_spec(
                t,
                if a <= b {
                    a
                } else {
                    b
                },
                if a <= b {
                    b
                } else {
                    a
                },
            )
        } else {
            t
        }
    }
}

/// The click history after a primary click; unchanged for a header or a
/// stale identity.
pub open spec fn click_records(
    clicks: Seq<ClickRecord>,
    elems: Seq<Element>,
    item_id: u64,
    ctrl_held: bool,
    time: u64,
) -> Seq<ClickRecord> {
    if !has_id(elems, item_id) || is_header(elems[index_of(elems, item_id)]) {
        clicks
    } else {
        push_click(
            clicks,
            ClickRecord {
                id: item_id,
                index: index_of(elems, item_id) as usize,
                time,
                ctrl_held,
            },
        )
    }
}

impl DndDemo {
    /// Process a primary click on an item: toggle its selection, resolve a
    /// range-selection chord against the previous click, and remember the
    /// click in the bounded history.
    pub fn handle_click(&mut self, item_id: u64, ctrl_held: bool, time: u64)
        requires
            old(self).wf(),
        ensures
            final(self).wf(),
            final(self).elements@ == click_elems(
                old(self).elements@,
                old(self).last_few_clicks@,
                item_id,
                ctrl_held,
            ),
            final(self).last_few_clicks@ == click_records(
                old(self).last_few_clicks@,
                old(self).elements@,
                item_id,
                ctrl_held,
                time,
            ),
            final(self).same_control_state(*old(self)),
    {
        let ghost elems = self.elements@;
        let ghost clicks = self.last_few_clicks@;
        let found = self.find_index(item_id);
        let i = match found {
            None => {
                return ;
            },
            Some(i) => i,
        };
        match &self.elements[i].contents {
            ElementContents::Header(_) => {
                return ;
            },
            ElementContents::Value(_) => {},
        }
        let prev_id: Option<u64> = if self.last_few_clicks.len() > 0 {
            Some(self.last_few_clicks[self.last_few_clicks.len() - 1].id)
        } else {
            None
        };
        self.select_toggle(item_id);
        proof {
            assert(self.elements@ == toggled_elems(elems, item_id));
        }
        if ctrl_held {
            match prev_id {
                Some(pid) => {
                    proof {
                        let t = toggled_elems(elems, item_id);
                        assert forall|j: int| 0 <= j < elems.len() implies (#[trigger] elems[j]).id
                            == (#[trigger] t[j]).id by {}
                        if has_id(elems, pid) {
                            lemma_index_of_same(elems, t, pid);
                        }
                        if has_id(t, pid) {
                            lemma_index_of_same(t, elems, pid);
                        }
                        lemma_index_of_same(elems, t, item_id);
                        lemma_index_of_same(t, elems, item_id);
                    }
                    self.select_range(pid, item_id);
                },
                None => {},
            }
        }
        let rec = ClickRecord { id: item_id, index: i, time, ctrl_held };
        self.last_few_clicks.push(rec);
        if self.last_few_clicks.len() > MAX_CLICK_RECORDS {
            self.last_few_clicks.remove(0);
        }
        proof {
            assert(self.last_few_clicks@ =~= click_records(
                clicks,
                elems,
                item_id,
                ctrl_held,
                time,
            ));
        }
    }
}

/// Draw the next process-unique identity from a monotonic counter.
pub fn new_scratch_nonce(counter: &mut u64) -> (id: u64)
    requires
        *old(counter) < u64::MAX,
    ensures
        id == *old(counter),
        *final(counter) == *old(counter) + 1,
{
    let id = *counter;
    *counter = *counter + 1;
    id
}

impl Element {
    /// A fresh, unselected, unmoved element with the next identity.
    pub fn from_value(contents: ElementContents, counter: &mut u64) -> (e: Element)
        requires
            *old(counter) < u64::MAX,
        ensures
            e.id == *old(counter),
            *final(counter) == *old(counter) + 1,
            e.list_y == (SlewPair { current: 0i64, target: 0i64 }),
            e.drag_y == (SlewPair { current: 0i64, target: 0i64 }),
            !e.is_selected,
            e.contents == contents,
    {
        Element {
            id: new_scratch_nonce(counter),
            list_y: SlewPair::zero(),
            drag_y: SlewPair::zero(),
            is_selected: false,
            contents,
        }
    }
}

} // verus!
