//! Input to intent: what a click selects and what it orders.

use vstd::prelude::*;

use crate::client;
use crate::client::half_extent;
use crate::float::{F32, Point};
use crate::sim::near;
use crate::sim::near::{nearest_of, Candidate};
use crate::sim::orders::{Asked, Order};
use crate::sim::world::Entity;
use crate::sim::UnitKind;

verus! {

/// Bits of 0.3: two clicks on one thing within fewer seconds are a double click.
pub const DOUBLE_CLICK_BITS: u32 = 0x3e99_999a;

/// Bits of 8.0: a press that ends further from where it began is a box drag.
pub const DRAG_THRESHOLD_BITS: u32 = 0x4100_0000;

/// Something the cursor can pick.
#[derive(Clone, Copy, Debug)]
pub struct Pickable {
    pub entity: Entity,
    /// Its kind, for a unit.
    pub kind: Option<UnitKind>,
    /// Is it a deposit?
    pub node: bool,
    pub selected: bool,
    pub pos: Point,
    /// How far the cursor is from its centre, along each axis.
    pub offset: Point,
    /// The same, squared and straight.
    pub squared: F32,
}

/// Where the current press began.
#[derive(Clone, Copy, PartialEq, Eq, Structural, Debug)]
pub struct DragState {
    pub start: Option<Point>,
}

impl Default for DragState {
    fn default() -> (r: Self)
        ensures
            r.start is None,
    {
        DragState { start: None }
    }
}

impl DragState {
    pub fn press(&mut self, at: Point)
        ensures
            final(self).start == Some(at),
    {
        self.start = Some(at);
    }

    /// End the press and say where it began.
    pub fn release(&mut self, at: Point) -> (r: Point)
        ensures
            final(self).start is None,
            r == (match old(self).start {
                Some(p) => p,
                None => at,
            }),
    {
        let began: Point = match self.start {
            Some(p) => p,
            None => at,
        };
        self.start = None;
        began
    }
}

/// The last click, for telling a double click.
#[derive(Clone, Copy, PartialEq, Eq, Structural, Debug)]
pub struct ClickTracker {
    pub last_time: F32,
    pub last_entity: Option<Entity>,
}

impl Default for ClickTracker {
    fn default() -> (r: Self)
        ensures
            r == (ClickTracker { last_time: F32 { bits: 0 }, last_entity: None }),
    {
        ClickTracker { last_time: F32 { bits: 0 }, last_entity: None }
    }
}

/// Is an offset inside a box of this half-extent?
pub open spec fn inside(offset: Point, half: F32) -> bool {
    offset.x.at_most(half) && offset.y.at_most(half)
}

fn within(offset: Point, half: F32) -> (r: bool)
    ensures
        r == inside(offset, half),
{
    offset.x.le(&half) && offset.y.le(&half)
}

/// Is a point in a rectangle, its edges included?
pub open spec fn enclosed(p: Point, min: Point, max: Point) -> bool {
    min.x.at_most(p.x) && p.x.at_most(max.x) && min.y.at_most(p.y) && p.y.at_most(max.y)
}

fn in_rect(p: Point, min: Point, max: Point) -> (r: bool)
    ensures
        r == enclosed(p, min, max),
{
    min.x.le(&p.x) && p.x.le(&max.x) && min.y.le(&p.y) && p.y.le(&max.y)
}

/// The things under the cursor.
pub open spec fn hits(rows: Seq<Pickable>) -> Seq<Candidate> {
    Seq::new(
        rows.len(),
        |i: int|
            Candidate {
                squared: rows[i].squared,
                key: i as u64,
                open: inside(rows[i].offset, client::half_of(rows[i].kind)),
            },
    )
}

/// What the cursor picks: of the boxes around it, the one with the nearest
/// centre, the first of those.
pub open spec fn picked(rows: Seq<Pickable>) -> Option<int> {
    near::nearest(hits(rows))
}

/// What the cursor picks.
pub fn pick(rows: &Vec<Pickable>) -> (r: Option<usize>)
    ensures
        r is Some == picked(rows@) is Some,
        r matches Some(i) ==> picked(rows@) == Some(i as int) && i < rows@.len(),
{
    let ghost all = hits(rows@);
    let mut list: Vec<Candidate> = Vec::new();
    let mut k: usize = 0;
    while k < rows.len()
        invariant
            k <= rows@.len(),
            all == hits(rows@),
            list@ == all.take(k as int),
        decreases rows@.len() - k,
    {
        let row = rows[k];
        list.push(
            Candidate {
                squared: row.squared,
                key: k as u64,
                open: within(row.offset, half_extent(row.kind)),
            },
        );
        assert(list@ =~= all.take(k + 1));
        k = k + 1;
    }
    assert(list@ =~= all);
    nearest_of(&list)
}

/// A finished gesture of the left button.
#[derive(Clone, Copy, PartialEq, Eq, Structural, Debug)]
pub enum Gesture {
    /// A box from corner to corner.
    Drag { min: Point, max: Point },
    /// A click, `since` seconds after the last.
    Click { now: F32, since: F32 },
}

/// Is a press of this length a box drag?
pub fn is_drag(length: F32) -> (r: bool)
    ensures
        r == (F32 { bits: DRAG_THRESHOLD_BITS }).less(length),
{
    let least: F32 = F32 { bits: DRAG_THRESHOLD_BITS };
    least.lt(&length)
}

impl Gesture {
    /// The gesture of a press that spans the box from `min` to `max`, whose
    /// diagonal is `length`, and ends at `now`, `since` after the last click.
    pub fn of(min: Point, max: Point, length: F32, now: F32, since: F32) -> (r: Self)
        ensures
            r == if (F32 { bits: DRAG_THRESHOLD_BITS }).less(length) {
                Gesture::Drag { min, max }
            } else {
                Gesture::Click { now, since }
            },
    {
        if is_drag(length) {
            Gesture::Drag { min, max }
        } else {
            Gesture::Click { now, since }
        }
    }
}

/// Is a click on the thing at `i` the second of a double click?
pub open spec fn is_double(rows: Seq<Pickable>, clicks: ClickTracker, since: F32, i: int) -> bool {
    clicks.last_entity == Some(rows[i].entity) && since.less(F32 { bits: DOUBLE_CLICK_BITS })
}

/// Is the thing at `j` selected after a gesture? A box takes the units inside;
/// a click takes what it picks, a double click every unit of its kind, and a
/// click on nothing clears. With shift a box adds, a click toggles, and nothing
/// is cleared.
pub open spec fn selects(
    rows: Seq<Pickable>,
    gesture: Gesture,
    shift: bool,
    clicks: ClickTracker,
    j: int,
) -> bool {
    match gesture {
        Gesture::Drag { min, max } => (shift && rows[j].selected) || (rows[j].kind is Some
            && enclosed(rows[j].pos, min, max)),
        Gesture::Click { now, since } => match picked(rows) {
            Some(i) => if shift {
                if i == j {
                    !rows[j].selected
                } else {
                    rows[j].selected
                }
            } else if is_double(rows, clicks, since, i) && rows[i].kind is Some {
                rows[j].kind == rows[i].kind
            } else {
                i == j
            },
            None => shift && rows[j].selected,
        },
    }
}

/// The tracker after a gesture.
pub open spec fn remembered(rows: Seq<Pickable>, gesture: Gesture, clicks: ClickTracker) -> ClickTracker {
    match gesture {
        Gesture::Drag { .. } => clicks,
        Gesture::Click { now, since } => match picked(rows) {
            Some(i) => ClickTracker { last_time: now, last_entity: Some(rows[i].entity) },
            None => clicks,
        },
    }
}

fn same_kind(a: Option<UnitKind>, b: Option<UnitKind>) -> (r: bool)
    ensures
        r == (a == b),
{
    match (a, b) {
        (Some(x), Some(y)) => x == y,
        (None, None) => true,
        _ => false,
    }
}

/// What is selected after a gesture, row by row.
pub fn selection(rows: &Vec<Pickable>, gesture: Gesture, shift: bool, clicks: &mut ClickTracker)
    -> (r: Vec<bool>)
    ensures
        r@.len() == rows@.len(),
        forall|j: int|
            0 <= j < rows@.len() ==> #[trigger] r@[j] == selects(
                rows@,
                gesture,
                shift,
                *old(clicks),
                j,
            ),
        *final(clicks) == remembered(rows@, gesture, *old(clicks)),
{
    let ghost before = *clicks;
    let at: Option<usize> = match gesture {
        Gesture::Drag { .. } => None,
        Gesture::Click { .. } => pick(rows),
    };
    let double: bool = match (gesture, at, clicks.last_entity) {
        (Gesture::Click { now: _, since }, Some(i), Some(last)) => last == rows[i].entity
            && since.lt(&F32 { bits: DOUBLE_CLICK_BITS }),
        _ => false,
    };
    let mut out: Vec<bool> = Vec::new();
    let mut j: usize = 0;
    while j < rows.len()
        invariant
            j <= rows@.len(),
            out@.len() == j,
            gesture is Click ==> at is Some == picked(rows@) is Some,
            at matches Some(i) ==> gesture is Click && picked(rows@) == Some(i as int) && i
                < rows@.len(),
            gesture matches Gesture::Click { now, since } ==> double == (at matches Some(i)
                && is_double(rows@, before, since, i as int)),
            forall|k: int|
                0 <= k < j ==> #[trigger] out@[k] == selects(rows@, gesture, shift, before, k),
        decreases rows@.len() - j,
    {
        let row = rows[j];
        let on: bool = match gesture {
            Gesture::Drag { min, max } => (shift && row.selected) || (row.kind.is_some() && in_rect(
                row.pos,
                min,
                max,
            )),
            Gesture::Click { .. } => match at {
                Some(i) => if shift {
                    if i == j {
                        !row.selected
                    } else {
                        row.selected
                    }
                } else if double && rows[i].kind.is_some() {
                    same_kind(row.kind, rows[i].kind)
                } else {
                    i == j
                },
                None => shift && row.selected,
            },
        };
        out.push(on);
        j = j + 1;
    }
    match (gesture, at) {
        (Gesture::Click { now, since: _ }, Some(i)) => {
            *clicks = ClickTracker { last_time: now, last_entity: Some(rows[i].entity) };
        },
        _ => {},
    }
    out
}

/// The selected units among the first `k` rows.
pub open spec fn selected_units(rows: Seq<Pickable>, k: int) -> Seq<Entity>
    decreases k,
{
    if k <= 0 {
        Seq::empty()
    } else if rows[k - 1].selected && rows[k - 1].kind is Some {
        selected_units(rows, k - 1).push(rows[k - 1].entity)
    } else {
        selected_units(rows, k - 1)
    }
}

/// The first deposit, from row `k` on, that is under the cursor.
pub open spec fn deposit_under(rows: Seq<Pickable>, k: int) -> Option<int>
    decreases rows.len() - k,
{
    if k < 0 || k >= rows.len() {
        None
    } else if rows[k].kind is None && rows[k].node && inside(rows[k].offset, client::half_of(None)) {
        Some(k)
    } else {
        deposit_under(rows, k + 1)
    }
}

/// What a right click orders: the selected units gather at a deposit under the
/// cursor, or else move to where it points.
pub open spec fn ordered(rows: Seq<Pickable>, cursor: Point) -> Option<Asked> {
    let units = selected_units(rows, rows.len() as int);
    if units.len() == 0 {
        None
    } else {
        Some(
            match deposit_under(rows, 0) {
                Some(i) => Asked::Gather { units, node: rows[i].entity, node_pos: rows[i].pos },
                None => Asked::MoveTo { units, dest: cursor },
            },
        )
    }
}

fn find_deposit(rows: &Vec<Pickable>) -> (r: Option<usize>)
    ensures
        r is Some == deposit_under(rows@, 0) is Some,
        r matches Some(i) ==> deposit_under(rows@, 0) == Some(i as int) && i < rows@.len(),
{
    let mut k: usize = 0;
    while k < rows.len()
        invariant
            k <= rows@.len(),
            deposit_under(rows@, 0) == deposit_under(rows@, k as int),
        decreases rows@.len() - k,
    {
        let row = rows[k];
        if row.kind.is_none() && row.node && within(row.offset, half_extent(None)) {
            return Some(k);
        }
        k = k + 1;
    }
    None
}

/// The order of a right click, if there is anybody to give it to.
pub fn emit_commands(rows: &Vec<Pickable>, cursor: Point) -> (r: Option<Order>)
    ensures
        match r {
            Some(o) => ordered(rows@, cursor) == Some(o@),
            None => ordered(rows@, cursor) is None,
        },
{
    let mut units: Vec<Entity> = Vec::new();
    let mut k: usize = 0;
    while k < rows.len()
        invariant
            k <= rows@.len(),
            units@ == selected_units(rows@, k as int),
        decreases rows@.len() - k,
    {
        let row = rows[k];
        if row.selected && row.kind.is_some() {
            units.push(row.entity);
        }
        k = k + 1;
    }
    if units.len() == 0 {
        return None;
    }
    match find_deposit(rows) {
        Some(i) => Some(
            Order::Gather { units, node: rows[i].entity, node_pos: rows[i].pos },
        ),
        None => Some(Order::MoveTo { units, dest: cursor }),
    }
}

// ---- laws -------------------------------------------------------------------

/// Only units are box-selected: a box never takes a deposit or a building.
pub proof fn boxes_take_only_units(
    rows: Seq<Pickable>,
    min: Point,
    max: Point,
    clicks: ClickTracker,
    j: int,
)
    requires
        rows[j].kind is None,
    ensures
        !selects(rows, Gesture::Drag { min, max }, false, clicks, j),
{
}

/// Shift never turns into a double click: it changes only the thing that was
/// picked, and changes that back the second time.
pub proof fn shift_click_toggles(
    rows: Seq<Pickable>,
    now: F32,
    since: F32,
    clicks: ClickTracker,
    j: int,
)
    ensures
        ({
            let g = Gesture::Click { now, since };
            &&& picked(rows) != Some(j) ==> selects(rows, g, true, clicks, j) == rows[j].selected
            &&& picked(rows) == Some(j) ==> selects(rows, g, true, clicks, j) == !rows[j].selected
        }),
{
}

/// Is the cursor over the box of a thing?
pub open spec fn covered(row: Pickable) -> bool {
    row.offset.x.at_most(client::half_of(row.kind)) && row.offset.y.at_most(
        client::half_of(row.kind),
    )
}

/// The cursor picks something exactly if it is over something: of what it is
/// over, what lies nearest, and of those the first.
pub proof fn the_cursor_picks_what_is_nearest(rows: Seq<Pickable>)
    requires
        rows.len() <= u64::MAX,
        forall|i: int| 0 <= i < rows.len() ==> !(#[trigger] rows[i]).squared.nan(),
    ensures
        match picked(rows) {
            Some(b) => 0 <= b < rows.len() && covered(rows[b]) && forall|i: int|
                0 <= i < rows.len() && covered(#[trigger] rows[i]) ==> rows[b].squared.at_most(
                    rows[i].squared,
                ) && (rows[b].squared.same(rows[i].squared) ==> b <= i),
            None => forall|i: int| 0 <= i < rows.len() ==> !covered(#[trigger] rows[i]),
        },
{
    let all = hits(rows);
    assert forall|i: int| 0 <= i < all.len() implies !(#[trigger] all[i]).squared.nan() by {
        assert(!rows[i].squared.nan());
    }
    near::the_choice_is_nearest(all);
    assert forall|i: int| 0 <= i < rows.len() implies all[i].open == covered(#[trigger] rows[i]) by {}
    match picked(rows) {
        Some(b) => {
            assert forall|i: int| 0 <= i < rows.len() && covered(
                #[trigger] rows[i],
            ) implies rows[b].squared.at_most(rows[i].squared) && (rows[b].squared.same(
                rows[i].squared,
            ) ==> b <= i) by {
                assert(all[i].open);
            }
        },
        None => {
            assert forall|i: int| 0 <= i < rows.len() implies !covered(#[trigger] rows[i]) by {
                assert(!all[i].open);
            }
        },
    }
}

/// A box selects exactly the units whose centres are in it, its edges included;
/// with shift, what was selected stays so.
pub proof fn a_box_selects_what_it_holds(
    rows: Seq<Pickable>,
    min: Point,
    max: Point,
    shift: bool,
    clicks: ClickTracker,
    j: int,
)
    ensures
        ({
            let p = rows[j].pos;
            let held = min.x.at_most(p.x) && p.x.at_most(max.x) && min.y.at_most(p.y)
                && p.y.at_most(max.y);
            &&& selects(rows, Gesture::Drag { min, max }, shift, clicks, j) <==> (
            rows[j].kind is Some && held) || (shift && rows[j].selected)
            &&& remembered(rows, Gesture::Drag { min, max }, clicks) == clicks
        }),
{
}

/// A click without shift selects what it picks and nothing else; a second click
/// on the same unit within the double-click time selects all of its kind; a click
/// on nothing clears the selection, and with shift leaves it.
pub proof fn a_click_selects_what_it_picks(
    rows: Seq<Pickable>,
    now: F32,
    since: F32,
    clicks: ClickTracker,
    i: int,
    j: int,
)
    ensures
        ({
            let g = Gesture::Click { now, since };
            let again = clicks.last_entity == Some(rows[i].entity) && since.less(
                F32 { bits: DOUBLE_CLICK_BITS },
            ) && rows[i].kind is Some;
            &&& picked(rows) == Some(i) && !again ==> (selects(rows, g, false, clicks, j) <==> i
                == j)
            &&& picked(rows) == Some(i) && again ==> (selects(rows, g, false, clicks, j)
                <==> rows[j].kind == rows[i].kind)
            &&& picked(rows) is None ==> !selects(rows, g, false, clicks, j)
            &&& picked(rows) is None ==> (selects(rows, g, true, clicks, j) <==> rows[j].selected)
            &&& picked(rows) == Some(i) ==> remembered(rows, g, clicks).last_entity == Some(
                rows[i].entity,
            ) && remembered(rows, g, clicks).last_time == now
            &&& picked(rows) is None ==> remembered(rows, g, clicks) == clicks
        }),
{
}

/// The first deposit under the cursor.
pub open spec fn deposit_pointed_at(rows: Seq<Pickable>, d: int) -> bool {
    &&& 0 <= d < rows.len()
    &&& rows[d].node && rows[d].kind is None && covered(rows[d])
    &&& forall|i: int|
        0 <= i < d ==> !((#[trigger] rows[i]).node && rows[i].kind is None && covered(rows[i]))
}

proof fn lemma_deposit_under(rows: Seq<Pickable>, k: int)
    requires
        0 <= k <= rows.len(),
        forall|i: int|
            0 <= i < k ==> !((#[trigger] rows[i]).node && rows[i].kind is None && covered(rows[i])),
    ensures
        match deposit_under(rows, k) {
            Some(d) => deposit_pointed_at(rows, d),
            None => forall|i: int|
                0 <= i < rows.len() ==> !((#[trigger] rows[i]).node && rows[i].kind is None
                    && covered(rows[i])),
        },
    decreases rows.len() - k,
{
    if k < rows.len() && !(rows[k].node && rows[k].kind is None && covered(rows[k])) {
        lemma_deposit_under(rows, k + 1);
    }
}

proof fn lemma_selected(rows: Seq<Pickable>, k: int)
    requires
        0 <= k <= rows.len(),
    ensures
        selected_units(rows, k) == rows.take(k).filter(
            |r: Pickable| r.selected && r.kind is Some,
        ).map_values(|r: Pickable| r.entity),
    decreases k,
{
    reveal(Seq::filter);
    let p = |r: Pickable| r.selected && r.kind is Some;
    let e = |r: Pickable| r.entity;
    if k > 0 {
        lemma_selected(rows, k - 1);
        assert(rows.take(k).drop_last() =~= rows.take(k - 1));
        let before = rows.take(k - 1).filter(p);
        if rows[k - 1].selected && rows[k - 1].kind is Some {
            assert(rows.take(k).filter(p) == before.push(rows[k - 1]));
            assert(rows.take(k).filter(p).map_values(e) =~= before.map_values(e).push(
                rows[k - 1].entity,
            ));
        } else {
            assert(rows.take(k).filter(p) == before);
        }
    } else {
        assert(rows.take(k).filter(p).map_values(e) =~= selected_units(rows, k));
    }
}

/// A right click orders the selected units, all of them and nobody else: to
/// gather at the deposit under the cursor if there is one, and otherwise to move
/// to where the cursor points. With no unit selected there is no order.
pub proof fn a_right_click_orders_the_selected(rows: Seq<Pickable>, cursor: Point, d: int)
    ensures
        ({
            let who = rows.filter(|r: Pickable| r.selected && r.kind is Some).map_values(
                |r: Pickable| r.entity,
            );
            &&& ordered(rows, cursor) is None <==> who.len() == 0
            &&& who.len() > 0 && deposit_pointed_at(rows, d) ==> ordered(rows, cursor) == Some(
                Asked::Gather { units: who, node: rows[d].entity, node_pos: rows[d].pos },
            )
            &&& who.len() > 0 && (forall|i: int| !deposit_pointed_at(rows, i)) ==> ordered(
                rows,
                cursor,
            ) == Some(Asked::MoveTo { units: who, dest: cursor })
        }),
{
    lemma_selected(rows, rows.len() as int);
    assert(rows.take(rows.len() as int) =~= rows);
    lemma_deposit_under(rows, 0);
    match deposit_under(rows, 0) {
        Some(x) => {
            assert(deposit_pointed_at(rows, x));
            if deposit_pointed_at(rows, d) {
                if x < d {
                    assert(!(rows[x].node && rows[x].kind is None && covered(rows[x])));
                } else if d < x {
                    assert(!(rows[d].node && rows[d].kind is None && covered(rows[d])));
                }
            }
        },
        None => {
            if deposit_pointed_at(rows, d) {
                assert(!(rows[d].node && rows[d].kind is None && covered(rows[d])));
            }
        },
    }
}

} // verus!
