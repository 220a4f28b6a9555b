//! Window geometry: plain data in, data out, so placement and clamping
//! hold without a real window or a real monitor. Every rect is in
//! physical pixels.

use vstd::prelude::*;

verus! {

/// The window's width; its height follows the row count.
pub const WINDOW_W_LOGICAL: i32 = 360;

/// The header row.
pub const HEADER_H_LOGICAL: i32 = 56;

/// One session row, comfortably above the 44px accessibility floor.
pub const ROW_H_LOGICAL: i32 = 48;

#[derive(Debug, Clone, Copy, PartialEq, Eq, Structural)]
pub struct Rect {
    pub x: i32,
    pub y: i32,
    pub w: i32,
    pub h: i32,
}

/// `v` is an `i32`.
pub open spec fn in32(v: int) -> bool {
    i32::MIN <= v <= i32::MAX
}

/// The rect's right and bottom edges are `i32`s.
pub open spec fn edges_fit(r: Rect) -> bool {
    in32(r.x + r.w) && in32(r.y + r.h)
}

pub open spec fn min_i32(a: i32, b: i32) -> i32 {
    if a <= b {
        a
    } else {
        b
    }
}

pub open spec fn max_i32(a: i32, b: i32) -> i32 {
    if a >= b {
        a
    } else {
        b
    }
}

impl Rect {
    pub fn new(x: i32, y: i32, w: i32, h: i32) -> (r: Self)
        ensures
            r == (Rect { x, y, w, h }),
    {
        Rect { x, y, w, h }
    }

    pub fn right(&self) -> (r: i32)
        requires
            in32(self.x + self.w),
        ensures
            r == self.x + self.w,
    {
        self.x + self.w
    }

    pub fn bottom(&self) -> (r: i32)
        requires
            in32(self.y + self.h),
        ensures
            r == self.y + self.h,
    {
        self.y + self.h
    }

    /// The vertical centre, rounding the half height toward zero.
    pub fn center_y(&self) -> (r: i32)
        requires
            in32(self.y + self.h / 2),
        ensures
            r == self.y + half(self.h),
    {
        self.y + self.h / 2
    }
}

/// `v / 2` rounded toward zero, as `i32` division does.
pub open spec fn half(v: i32) -> int {
    if v >= 0 {
        v / 2
    } else {
        -((-v) / 2)
    }
}

/// `rect` and `area` share at least one pixel: both cover some pixel
/// (positive width and height), and their pixel boxes overlap.
pub open spec fn intersects_spec(r: Rect, a: Rect) -> bool {
    &&& r.w > 0 && r.h > 0 && a.w > 0 && a.h > 0
    &&& r.x < a.x + a.w && r.x + r.w > a.x && r.y < a.y + a.h && r.y + r.h > a.y
}

/// True when `rect` shares at least one pixel with `area`: a saved
/// position is tested against the monitors connected right now.
pub fn intersects(rect: Rect, area: Rect) -> (b: bool)
    requires
        edges_fit(rect),
        edges_fit(area),
    ensures
        b == intersects_spec(rect, area),
{
    rect.w > 0 && rect.h > 0 && area.w > 0 && area.h > 0 && rect.x < area.right() && rect.right() > area.x
        && rect.y < area.bottom() && rect.bottom() > area.y
}

/// `v` clamped into the `i32` range.
pub open spec fn clamp32(v: int) -> i32 {
    if v > i32::MAX {
        i32::MAX
    } else if v < i32::MIN {
        i32::MIN
    } else {
        v as i32
    }
}

/// The window's height for a row count: the header plus one row per
/// session, at least one row (the placeholder of an empty list), capped
/// at `max_h` so the window never grows past the monitor's work area.
/// The row count is read as an `i32` the way a cast reads it.
pub open spec fn window_height_spec(row_count: usize, max_h: i32) -> i32 {
    let rows: i32 = (if row_count >= 1 {
        row_count
    } else {
        1usize
    }) as i32;
    let h = clamp32(HEADER_H_LOGICAL + rows * ROW_H_LOGICAL);
    min_i32(h, max_h)
}

pub fn window_height(row_count: usize, max_h: i32) -> (h: i32)
    ensures
        h == window_height_spec(row_count, max_h),
{
    let count = if row_count >= 1 {
        row_count
    } else {
        1
    };
    #[verifier::truncate]
    let rows: i32 = count as i32;
    let wide: i64 = rows as i64;
    let tall: i64 = 56i64 + wide * 48i64;
    let h: i32 = if tall > i32::MAX as i64 {
        i32::MAX
    } else if tall < i32::MIN as i64 {
        i32::MIN
    } else {
        tall as i32
    };
    if h <= max_h {
        h
    } else {
        max_h
    }
}

/// A rect refitted to a new height, keeping its bottom edge when
/// `bottom_anchored` and its top edge otherwise.
pub fn reflow_height(old: Rect, new_h: i32, bottom_anchored: bool) -> (r: Rect)
    requires
        in32(old.y + old.h),
        bottom_anchored ==> in32(old.y + old.h - new_h),
    ensures
        r.x == old.x && r.w == old.w && r.h == new_h,
        r.y == if bottom_anchored {
            old.y + old.h - new_h
        } else {
            old.y as int
        },
{
    let y = if bottom_anchored {
        old.bottom() - new_h
    } else {
        old.y
    };
    Rect::new(old.x, y, old.w, new_h)
}

/// Whether `rect`'s centre sits in the bottom half of `area`: which edge
/// a resize anchors to.
pub fn is_bottom_anchored(rect: Rect, area: Rect) -> (b: bool)
    requires
        in32(rect.y + rect.h / 2),
        in32(area.y + area.h / 2),
    ensures
        b == (rect.y + half(rect.h) > area.y + half(area.h)),
{
    rect.center_y() > area.y + area.h / 2
}

/// Every sum `clamp_into` computes is an `i32`.
pub open spec fn clampable(rect: Rect, area: Rect) -> bool {
    let w = min_i32(rect.w, area.w);
    let h = min_i32(rect.h, area.h);
    &&& edges_fit(area)
    &&& in32(rect.x + w) && in32(area.x + w) && in32(area.x + area.w - w)
    &&& in32(rect.y + h) && in32(area.y + h) && in32(area.y + area.h - h)
}

/// `rect` fitted inside `area`: shrunk to the area's size first where it
/// is larger, then moved so no edge crosses the area's bounds.
pub open spec fn clamp_spec(rect: Rect, area: Rect) -> Rect {
    let w = min_i32(rect.w, area.w);
    let h = min_i32(rect.h, area.h);
    let x1 = if rect.x < area.x {
        area.x
    } else {
        rect.x
    };
    let x = if x1 + w > area.x + area.w {
        (area.x + area.w - w) as i32
    } else {
        x1
    };
    let y1 = if rect.y < area.y {
        area.y
    } else {
        rect.y
    };
    let y = if y1 + h > area.y + area.h {
        (area.y + area.h - h) as i32
    } else {
        y1
    };
    Rect { x, y, w, h }
}

pub fn clamp_into(rect: Rect, area: Rect) -> (r: Rect)
    requires
        clampable(rect, area),
    ensures
        r == clamp_spec(rect, area),
{
    let w = if rect.w <= area.w {
        rect.w
    } else {
        area.w
    };
    let h = if rect.h <= area.h {
        rect.h
    } else {
        area.h
    };
    let mut x = rect.x;
    let mut y = rect.y;
    if x < area.x {
        x = area.x;
    }
    if x + w > area.right() {
        x = area.right() - w;
    }
    if y < area.y {
        y = area.y;
    }
    if y + h > area.bottom() {
        y = area.bottom() - h;
    }
    Rect::new(x, y, w, h)
}

/// The index of the first area `rect` overlaps among the first `n`.
pub open spec fn first_hit(rect: Rect, areas: Seq<Rect>, n: int) -> Option<int>
    decreases n,
{
    if n <= 0 {
        None
    } else {
        match first_hit(rect, areas, n - 1) {
            Some(i) => Some(i),
            None => if intersects_spec(rect, areas[n - 1]) {
                Some(n - 1)
            } else {
                None
            },
        }
    }
}

proof fn lemma_first_hit(rect: Rect, areas: Seq<Rect>, n: int)
    requires
        n <= areas.len(),
    ensures
        first_hit(rect, areas, n) matches Some(i) ==> 0 <= i < n && intersects_spec(rect, areas[i]) && forall|j: int|
            0 <= j < i ==> !intersects_spec(rect, #[trigger] areas[j]),
        first_hit(rect, areas, n) is None ==> forall|j: int| 0 <= j < n ==> !intersects_spec(rect, #[trigger] areas[j]),
    decreases n,
{
    if n > 0 {
        lemma_first_hit(rect, areas, n - 1);
    }
}

/// Every area and `rect` can be tested and clamped without overflow.
pub open spec fn areas_ok(rect: Rect, areas: Seq<Rect>) -> bool {
    &&& edges_fit(rect)
    &&& forall|i: int| 0 <= i < areas.len() ==> clampable(rect, #[trigger] areas[i])
}

/// `rect` and every area can be tested for overlap without overflow.
pub open spec fn edges_ok(rect: Rect, areas: Seq<Rect>) -> bool {
    &&& edges_fit(rect)
    &&& forall|i: int| 0 <= i < areas.len() ==> edges_fit(#[trigger] areas[i])
}

/// The first area `rect` overlaps, searched in order.
fn find_hit(rect: Rect, areas: &[Rect]) -> (r: Option<usize>)
    requires
        edges_ok(rect, areas@),
    ensures
        match r {
            Some(i) => i < areas@.len() && first_hit(rect, areas@, areas@.len() as int) == Some(i as int),
            None => first_hit(rect, areas@, areas@.len() as int) is None,
        },
{
    let mut i: usize = 0;
    while i < areas.len()
        invariant
            edges_ok(rect, areas@),
            i <= areas@.len(),
            first_hit(rect, areas@, i as int) is None,
        decreases areas@.len() - i,
    {
        if intersects(rect, areas[i]) {
            proof {
                lemma_first_hit_extends(rect, areas@, i as int + 1, areas@.len() as int);
            }
            return Some(i);
        }
        i = i + 1;
    }
    None
}

proof fn lemma_first_hit_extends(rect: Rect, areas: Seq<Rect>, m: int, n: int)
    requires
        0 <= m <= n,
        first_hit(rect, areas, m) is Some,
    ensures
        first_hit(rect, areas, n) == first_hit(rect, areas, m),
    decreases n - m,
{
    if m < n {
        lemma_first_hit_extends(rect, areas, m, n - 1);
    }
}

/// A restored position checked against the monitors connected now: the
/// first area it overlaps clamps it; overlapping none, the fallback is
/// clamped into the first area; with no areas at all, the fallback as is.
pub open spec fn restore_spec(saved: Rect, areas: Seq<Rect>, fallback: Rect) -> Rect {
    match first_hit(saved, areas, areas.len() as int) {
        Some(i) => clamp_spec(saved, areas[i]),
        None => if areas.len() > 0 {
            clamp_spec(fallback, areas[0])
        } else {
            fallback
        },
    }
}

pub fn restore_or_fallback(saved: Rect, areas: &[Rect], fallback: Rect) -> (r: Rect)
    requires
        areas_ok(saved, areas@),
        areas@.len() > 0 ==> clampable(fallback, areas@[0]),
    ensures
        r == restore_spec(saved, areas@, fallback),
{
    if let Some(i) = find_hit(saved, areas) {
        proof {
            lemma_first_hit(saved, areas@, areas@.len() as int);
        }
        return clamp_into(saved, areas[i]);
    }
    if areas.len() > 0 {
        clamp_into(fallback, areas[0])
    } else {
        fallback
    }
}

/// The area a rect should be clamped into right now: the first it
/// overlaps, else the first available; `None` only with no areas.
pub fn area_for<'a>(rect: Rect, areas: &'a [Rect]) -> (r: Option<&'a Rect>)
    requires
        edges_ok(rect, areas@),
    ensures
        match first_hit(rect, areas@, areas@.len() as int) {
            Some(i) => r == Some(&areas@[i]),
            None => if areas@.len() > 0 {
                r == Some(&areas@[0])
            } else {
                r is None
            },
        },
{
    match find_hit(rect, areas) {
        Some(i) => Some(&areas[i]),
        None => if areas.len() > 0 {
            Some(&areas[0])
        } else {
            None
        },
    }
}

/// A visible default near the top-left of `area`, with a small margin.
pub fn default_rect(area: Rect, w: i32, h: i32) -> (r: Rect)
    requires
        in32(area.x + 12),
        in32(area.y + 12),
    ensures
        r == (Rect { x: (area.x + 12) as i32, y: (area.y + 12) as i32, w, h }),
{
    let margin: i32 = 12;
    Rect::new(area.x + margin, area.y + margin, w, h)
}

// ---- Laws -------------------------------------------------------------

/// `r` lies wholly inside `a`.
pub open spec fn inside(r: Rect, a: Rect) -> bool {
    a.x <= r.x && r.x + r.w <= a.x + a.w && a.y <= r.y && r.y + r.h <= a.y + a.h
}

/// Clamping puts a rect wholly inside the area (one of non-negative
/// size), never grows it, and leaves a rect already inside untouched.
pub proof fn law_clamping_fits_inside(rect: Rect, area: Rect)
    requires
        clampable(rect, area),
        area.w >= 0,
        area.h >= 0,
        rect.w >= 0,
        rect.h >= 0,
    ensures
        inside(clamp_spec(rect, area), area),
        clamp_spec(rect, area).w <= rect.w,
        clamp_spec(rect, area).h <= rect.h,
        inside(rect, area) ==> clamp_spec(rect, area) == rect,
        clamp_spec(clamp_spec(rect, area), area) == clamp_spec(rect, area),
{
}

/// A restored window always lands wholly inside a connected monitor
/// when there is one.
pub proof fn law_a_restored_window_lands_on_a_monitor(saved: Rect, areas: Seq<Rect>, fallback: Rect)
    requires
        areas_ok(saved, areas),
        areas.len() > 0,
        clampable(fallback, areas[0]),
        saved.w >= 0 && saved.h >= 0 && fallback.w >= 0 && fallback.h >= 0,
        forall|i: int| 0 <= i < areas.len() ==> (#[trigger] areas[i]).w >= 0 && areas[i].h >= 0,
    ensures
        exists|i: int| 0 <= i < areas.len() && inside(restore_spec(saved, areas, fallback), #[trigger] areas[i]),
{
    lemma_first_hit(saved, areas, areas.len() as int);
    match first_hit(saved, areas, areas.len() as int) {
        Some(i) => {
            law_clamping_fits_inside(saved, areas[i]);
        },
        None => {
            law_clamping_fits_inside(fallback, areas[0]);
        },
    }
}

/// A saved position that overlaps a connected monitor stays on the
/// first monitor it overlaps, whichever that is: it is clamped into that
/// monitor and no other, so a window saved on a secondary screen is not
/// pulled onto the primary one. A saved rect lying wholly inside that
/// monitor comes back exactly as saved.
pub proof fn law_a_saved_window_stays_on_the_monitor_it_overlaps(
    saved: Rect,
    areas: Seq<Rect>,
    fallback: Rect,
    i: int,
)
    requires
        0 <= i < areas.len(),
        intersects_spec(saved, areas[i]),
        forall|j: int| 0 <= j < i ==> !intersects_spec(saved, #[trigger] areas[j]),
    ensures
        restore_spec(saved, areas, fallback) == clamp_spec(saved, areas[i]),
        inside(saved, areas[i]) ==> restore_spec(saved, areas, fallback) == saved,
{
    lemma_first_hit(saved, areas, areas.len() as int);
    match first_hit(saved, areas, areas.len() as int) {
        Some(k) => {
            assert(!(k < i));
            assert(!(i < k));
        },
        None => {
            assert(!intersects_spec(saved, areas[i]));
        },
    }
}

/// The window never drops below one row, even with no sessions, grows
/// with the row count until the cap, and never exceeds the cap.
pub proof fn law_window_height_follows_the_rows(a: usize, b: usize, max_h: i32)
    requires
        a <= b <= 10_000_000,
    ensures
        window_height_spec(0, max_h) == window_height_spec(1, max_h),
        window_height_spec(a, max_h) <= window_height_spec(b, max_h),
        window_height_spec(b, max_h) <= max_h,
        max_h >= HEADER_H_LOGICAL + (if b >= 1 { b as int } else { 1 }) * ROW_H_LOGICAL ==> window_height_spec(b, max_h)
            == HEADER_H_LOGICAL + (if b >= 1 { b as int } else { 1 }) * ROW_H_LOGICAL,
{
}

} // verus!
