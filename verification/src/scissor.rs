//! Nested scissor (clip) rectangles in surface pixels.
//!
//! A scissor rectangle is `(x, y, width, height)`. Pushing a rectangle while
//! another one is active clips the new one to the active one; the previous
//! active rectangle is kept on a stack so that popping restores it.
use vstd::prelude::*;

verus! {

/// A scissor rectangle `(x, y, width, height)` in surface pixels.
pub type ScissorRect = (u32, u32, u32, u32);

pub open spec fn spec_max(a: u32, b: u32) -> u32 {
    if a >= b { a } else { b }
}

pub open spec fn spec_min(a: int, b: int) -> int {
    if a <= b { a } else { b }
}

/// The right edge of `r` does not overflow `u32`.
pub open spec fn edges_fit(r: ScissorRect) -> bool {
    r.0 + r.2 <= u32::MAX && r.1 + r.3 <= u32::MAX
}

/// Intersection of `r` with the active rectangle `current`; the zero
/// rectangle when they do not overlap (touching edges do not overlap).
pub open spec fn spec_intersect(current: ScissorRect, r: ScissorRect) -> ScissorRect {
    let x = spec_max(r.0, current.0);
    let y = spec_max(r.1, current.1);
    let right = spec_min(r.0 + r.2, current.0 + current.2);
    let bottom = spec_min(r.1 + r.3, current.1 + current.3);
    if right > x && bottom > y {
        (x, y, (right - x) as u32, (bottom - y) as u32)
    } else {
        (0, 0, 0, 0)
    }
}

/// The active rectangle after pushing `rect` onto `current`.
pub open spec fn spec_push(current: Option<ScissorRect>, rect: Option<ScissorRect>) -> Option<
    ScissorRect,
> {
    match rect {
        Some(r) => match current {
            Some(c) => Some(spec_intersect(c, r)),
            None => Some(r),
        },
        None => current,
    }
}

/// A push may proceed without arithmetic overflow.
pub open spec fn push_fits(current: Option<ScissorRect>, rect: Option<ScissorRect>) -> bool {
    match (current, rect) {
        (Some(c), Some(r)) => edges_fit(c) && edges_fit(r),
        _ => true,
    }
}

/// Point `(px, py)` lies inside `r`.
pub open spec fn covers(r: ScissorRect, px: int, py: int) -> bool {
    r.0 <= px < r.0 + r.2 && r.1 <= py < r.1 + r.3
}

/// Clips `new_rect` against `current`, as a scissor push does.
///
/// With no new rectangle the active one stays; with no active one the new
/// rectangle is adopted; otherwise the result is their intersection, or the
/// zero rectangle `(0, 0, 0, 0)` when they do not overlap.
pub fn intersect_scissors(current: Option<ScissorRect>, new_rect: Option<ScissorRect>) -> (res:
    Option<ScissorRect>)
    requires
        push_fits(current, new_rect),
    ensures
        res == spec_push(current, new_rect),
{
    match new_rect {
        Some(r) => match current {
            Some(c) => {
                let x = if r.0 >= c.0 { r.0 } else { c.0 };
                let y = if r.1 >= c.1 { r.1 } else { c.1 };
                let r_right = r.0 + r.2;
                let c_right = c.0 + c.2;
                let right = if r_right <= c_right { r_right } else { c_right };
                let r_bottom = r.1 + r.3;
                let c_bottom = c.1 + c.3;
                let bottom = if r_bottom <= c_bottom { r_bottom } else { c_bottom };
                let w = right.saturating_sub(x);
                let h = bottom.saturating_sub(y);
                if w > 0 && h > 0 {
                    Some((x, y, w, h))
                } else {
                    Some((0, 0, 0, 0))
                }
            },
            None => Some(r),
        },
        None => current,
    }
}

/// The stack of saved scissor rectangles and the active one.
pub struct ScissorStack {
    stack: Vec<Option<ScissorRect>>,
    current: Option<ScissorRect>,
}

impl ScissorStack {
    /// Saved rectangles, oldest first.
    pub closed spec fn saved(&self) -> Seq<Option<ScissorRect>> {
        self.stack@
    }

    /// The active rectangle.
    pub closed spec fn active(&self) -> Option<ScissorRect> {
        self.current
    }

    /// An empty stack with no active rectangle.
    pub fn new() -> (s: Self)
        ensures
            s.saved() == Seq::<Option<ScissorRect>>::empty(),
            s.active() == None::<ScissorRect>,
    {
        ScissorStack { stack: Vec::new(), current: None }
    }

    /// The active rectangle.
    pub fn current(&self) -> (r: Option<ScissorRect>)
        ensures
            r == self.active(),
    {
        self.current
    }

    /// Number of saved rectangles.
    pub fn depth(&self) -> (n: usize)
        ensures
            n == self.saved().len(),
    {
        self.stack.len()
    }

    /// Saves the active rectangle and makes the clipped `rect` active.
    pub fn push_scissor(&mut self, rect: Option<ScissorRect>)
        requires
            push_fits(old(self).active(), rect),
        ensures
            (final(self).saved(), final(self).active()) == push_effect(
                old(self).saved(),
                old(self).active(),
                rect,
            ),
    {
        self.stack.push(self.current);
        self.current = intersect_scissors(self.current, rect);
    }

    /// Restores the most recently saved rectangle; with nothing saved, no
    /// rectangle is active afterwards.
    pub fn pop_scissor(&mut self)
        ensures
            (final(self).saved(), final(self).active()) == pop_effect(old(self).saved()),
    {
        self.current = match self.stack.pop() {
            Some(saved) => saved,
            None => None,
        };
    }
}

/// The saved rectangles and the active one after a push.
pub open spec fn push_effect(
    saved: Seq<Option<ScissorRect>>,
    active: Option<ScissorRect>,
    rect: Option<ScissorRect>,
) -> (Seq<Option<ScissorRect>>, Option<ScissorRect>) {
    (saved.push(active), spec_push(active, rect))
}

/// The saved rectangles and the active one after a pop: the most recently
/// saved rectangle comes back; with nothing saved, none is active.
pub open spec fn pop_effect(saved: Seq<Option<ScissorRect>>) -> (Seq<Option<ScissorRect>>, Option<
    ScissorRect,
>) {
    if saved.len() > 0 {
        (saved.drop_last(), saved.last())
    } else {
        (saved, None)
    }
}

/// Pushing a rectangle and then popping restores the previous state.
pub proof fn lemma_push_then_pop_restores(
    saved: Seq<Option<ScissorRect>>,
    active: Option<ScissorRect>,
    rect: Option<ScissorRect>,
)
    ensures
        pop_effect(push_effect(saved, active, rect).0) == (saved, active),
{
    assert(saved.push(active).drop_last() =~= saved);
}

/// A clipped rectangle never reaches outside either of the two rectangles it
/// was clipped from.
pub proof fn lemma_intersection_within_both(c: ScissorRect, r: ScissorRect, px: int, py: int)
    requires
        edges_fit(c),
        edges_fit(r),
    ensures
        covers(spec_intersect(c, r), px, py) <==> (covers(c, px, py) && covers(r, px, py)),
{
}

/// The order of the two rectangles does not matter to their intersection.
pub proof fn lemma_intersection_commutes(c: ScissorRect, r: ScissorRect)
    ensures
        spec_intersect(c, r) == spec_intersect(r, c),
{
}

/// Clipping a rectangle to itself leaves a non-empty rectangle unchanged.
pub proof fn lemma_intersection_idempotent(r: ScissorRect)
    requires
        r.2 > 0,
        r.3 > 0,
    ensures
        spec_intersect(r, r) == r,
{
}

} // verus!
