//! The drawing state a frame is rendered with: the scissor stack, and the
//! draw lists of shapes, text and images, which draw with the active scissor.
use vstd::prelude::*;
use crate::draw_list::DrawList;
use crate::scissor::{pop_effect, push_effect, push_fits, ScissorRect, ScissorStack};

verus! {

/// Scissor stack and draw lists of a frame.
pub struct RenderContext<P, T, I> {
    pub scissors: ScissorStack,
    pub primitives: DrawList<P>,
    pub text: DrawList<T>,
    pub images: DrawList<I>,
}

/// Each draw list draws with `s`, and holds what it held before.
pub open spec fn lists_follow<P: Copy, T: Copy, I: Copy>(
    before: RenderContext<P, T, I>,
    after: RenderContext<P, T, I>,
    s: Option<ScissorRect>,
) -> bool {
    &&& after.primitives.scissor() == s
    &&& after.text.scissor() == s
    &&& after.images.scissor() == s
    &&& after.primitives.items() == before.primitives.items()
    &&& after.primitives.batch_list() == before.primitives.batch_list()
    &&& after.text.items() == before.text.items()
    &&& after.text.batch_list() == before.text.batch_list()
    &&& after.images.items() == before.images.items()
    &&& after.images.batch_list() == before.images.batch_list()
}

impl<P: Copy, T: Copy, I: Copy> RenderContext<P, T, I> {
    /// A context with no scissor and empty draw lists.
    pub fn new() -> (c: Self)
        ensures
            c.scissors.saved().len() == 0,
            c.scissors.active().is_none(),
            c.primitives.items().len() == 0 && c.primitives.batch_list().len() == 0,
            c.text.items().len() == 0 && c.text.batch_list().len() == 0,
            c.images.items().len() == 0 && c.images.batch_list().len() == 0,
            c.primitives.scissor().is_none() && c.text.scissor().is_none() && c.images.scissor().is_none(),
    {
        RenderContext {
            scissors: ScissorStack::new(),
            primitives: DrawList::new(),
            text: DrawList::new(),
            images: DrawList::new(),
        }
    }

    /// Saves the active scissor, makes `rect` clipped to it active, and has
    /// every draw list draw with the new active scissor.
    pub fn push_scissor(&mut self, rect: Option<ScissorRect>)
        requires
            push_fits(old(self).scissors.active(), rect),
        ensures
            (final(self).scissors.saved(), final(self).scissors.active()) == push_effect(
                old(self).scissors.saved(),
                old(self).scissors.active(),
                rect,
            ),
            lists_follow(*old(self), *final(self), final(self).scissors.active()),
    {
        self.scissors.push_scissor(rect);
        let s = self.scissors.current();
        self.primitives.set_scissor(s);
        self.text.set_scissor(s);
        self.images.set_scissor(s);
    }

    /// Restores the most recently saved scissor (none when nothing is
    /// saved), and has every draw list draw with it.
    pub fn pop_scissor(&mut self)
        ensures
            (final(self).scissors.saved(), final(self).scissors.active()) == pop_effect(
                old(self).scissors.saved(),
            ),
            lists_follow(*old(self), *final(self), final(self).scissors.active()),
    {
        self.scissors.pop_scissor();
        let s = self.scissors.current();
        self.primitives.set_scissor(s);
        self.text.set_scissor(s);
        self.images.set_scissor(s);
    }
}

/// Pushing a scissor and popping it again gives back the saved scissors and
/// the active one, and every draw list draws with that active scissor again.
pub proof fn lemma_push_pop_restores_lists<P: Copy, T: Copy, I: Copy>(
    c0: RenderContext<P, T, I>,
    c1: RenderContext<P, T, I>,
    c2: RenderContext<P, T, I>,
    rect: Option<ScissorRect>,
)
    requires
        (c1.scissors.saved(), c1.scissors.active()) == push_effect(
            c0.scissors.saved(),
            c0.scissors.active(),
            rect,
        ),
        lists_follow(c0, c1, c1.scissors.active()),
        (c2.scissors.saved(), c2.scissors.active()) == pop_effect(c1.scissors.saved()),
        lists_follow(c1, c2, c2.scissors.active()),
    ensures
        c2.scissors.saved() == c0.scissors.saved(),
        c2.scissors.active() == c0.scissors.active(),
        lists_follow(c0, c2, c0.scissors.active()),
{
    assert(c0.scissors.saved().push(c0.scissors.active()).drop_last() =~= c0.scissors.saved());
}

} // verus!
