//! Pointer and keyboard-focus state: what is hovered, pressed, clicked and
//! focused, by widget identifier.
//!
//! The pointer position and per-widget scroll offsets are geometry and are
//! kept by the application next to this state.
use vstd::prelude::*;

verus! {

/// Interaction state keyed by widget identifiers.
#[derive(Debug, Clone, Default)]
pub struct InteractionState {
    /// The pointer button is held down.
    pub is_pressed: bool,
    /// Action of the widget under the pointer.
    pub hovered_action: Option<String>,
    /// Action of the widget being pressed or dragged.
    pub active_action: Option<String>,
    /// Action triggered in the current frame.
    pub triggered_action: Option<String>,
    /// Identifier of the widget with keyboard focus.
    pub focused_id: Option<String>,
    /// Identifier of the widget pressed this frame.
    pub clicked_id: Option<String>,
}

pub open spec fn opt_view(o: Option<String>) -> Option<Seq<char>> {
    match o {
        Some(s) => Some(s@),
        None => None,
    }
}

pub open spec fn ids_view(ids: Seq<String>) -> Seq<Seq<char>> {
    ids.map_values(|s: String| s@)
}

/// Index of the first occurrence of `x` in `ids` at or after `from`.
pub open spec fn first_index(ids: Seq<Seq<char>>, x: Seq<char>, from: int) -> Option<int>
    decreases ids.len() - from,
{
    if from < 0 || from >= ids.len() {
        None
    } else if ids[from] == x {
        Some(from)
    } else {
        first_index(ids, x, from + 1)
    }
}

/// The focus after moving forward through `ids` from `cur`: the element
/// after the first occurrence of `cur` (wrapping around), or the first
/// element when `cur` is not in the list; nothing when the list is empty.
pub open spec fn next_focus(ids: Seq<Seq<char>>, cur: Option<Seq<char>>) -> Option<Seq<char>> {
    if ids.len() == 0 {
        None
    } else {
        match cur {
            Some(c) => match first_index(ids, c, 0) {
                Some(i) => Some(
                    if i + 1 < ids.len() {
                        ids[i + 1]
                    } else {
                        ids[0]
                    },
                ),
                None => Some(ids[0]),
            },
            None => Some(ids[0]),
        }
    }
}

/// The focus after moving backward through `ids` from `cur`: the element
/// before the first occurrence of `cur` (wrapping around), or the last
/// element when `cur` is not in the list; nothing when the list is empty.
pub open spec fn prev_focus(ids: Seq<Seq<char>>, cur: Option<Seq<char>>) -> Option<Seq<char>> {
    if ids.len() == 0 {
        None
    } else {
        match cur {
            Some(c) => match first_index(ids, c, 0) {
                Some(i) => Some(
                    if i == 0 {
                        ids[ids.len() - 1]
                    } else {
                        ids[i - 1]
                    },
                ),
                None => Some(ids[ids.len() - 1]),
            },
            None => Some(ids[ids.len() - 1]),
        }
    }
}

/// No identifier occurs twice.
pub open spec fn distinct(ids: Seq<Seq<char>>) -> bool {
    forall|i: int, j: int| 0 <= i < j < ids.len() ==> ids[i] != ids[j]
}

proof fn lemma_first_index_found(ids: Seq<Seq<char>>, x: Seq<char>, from: int)
    ensures
        first_index(ids, x, from) matches Some(i) ==> from <= i < ids.len() && ids[i] == x && forall|
            j: int,
        | from <= j < i ==> ids[j] != x,
        first_index(ids, x, from) is None ==> forall|j: int| 0 <= from <= j < ids.len() ==> ids[j]
            != x,
    decreases ids.len() - from,
{
    if 0 <= from < ids.len() && ids[from] != x {
        lemma_first_index_found(ids, x, from + 1);
    }
}

/// Position of the first identifier equal to `x`.
fn position(ids: &[String], x: &String) -> (r: Option<usize>)
    ensures
        r == match first_index(ids_view(ids@), x@, 0) {
            Some(i) => Some(i as usize),
            None => None::<usize>,
        },
        r matches Some(i) ==> i < ids.len() && first_index(ids_view(ids@), x@, 0) == Some(i as int),
        r is None ==> first_index(ids_view(ids@), x@, 0) is None,
{
    let ghost v = ids_view(ids@);
    proof {
        lemma_first_index_found(v, x@, 0);
    }
    let mut i: usize = 0;
    while i < ids.len()
        invariant
            i <= ids.len(),
            v == ids_view(ids@),
            first_index(v, x@, i as int) == first_index(v, x@, 0),
        decreases ids.len() - i,
    {
        if ids[i] == *x {
            return Some(i);
        }
        i = i + 1;
    }
    None
}

impl InteractionState {
    /// A state with nothing hovered, pressed or focused.
    pub fn new() -> (s: Self)
        ensures
            !s.is_pressed,
            s.hovered_action is None,
            s.active_action is None,
            s.triggered_action is None,
            s.focused_id is None,
            s.clicked_id is None,
    {
        InteractionState {
            is_pressed: false,
            hovered_action: None,
            active_action: None,
            triggered_action: None,
            focused_id: None,
            clicked_id: None,
        }
    }

    /// Records a press or release of the pointer button; a release ends the
    /// active interaction.
    pub fn set_pressed(&mut self, pressed: bool)
        ensures
            final(self).is_pressed == pressed,
            final(self).active_action == if pressed {
                old(self).active_action
            } else {
                None
            },
            final(self).hovered_action == old(self).hovered_action,
            final(self).triggered_action == old(self).triggered_action,
            final(self).focused_id == old(self).focused_id,
            final(self).clicked_id == old(self).clicked_id,
    {
        self.is_pressed = pressed;
        if !pressed {
            self.active_action = None;
        }
    }

    /// Records the widget pressed this frame.
    pub fn set_clicked(&mut self, id: Option<String>)
        ensures
            *final(self) == (InteractionState { clicked_id: id, ..*old(self) }),
    {
        self.clicked_id = id;
    }

    /// Records the widget being dragged.
    pub fn set_active(&mut self, id: Option<String>)
        ensures
            *final(self) == (InteractionState { active_action: id, ..*old(self) }),
    {
        self.active_action = id;
    }

    /// The widget with this action is under the pointer.
    pub fn is_hovered(&self, action: &str) -> (b: bool)
        ensures
            b == (opt_view(self.hovered_action) == Some(action@)),
    {
        match &self.hovered_action {
            Some(h) => {
                let a = action.to_string();
                *h == a
            },
            None => false,
        }
    }

    /// The widget with this action is being pressed.
    pub fn is_active(&self, action: &str) -> (b: bool)
        ensures
            b == (opt_view(self.active_action) == Some(action@)),
    {
        match &self.active_action {
            Some(h) => {
                let a = action.to_string();
                *h == a
            },
            None => false,
        }
    }

    /// Moves keyboard focus to the next identifier of `focusable_ids`.
    pub fn focus_next(&mut self, focusable_ids: &[String])
        ensures
            opt_view(final(self).focused_id) == next_focus(
                ids_view(focusable_ids@),
                opt_view(old(self).focused_id),
            ),
            final(self).is_pressed == old(self).is_pressed,
            final(self).hovered_action == old(self).hovered_action,
            final(self).active_action == old(self).active_action,
            final(self).triggered_action == old(self).triggered_action,
            final(self).clicked_id == old(self).clicked_id,
    {
        let n = focusable_ids.len();
        let ghost v = ids_view(focusable_ids@);
        assert(v.len() == n);
        assert(forall|k: int| 0 <= k < n ==> v[k] == focusable_ids@[k]@);
        if n == 0 {
            self.focused_id = None;
            return;
        }
        let next = match &self.focused_id {
            Some(current) => match position(focusable_ids, current) {
                Some(idx) => if idx + 1 < n {
                    focusable_ids[idx + 1].clone()
                } else {
                    focusable_ids[0].clone()
                },
                None => focusable_ids[0].clone(),
            },
            None => focusable_ids[0].clone(),
        };
        self.focused_id = Some(next);
    }

    /// Moves keyboard focus to the previous identifier of `focusable_ids`.
    pub fn focus_prev(&mut self, focusable_ids: &[String])
        ensures
            opt_view(final(self).focused_id) == prev_focus(
                ids_view(focusable_ids@),
                opt_view(old(self).focused_id),
            ),
            final(self).is_pressed == old(self).is_pressed,
            final(self).hovered_action == old(self).hovered_action,
            final(self).active_action == old(self).active_action,
            final(self).triggered_action == old(self).triggered_action,
            final(self).clicked_id == old(self).clicked_id,
    {
        let n = focusable_ids.len();
        let ghost v = ids_view(focusable_ids@);
        assert(v.len() == n);
        assert(forall|k: int| 0 <= k < n ==> v[k] == focusable_ids@[k]@);
        if n == 0 {
            self.focused_id = None;
            return;
        }
        let prev = match &self.focused_id {
            Some(current) => match position(focusable_ids, current) {
                Some(idx) => if idx == 0 {
                    focusable_ids[n - 1].clone()
                } else {
                    focusable_ids[idx - 1].clone()
                },
                None => focusable_ids[n - 1].clone(),
            },
            None => focusable_ids[n - 1].clone(),
        };
        self.focused_id = Some(prev);
    }

    /// Updates hover from a hit test; while the button is held, the hit
    /// widget also becomes active and focused, and a miss clears focus.
    pub fn handle_hit(&mut self, action_id: Option<String>)
        ensures
            final(self).hovered_action == action_id,
            final(self).active_action == if old(self).is_pressed && action_id is Some {
                action_id
            } else {
                old(self).active_action
            },
            final(self).focused_id == if old(self).is_pressed {
                action_id
            } else {
                old(self).focused_id
            },
            final(self).is_pressed == old(self).is_pressed,
            final(self).triggered_action == old(self).triggered_action,
            final(self).clicked_id == old(self).clicked_id,
    {
        match action_id {
            Some(act) => {
                self.hovered_action = Some(act);
                if self.is_pressed {
                    self.active_action = self.hovered_action.clone();
                    self.focused_id = self.hovered_action.clone();
                }
            },
            None => {
                self.hovered_action = None;
                if self.is_pressed {
                    self.focused_id = None;
                }
            },
        }
    }
}

/// With distinct identifiers, moving focus forward and then back returns to
/// the identifier that had focus.
pub proof fn lemma_focus_next_then_prev(ids: Seq<Seq<char>>, c: Seq<char>)
    requires
        distinct(ids),
        ids.contains(c),
    ensures
        prev_focus(ids, next_focus(ids, Some(c))) == Some(c),
{
    let k = choose|k: int| 0 <= k < ids.len() && ids[k] == c;
    lemma_first_index_found(ids, c, 0);
    let i = first_index(ids, c, 0)->Some_0;
    assert(i == k);
    let n = ids.len() as int;
    let j = if i + 1 < n { i + 1 } else { 0 };
    let d = ids[j];
    lemma_first_index_found(ids, d, 0);
    assert(first_index(ids, d, 0) == Some(j));
}

/// With distinct identifiers, moving focus back and then forward returns to
/// the identifier that had focus.
pub proof fn lemma_focus_prev_then_next(ids: Seq<Seq<char>>, c: Seq<char>)
    requires
        distinct(ids),
        ids.contains(c),
    ensures
        next_focus(ids, prev_focus(ids, Some(c))) == Some(c),
{
    lemma_first_index_found(ids, c, 0);
    let i = first_index(ids, c, 0)->Some_0;
    let n = ids.len() as int;
    let j = if i == 0 { n - 1 } else { i - 1 };
    let d = ids[j];
    lemma_first_index_found(ids, d, 0);
    assert(first_index(ids, d, 0) == Some(j));
}

/// With a non-empty list, focus always lands on one of its identifiers.
pub proof fn lemma_focus_stays_in_list(ids: Seq<Seq<char>>, cur: Option<Seq<char>>)
    requires
        ids.len() > 0,
    ensures
        next_focus(ids, cur) matches Some(f) && ids.contains(f),
        prev_focus(ids, cur) matches Some(f) && ids.contains(f),
{
    let n = ids.len() as int;
    match cur {
        Some(c) => {
            lemma_first_index_found(ids, c, 0);
            match first_index(ids, c, 0) {
                Some(i) => {
                    let j = if i + 1 < n { i + 1 } else { 0 };
                    assert(ids[j] == next_focus(ids, cur)->Some_0);
                    let p = if i == 0 { n - 1 } else { i - 1 };
                    assert(ids[p] == prev_focus(ids, cur)->Some_0);
                },
                None => {
                    assert(ids[0] == next_focus(ids, cur)->Some_0);
                    assert(ids[n - 1] == prev_focus(ids, cur)->Some_0);
                },
            }
        },
        None => {
            assert(ids[0] == next_focus(ids, cur)->Some_0);
            assert(ids[n - 1] == prev_focus(ids, cur)->Some_0);
        },
    }
}

} // verus!
