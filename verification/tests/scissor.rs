use gloomy::scissor::{intersect_scissors, ScissorStack};

#[test]
fn test_push_scissor_first_rect_is_adopted() {
    let rect = (10u32, 20u32, 100u32, 200u32);
    let result = intersect_scissors(None, Some(rect));
    assert_eq!(
        result,
        Some(rect),
        "first scissor must be adopted when current_scissor is None"
    );
}

#[test]
fn test_push_scissor_none_on_none_stays_none() {
    let result = intersect_scissors(None, None);
    assert_eq!(result, None);
}

#[test]
fn test_push_scissor_intersection_overlapping() {
    let current = Some((0u32, 0u32, 100u32, 100u32));
    let new_rect = Some((50u32, 50u32, 150u32, 150u32));
    let result = intersect_scissors(current, new_rect);
    assert_eq!(result, Some((50, 50, 50, 50)));
}

#[test]
fn test_push_scissor_no_overlap_yields_zero_rect() {
    let current = Some((0u32, 0u32, 50u32, 50u32));
    let new_rect = Some((100u32, 100u32, 50u32, 50u32));
    let result = intersect_scissors(current, new_rect);
    assert_eq!(result, Some((0, 0, 0, 0)));
}

#[test]
fn test_push_scissor_none_on_some_keeps_current() {
    let current = Some((10u32, 20u32, 80u32, 60u32));
    let result = intersect_scissors(current, None);
    assert_eq!(result, current);
}

#[test]
fn test_push_scissor_adjacent_rects_yield_zero() {
    let current = Some((0u32, 0u32, 100u32, 100u32));
    let new_rect = Some((100u32, 0u32, 50u32, 100u32));
    let result = intersect_scissors(current, new_rect);
    assert_eq!(result, Some((0, 0, 0, 0)));
}

#[test]
fn test_push_scissor_contained_rect() {
    let current = Some((0u32, 0u32, 200u32, 200u32));
    let new_rect = Some((50u32, 50u32, 100u32, 100u32));
    let result = intersect_scissors(current, new_rect);
    assert_eq!(result, Some((50, 50, 100, 100)));
}

#[test]
fn intersection_commutes_on_overlap() {
    let a = Some((0u32, 0u32, 100u32, 100u32));
    let b = Some((50u32, 20u32, 150u32, 30u32));
    assert_eq!(intersect_scissors(a, b), intersect_scissors(b, a));
    assert_eq!(intersect_scissors(a, b), Some((50, 20, 50, 30)));
}

#[test]
fn intersection_with_itself_is_itself() {
    let a = Some((7u32, 9u32, 30u32, 40u32));
    assert_eq!(intersect_scissors(a, a), a);
}

#[test]
fn stack_push_then_pop_restores() {
    let mut s = ScissorStack::new();
    assert_eq!(s.current(), None);
    assert_eq!(s.depth(), 0);
    s.push_scissor(Some((0, 0, 100, 100)));
    assert_eq!(s.current(), Some((0, 0, 100, 100)));
    s.push_scissor(Some((50, 50, 100, 100)));
    assert_eq!(s.current(), Some((50, 50, 50, 50)));
    assert_eq!(s.depth(), 2);
    s.pop_scissor();
    assert_eq!(s.current(), Some((0, 0, 100, 100)));
    s.pop_scissor();
    assert_eq!(s.current(), None);
    assert_eq!(s.depth(), 0);
}

#[test]
fn stack_push_none_keeps_active() {
    let mut s = ScissorStack::new();
    s.push_scissor(Some((1, 2, 3, 4)));
    s.push_scissor(None);
    assert_eq!(s.current(), Some((1, 2, 3, 4)));
    s.pop_scissor();
    assert_eq!(s.current(), Some((1, 2, 3, 4)));
}
