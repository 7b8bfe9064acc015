use gloomy::rich_text::{RichText, TextStyle};
use gloomy::widget_state::WidgetStateTracker;

#[test]
fn test_cache_hit() {
    let mut tracker = WidgetStateTracker::new();
    let text = "Hello World";
    let widget_id = 1;

    let (is_dirty, cached) = tracker.check_text_cache(widget_id, text);
    assert!(is_dirty);
    assert!(cached.is_none());

    let rich_text = RichText::parse(text, TextStyle::default());
    tracker.store_text_cache(widget_id, text, rich_text);

    let (is_dirty, cached) = tracker.check_text_cache(widget_id, text);
    assert!(!is_dirty);
    assert!(cached.is_some());
}

#[test]
fn test_cache_invalidation() {
    let mut tracker = WidgetStateTracker::new();
    let widget_id = 1;
    let text1 = "Hello";
    let rich_text = RichText::parse(text1, TextStyle::default());
    tracker.store_text_cache(widget_id, text1, rich_text);

    let text2 = "World";
    let (is_dirty, _) = tracker.check_text_cache(widget_id, text2);
    assert!(is_dirty);
}

#[test]
fn hash_is_stable_and_tells_texts_apart() {
    let a = WidgetStateTracker::compute_hash("Hello");
    assert_eq!(a, WidgetStateTracker::compute_hash("Hello"));
    assert_ne!(a, WidgetStateTracker::compute_hash("World"));
}

#[test]
fn cached_parse_is_returned_and_cleared() {
    let mut tracker = WidgetStateTracker::new();
    tracker.store_text_cache(3, "<b>x</b>", RichText::parse("<b>x</b>", TextStyle::default()));
    let (dirty, cached) = tracker.check_text_cache(3, "<b>x</b>");
    assert!(!dirty);
    let rt = cached.unwrap();
    assert_eq!(rt.to_plain(), "x");
    assert!(rt.spans[0].style.bold);
    assert_eq!(tracker.len(), 1);
    let h = WidgetStateTracker::compute_hash("y");
    tracker.store_by_hash(h, RichText::parse("y", TextStyle::default()));
    assert_eq!(tracker.get_by_hash(h).unwrap().to_plain(), "y");
    tracker.clear();
    assert!(tracker.is_empty());
    assert!(tracker.check_text_cache(3, "<b>x</b>").0);
}
