use gloomy::draw_list::{clamp_scissor, DrawList};

#[test]
fn shapes_merge_until_the_scissor_changes() {
    let mut d: DrawList<u32> = DrawList::new();
    d.push_merged(1);
    d.push_merged(2);
    assert_eq!(d.counts(), (2, 1));
    let prev = d.set_scissor(Some((0, 0, 10, 10)));
    assert_eq!(prev, None);
    d.push_merged(3);
    assert_eq!(d.counts(), (3, 2));
    d.push_merged(4);
    assert_eq!(d.counts(), (4, 2));
    d.set_scissor(None);
    d.push_merged(5);
    assert_eq!(d.counts(), (5, 3));
}

#[test]
fn images_get_a_batch_each() {
    let mut d: DrawList<u32> = DrawList::new();
    d.push_single(1);
    d.push_single(2);
    assert_eq!(d.counts(), (2, 2));
}

#[test]
fn capture_and_replay_carry_draws_along() {
    let mut d: DrawList<i32> = DrawList::new();
    d.push_single(10);
    let (si, sb) = d.counts();
    d.set_scissor(Some((1, 2, 3, 4)));
    d.push_single(20);
    d.push_single(30);
    let snap = d.capture(si, sb);
    assert_eq!(snap.instances, vec![20, 30]);
    assert_eq!(snap.batches.len(), 2);
    assert_eq!(snap.batches[0].start, 0);
    assert_eq!(snap.batches[1].start, 1);
    assert_eq!(snap.batches[1].scissor, Some((1, 2, 3, 4)));

    let mut e: DrawList<i32> = DrawList::new();
    e.push_merged(0);
    e.push_merged(0);
    e.replay(&snap, |x| x + 5);
    assert_eq!(e.counts(), (4, 3));
    let again = e.capture(2, 1);
    assert_eq!(again.instances, vec![25, 35]);
    assert_eq!(again.batches[0].start, 0);
    assert_eq!(again.batches[1].start, 1);
    let whole = e.capture(0, 0);
    assert_eq!(whole.batches[1].start, 2);
    assert_eq!(whole.batches[2].start, 3);
    e.finish_frame();
    assert_eq!(e.counts(), (0, 0));
}

#[test]
fn capture_past_the_end_is_empty() {
    let mut d: DrawList<u8> = DrawList::new();
    d.push_single(1);
    let snap = d.capture(5, 5);
    assert!(snap.instances.is_empty());
    assert!(snap.batches.is_empty());
}

#[test]
fn scissors_are_cut_to_the_surface() {
    assert_eq!(clamp_scissor(None, 800, 600), (0, 0, 800, 600));
    assert_eq!(clamp_scissor(Some((700, 500, 200, 200)), 800, 600), (700, 500, 100, 100));
    assert_eq!(clamp_scissor(Some((900, 10, 20, 20)), 800, 600), (0, 0, 0, 0));
    assert_eq!(clamp_scissor(Some((10, 10, 0, 20)), 800, 600), (0, 0, 0, 0));
}
