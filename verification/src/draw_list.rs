//! Draw lists: the instances a renderer draws in a frame, grouped into
//! batches that share a scissor rectangle, with capture and replay of a
//! frame's tail for cached widgets.
//!
//! A batch covers the instances `start .. start + count`. Shapes are batched
//! by merging: an instance joins the last batch when that batch ends right
//! before it and has the current scissor. Images get a batch each. A capture
//! copies the instances and batches recorded since given counts, with batch
//! starts made relative to the first captured instance; a replay appends
//! them, moved by the caller, with batch starts shifted to where they land.
use vstd::prelude::*;
use crate::scissor::ScissorRect;

verus! {

/// A run of instances drawn with one scissor rectangle.
#[derive(Debug, Clone, Copy)]
pub struct DrawBatch {
    pub scissor: Option<ScissorRect>,
    pub start: u32,
    pub count: u32,
}

pub open spec fn batch_end(b: DrawBatch) -> int {
    b.start + b.count
}

/// Instances and batches recorded in a frame, and the current scissor.
#[derive(Debug)]
pub struct DrawList<I> {
    instances: Vec<I>,
    batches: Vec<DrawBatch>,
    current_scissor: Option<ScissorRect>,
}

/// Captured instances and batches, batch starts relative to the capture.
#[derive(Debug)]
pub struct DrawSnapshot<I> {
    pub instances: Vec<I>,
    pub batches: Vec<DrawBatch>,
}

/// The batches lie end to end from instance 0 to instance `n`, none empty.
pub open spec fn tiles(batches: Seq<DrawBatch>, n: int) -> bool {
    &&& batches.len() == 0 ==> n == 0
    &&& batches.len() > 0 ==> batches[0].start == 0 && batch_end(batches.last()) == n
    &&& forall|k: int| 0 <= k < batches.len() ==> #[trigger] batches[k].count >= 1
    &&& forall|k: int| 0 <= k < batches.len() - 1 ==> #[trigger] batches[k + 1].start == batch_end(batches[k])
}

/// The batches after merging in instance number `n`, drawn with `scissor`.
pub open spec fn merged(batches: Seq<DrawBatch>, n: int, scissor: Option<ScissorRect>) -> Seq<DrawBatch> {
    if batches.len() > 0 && batches.last().scissor == scissor && batch_end(batches.last()) == n {
        batches.update(
            batches.len() - 1,
            DrawBatch { count: (batches.last().count + 1) as u32, ..batches.last() },
        )
    } else {
        batches.push(DrawBatch { scissor, start: n as u32, count: 1 })
    }
}

/// The instances captured from number `si` on.
pub open spec fn captured_instances<I>(items: Seq<I>, si: int) -> Seq<I> {
    if si < items.len() {
        items.subrange(si, items.len() as int)
    } else {
        Seq::empty()
    }
}

/// The batches captured from number `sb` on, with starts relative to `si`.
pub open spec fn captured_batches(batches: Seq<DrawBatch>, si: int, sb: int) -> Seq<DrawBatch> {
    if sb < batches.len() {
        Seq::new(
            (batches.len() - sb) as nat,
            |k: int| DrawBatch { start: (batches[sb + k].start - si) as u32, ..batches[sb + k] },
        )
    } else {
        Seq::empty()
    }
}

/// Batches replayed onto a list of `base` instances.
pub open spec fn shifted_batches(batches: Seq<DrawBatch>, base: int) -> Seq<DrawBatch> {
    batches.map_values(|b: DrawBatch| DrawBatch { start: (b.start + base) as u32, ..b })
}

/// A capture is possible: the captured batches start at or after the first
/// captured instance.
pub open spec fn capture_ok(batches: Seq<DrawBatch>, si: int, sb: int) -> bool {
    forall|k: int| sb <= k < batches.len() ==> #[trigger] batches[k].start >= si
}

impl<I: Copy> DrawList<I> {
    pub closed spec fn items(&self) -> Seq<I> {
        self.instances@
    }

    pub closed spec fn batch_list(&self) -> Seq<DrawBatch> {
        self.batches@
    }

    pub closed spec fn scissor(&self) -> Option<ScissorRect> {
        self.current_scissor
    }

    /// An empty list without scissor.
    pub fn new() -> (d: Self)
        ensures
            d.items().len() == 0,
            d.batch_list().len() == 0,
            d.scissor().is_none(),
    {
        DrawList { instances: Vec::new(), batches: Vec::new(), current_scissor: None }
    }

    /// Sets the scissor for the instances that follow; returns the previous.
    pub fn set_scissor(&mut self, rect: Option<ScissorRect>) -> (prev: Option<ScissorRect>)
        ensures
            prev == old(self).scissor(),
            final(self).scissor() == rect,
            final(self).items() == old(self).items(),
            final(self).batch_list() == old(self).batch_list(),
    {
        let prev = self.current_scissor;
        self.current_scissor = rect;
        prev
    }

    /// Adds an instance, extending the last batch when it ends right before
    /// the instance and has the current scissor.
    pub fn push_merged(&mut self, inst: I)
        requires
            old(self).items().len() < u32::MAX,
            old(self).batch_list().len() > 0 ==> batch_end(old(self).batch_list().last())
                <= old(self).items().len(),
        ensures
            final(self).items() == old(self).items().push(inst),
            final(self).batch_list() == merged(
                old(self).batch_list(),
                old(self).items().len() as int,
                old(self).scissor(),
            ),
            final(self).scissor() == old(self).scissor(),
    {
        let idx = self.instances.len() as u32;
        self.instances.push(inst);
        let n = self.batches.len();
        if n > 0 {
            let last = self.batches[n - 1];
            if same_scissor(last.scissor, self.current_scissor) && last.start as u64 + last.count as u64
                == idx as u64 {
                self.batches.set(n - 1, DrawBatch { count: last.count + 1, ..last });
                return;
            }
        }
        self.batches.push(DrawBatch { scissor: self.current_scissor, start: idx, count: 1 });
    }

    /// Adds an instance in a batch of its own.
    pub fn push_single(&mut self, inst: I)
        requires
            old(self).items().len() < u32::MAX,
        ensures
            final(self).items() == old(self).items().push(inst),
            final(self).batch_list() == old(self).batch_list().push(
                DrawBatch {
                    scissor: old(self).scissor(),
                    start: old(self).items().len() as u32,
                    count: 1,
                },
            ),
            final(self).scissor() == old(self).scissor(),
    {
        let idx = self.instances.len() as u32;
        self.instances.push(inst);
        self.batches.push(DrawBatch { scissor: self.current_scissor, start: idx, count: 1 });
    }

    /// The numbers of instances and batches recorded so far.
    pub fn counts(&self) -> (c: (usize, usize))
        ensures
            c.0 == self.items().len(),
            c.1 == self.batch_list().len(),
    {
        (self.instances.len(), self.batches.len())
    }

    /// The instances from number `si` on and the batches from number `sb` on,
    /// batch starts made relative to instance `si`.
    pub fn capture(&self, si: usize, sb: usize) -> (s: DrawSnapshot<I>)
        requires
            capture_ok(self.batch_list(), si as int, sb as int),
        ensures
            s.instances@ == captured_instances(self.items(), si as int),
            s.batches@ == captured_batches(self.batch_list(), si as int, sb as int),
    {
        let mut instances: Vec<I> = Vec::new();
        let n = self.instances.len();
        if si < n {
            let mut k: usize = si;
            while k < n
                invariant
                    si <= k <= n,
                    n == self.instances@.len(),
                    instances@ == self.instances@.subrange(si as int, k as int),
                decreases n - k,
            {
                instances.push(self.instances[k]);
                k = k + 1;
                assert(instances@ =~= self.instances@.subrange(si as int, k as int));
            }
        }
        let mut batches: Vec<DrawBatch> = Vec::new();
        let m = self.batches.len();
        if sb < m {
            let mut k: usize = sb;
            while k < m
                invariant
                    sb <= k <= m,
                    m == self.batches@.len(),
                    capture_ok(self.batches@, si as int, sb as int),
                    batches@ =~= Seq::new(
                        (k - sb) as nat,
                        |j: int|
                            DrawBatch {
                                start: (self.batches@[sb + j].start - si) as u32,
                                ..self.batches@[sb + j]
                            },
                    ),
                decreases m - k,
            {
                let b = self.batches[k];
                assert(b.start >= si);
                batches.push(DrawBatch { start: b.start - si as u32, ..b });
                k = k + 1;
            }
        }
        DrawSnapshot { instances, batches }
    }

    /// Appends a captured snapshot, each instance moved by `shift`, batch
    /// starts shifted to where its instances land.
    pub fn replay<F: Fn(I) -> I>(&mut self, snap: &DrawSnapshot<I>, shift: F)
        requires
            forall|k: int| 0 <= k < snap.instances@.len() ==> shift.requires((snap.instances@[k],)),
            old(self).items().len() <= u32::MAX,
            forall|k: int|
                0 <= k < snap.batches@.len() ==> #[trigger] snap.batches@[k].start + old(
                    self,
                ).items().len() <= u32::MAX,
            old(self).items().len() + snap.instances@.len() <= usize::MAX,
        ensures
            final(self).items().len() == old(self).items().len() + snap.instances@.len(),
            final(self).items().subrange(0, old(self).items().len() as int) == old(self).items(),
            forall|k: int|
                0 <= k < snap.instances@.len() ==> shift.ensures(
                    (snap.instances@[k],),
                    #[trigger] final(self).items()[old(self).items().len() + k],
                ),
            final(self).batch_list() == old(self).batch_list() + shifted_batches(
                snap.batches@,
                old(self).items().len() as int,
            ),
            final(self).scissor() == old(self).scissor(),
    {
        let base = self.instances.len();
        let ghost items0 = self.instances@;
        let mut k: usize = 0;
        while k < snap.instances.len()
            invariant
                k <= snap.instances@.len(),
                base == items0.len(),
                base + snap.instances@.len() <= usize::MAX,
                forall|j: int| 0 <= j < snap.instances@.len() ==> shift.requires((snap.instances@[j],)),
                self.instances@.len() == base + k,
                self.instances@.subrange(0, base as int) == items0,
                forall|j: int|
                    0 <= j < k ==> shift.ensures(
                        (snap.instances@[j],),
                        #[trigger] self.instances@[base + j],
                    ),
                self.batches@ == old(self).batches@,
                self.current_scissor == old(self).current_scissor,
            decreases snap.instances@.len() - k,
        {
            let moved = shift(snap.instances[k]);
            let ghost before = self.instances@;
            self.instances.push(moved);
            proof {
                assert(self.instances@.subrange(0, base as int) =~= before.subrange(0, base as int));
                assert forall|j: int| 0 <= j < k + 1 implies shift.ensures(
                    (snap.instances@[j],),
                    #[trigger] self.instances@[base + j],
                ) by {
                    if j < k {
                        assert(self.instances@[base + j] == before[base + j]);
                    }
                }
            }
            k = k + 1;
        }
        let base32 = base as u32;
        let ghost batches0 = self.batches@;
        let ghost items1 = self.instances@;
        let mut b: usize = 0;
        while b < snap.batches.len()
            invariant
                b <= snap.batches@.len(),
                base32 == base,
                base <= u32::MAX,
                forall|j: int|
                    0 <= j < snap.batches@.len() ==> #[trigger] snap.batches@[j].start + base <= u32::MAX,
                batches0 == old(self).batches@,
                self.instances@ == items1,
                self.current_scissor == old(self).current_scissor,
                self.batches@ =~= batches0 + shifted_batches(snap.batches@.subrange(0, b as int), base as int),
            decreases snap.batches@.len() - b,
        {
            let sb = snap.batches[b];
            self.batches.push(DrawBatch { start: sb.start + base32, ..sb });
            proof {
                assert(snap.batches@.subrange(0, b + 1) =~= snap.batches@.subrange(0, b as int).push(sb));
            }
            b = b + 1;
        }
        assert(snap.batches@.subrange(0, b as int) =~= snap.batches@);
    }

    /// Forgets the frame's instances and batches.
    pub fn clear(&mut self)
        ensures
            final(self).items().len() == 0,
            final(self).batch_list().len() == 0,
            final(self).scissor() == old(self).scissor(),
    {
        self.instances.clear();
        self.batches.clear();
    }

    /// Ends a frame: forgets its instances and batches and the scissor.
    pub fn finish_frame(&mut self)
        ensures
            final(self).items().len() == 0,
            final(self).batch_list().len() == 0,
            final(self).scissor().is_none(),
    {
        self.instances.clear();
        self.batches.clear();
        self.current_scissor = None;
    }
}

fn same_scissor(a: Option<ScissorRect>, b: Option<ScissorRect>) -> (eq: bool)
    ensures
        eq == (a == b),
{
    match (a, b) {
        (Some(x), Some(y)) => x.0 == y.0 && x.1 == y.1 && x.2 == y.2 && x.3 == y.3,
        (None, None) => true,
        _ => false,
    }
}

/// The scissor rectangle a batch is drawn with on a surface `fw` by `fh`:
/// its rectangle cut to the surface (the zero rectangle when nothing is
/// left), or the whole surface without one.
pub open spec fn surface_scissor(s: Option<ScissorRect>, fw: u32, fh: u32) -> ScissorRect {
    match s {
        Some(r) => {
            let sx = if r.0 <= fw { r.0 } else { fw };
            let sy = if r.1 <= fh { r.1 } else { fh };
            let sw = if r.2 <= fw - sx { r.2 } else { (fw - sx) as u32 };
            let sh = if r.3 <= fh - sy { r.3 } else { (fh - sy) as u32 };
            if sw > 0 && sh > 0 {
                (sx, sy, sw, sh)
            } else {
                (0, 0, 0, 0)
            }
        },
        None => (0, 0, fw, fh),
    }
}

/// Cuts a batch's scissor rectangle to a surface `fw` by `fh`.
pub fn clamp_scissor(s: Option<ScissorRect>, fw: u32, fh: u32) -> (r: ScissorRect)
    ensures
        r == surface_scissor(s, fw, fh),
{
    match s {
        Some((x, y, w, h)) => {
            let sx = if x <= fw { x } else { fw };
            let sy = if y <= fh { y } else { fh };
            let sw = if w <= fw - sx { w } else { fw - sx };
            let sh = if h <= fh - sy { h } else { fh - sy };
            if sw > 0 && sh > 0 {
                (sx, sy, sw, sh)
            } else {
                (0, 0, 0, 0)
            }
        },
        None => (0, 0, fw, fh),
    }
}

/// Merging in the next instance keeps the batches end to end over all the
/// instances, and the new instance lies in the last batch, which has the
/// scissor it was drawn with.
pub proof fn lemma_merge_keeps_tiling(batches: Seq<DrawBatch>, n: int, s: Option<ScissorRect>)
    requires
        tiles(batches, n),
        n < u32::MAX,
    ensures
        tiles(merged(batches, n, s), n + 1),
        merged(batches, n, s).last().scissor == s,
        merged(batches, n, s).last().start <= n < batch_end(merged(batches, n, s).last()),
{
    let m = merged(batches, n, s);
    if batches.len() > 0 && batches.last().scissor == s && batch_end(batches.last()) == n {
        assert forall|k: int| 0 <= k < m.len() - 1 implies #[trigger] m[k + 1].start == batch_end(m[k]) by {
            assert(batches[k + 1].start == batch_end(batches[k]));
        }
        assert forall|k: int| 0 <= k < m.len() implies #[trigger] m[k].count >= 1 by {
            assert(batches[k].count >= 1);
        }
    } else {
        assert forall|k: int| 0 <= k < m.len() - 1 implies #[trigger] m[k + 1].start == batch_end(m[k]) by {
            if k < batches.len() - 1 {
                assert(batches[k + 1].start == batch_end(batches[k]));
            }
        }
        assert forall|k: int| 0 <= k < m.len() implies #[trigger] m[k].count >= 1 by {
            if k < batches.len() {
                assert(batches[k].count >= 1);
            }
        }
    }
}

/// Batches that lie end to end put every instance in exactly one batch.
pub proof fn lemma_tiles_cover(batches: Seq<DrawBatch>, n: int, i: int)
    requires
        tiles(batches, n),
        0 <= i < n,
    ensures
        exists|k: int|
            0 <= k < batches.len() && batches[k].start <= i < batch_end(#[trigger] batches[k]),
        forall|k1: int, k2: int|
            #![trigger batches[k1], batches[k2]]
            0 <= k1 < batches.len() && 0 <= k2 < batches.len() && batches[k1].start <= i < batch_end(
                batches[k1],
            ) && batches[k2].start <= i < batch_end(batches[k2]) ==> k1 == k2,
{
    lemma_starts_increase(batches, n);
    let k = choose_batch(batches, n, i, batches.len() - 1);
    assert(batches[k].start <= i < batch_end(batches[k]));
}

proof fn lemma_starts_increase(batches: Seq<DrawBatch>, n: int)
    requires
        tiles(batches, n),
    ensures
        forall|a: int, b: int| 0 <= a < b < batches.len() ==> batch_end(batches[a]) <= batches[b].start,
{
    assert forall|a: int, b: int| 0 <= a < b < batches.len() implies batch_end(batches[a])
        <= batches[b].start by {
        lemma_starts_between(batches, n, a, b);
    }
}

proof fn lemma_starts_between(batches: Seq<DrawBatch>, n: int, a: int, b: int)
    requires
        tiles(batches, n),
        0 <= a < b < batches.len(),
    ensures
        batch_end(batches[a]) <= batches[b].start,
    decreases b - a,
{
    assert(batches[(b - 1) + 1].start == batch_end(batches[b - 1]));
    if a < b - 1 {
        lemma_starts_between(batches, n, a, b - 1);
        assert(batches[b - 1].count >= 1);
    }
}

/// The last batch, at or below `k`, that starts at or before `i`.
proof fn choose_batch(batches: Seq<DrawBatch>, n: int, i: int, k: int) -> (r: int)
    requires
        tiles(batches, n),
        0 <= i < n,
        0 <= k < batches.len(),
        i < batch_end(batches[k]),
    ensures
        0 <= r <= k,
        batches[r].start <= i < batch_end(batches[r]),
    decreases k,
{
    if batches[k].start <= i {
        k
    } else {
        assert(k > 0);
        assert(batches[(k - 1) + 1].start == batch_end(batches[k - 1]));
        choose_batch(batches, n, i, k - 1)
    }
}

/// Replaying a capture, instances unmoved, onto a list of instances `target`
/// draws each captured batch, with its scissor, over the same instances it
/// covered when it was captured.
pub proof fn lemma_replay_reproduces_capture<I>(
    items: Seq<I>,
    batches: Seq<DrawBatch>,
    si: int,
    sb: int,
    target: Seq<I>,
    k: int,
    j: int,
)
    requires
        0 <= si <= items.len(),
        0 <= sb,
        capture_ok(batches, si, sb),
        0 <= k,
        sb + k < batches.len(),
        0 <= j < batches[sb + k].count,
        batch_end(batches[sb + k]) <= items.len(),
        batches[sb + k].start - si + target.len() <= u32::MAX,
    ensures
        ({
            let out = target + captured_instances(items, si);
            let b = shifted_batches(captured_batches(batches, si, sb), target.len() as int)[k];
            &&& b.scissor == batches[sb + k].scissor
            &&& b.count == batches[sb + k].count
            &&& out[b.start + j] == items[batches[sb + k].start + j]
        }),
{
    let b0 = batches[sb + k];
    assert(b0.start >= si);
    let cb = captured_batches(batches, si, sb);
    assert(cb[k] == DrawBatch { start: (b0.start - si) as u32, ..b0 });
    let out = target + captured_instances(items, si);
    let t = b0.start - si + j;
    assert(si < items.len());
    assert(out[target.len() + t] == items[si + t]);
}

} // verus!
