//! The mathematical picture of a hub: frames of blocks, and who stands where.
use crate::cells::signal_of;
use pulse::{Pulse, Signal};
use vstd::multiset::Multiset;
use vstd::prelude::*;

verus! {

/// One block of a frame: what it carries, the signal its readers wait on, and
/// the pulse of that signal while it has not been fired.
pub struct BlockView<D> {
    pub data: Option<D>,
    pub signal: Option<Signal>,
    pub armed: Option<Pulse>,
}

/// The state of a hub.
///
/// `frames[f][b]` is block `b` of frame `f`. `writers` counts, for every frame,
/// the senders that stand in it. `handles` holds the position `(f, b)` of every
/// pointer into the chain, of senders and receivers alike. `fired` lists the
/// pulses that were fired, in order.
pub struct HubView<D> {
    pub frames: Seq<Seq<BlockView<D>>>,
    pub writers: Multiset<int>,
    pub handles: Multiset<(int, int)>,
    pub fired: Seq<Pulse>,
}

/// Whether no sender stands in frame `f` or before it, given where they stand.
pub open spec fn vacated(writers: Multiset<int>, f: int) -> bool {
    forall|g: int| g <= f ==> #[trigger] writers.count(g) == 0
}

/// Whether the pulse of `signal` is among those that were fired.
pub open spec fn rung(fired: Seq<Pulse>, signal: Signal) -> bool {
    exists|i: int| 0 <= i < fired.len() && signal_of(#[trigger] fired[i]) == signal
}

/// Firing a pulse releases its signal and no other.
proof fn lemma_rung_push(fired: Seq<Pulse>, pulse: Pulse)
    ensures
        forall|signal: Signal| #[trigger]
            rung(fired.push(pulse), signal) <==> rung(fired, signal) || signal == signal_of(pulse),
{
    let one = seq![pulse];
    assert(fired.push(pulse) =~= fired + one);
    assert forall|signal: Signal| #[trigger] rung(fired.push(pulse), signal) <==> rung(
        fired,
        signal,
    ) || signal == signal_of(pulse) by {
        lemma_rung_add(fired, one, signal);
        assert(one[0] == pulse);
    }
}

/// The order in which positions follow each other: by frame, then by block.
pub open spec fn at_or_before(p: (int, int), q: (int, int)) -> bool {
    p.0 < q.0 || (p.0 == q.0 && p.1 <= q.1)
}

proof fn lemma_rung_add(first: Seq<Pulse>, second: Seq<Pulse>, signal: Signal)
    ensures
        rung(first + second, signal) <==> rung(first, signal) || rung(second, signal),
{
    let both = first + second;
    if rung(first, signal) {
        let i = choose|i: int| 0 <= i < first.len() && signal_of(#[trigger] first[i]) == signal;
        assert(both[i] == first[i]);
    }
    if rung(second, signal) {
        let i = choose|i: int| 0 <= i < second.len() && signal_of(#[trigger] second[i]) == signal;
        assert(both[first.len() + i] == second[i]);
    }
    if rung(both, signal) {
        let i = choose|i: int| 0 <= i < both.len() && signal_of(#[trigger] both[i]) == signal;
        if i < first.len() {
            assert(both[i] == first[i]);
        } else {
            assert(both[i] == second[i - first.len()]);
        }
    }
}

impl<D> HubView<D> {
    /// Whether position `p` names a block.
    pub open spec fn has(self, p: (int, int)) -> bool {
        &&& 0 <= p.0 < self.frames.len()
        &&& 0 <= p.1 < self.frames[p.0].len()
    }

    /// The block at position `p`.
    pub open spec fn block(self, p: (int, int)) -> BlockView<D> {
        self.frames[p.0][p.1]
    }

    /// The index of the last block of frame `f`.
    pub open spec fn last(self, f: int) -> int {
        self.frames[f].len() - 1
    }

    /// The number of senders that stand in frame `f`.
    pub open spec fn senders(self, f: int) -> nat {
        self.writers.count(f)
    }

    /// Whether frame `f` has come to its end, so that nothing will ever be added to
    /// it: no sender stands in it or before it.
    pub open spec fn over(self, f: int) -> bool {
        vacated(self.writers, f)
    }

    /// Whether a frame follows frame `f`.
    pub open spec fn has_next(self, f: int) -> bool {
        f + 1 < self.frames.len()
    }

    /// Whether some pointer stands at `p` or can still come to it by moving on.
    pub open spec fn reachable(self, p: (int, int)) -> bool {
        exists|h: (int, int)| #[trigger] self.handles.contains(h) && at_or_before(h, p)
    }

    /// Whether somebody can still come to frame `f` or add to it.
    pub open spec fn in_use(self, f: int) -> bool {
        !self.over(f) || self.reachable((f, self.last(f)))
    }

    /// How many of the first `n` frames are in use.
    pub open spec fn frames_in_use(self, n: int) -> nat
        decreases n,
    {
        if n <= 0 {
            0
        } else {
            self.frames_in_use(n - 1) + (if self.in_use(n - 1) {
                1nat
            } else {
                0nat
            })
        }
    }

    /// How many of the first `n` blocks of frame `f` some pointer can come to.
    pub open spec fn blocks_in_reach(self, f: int, n: int) -> nat
        decreases n,
    {
        if n <= 0 {
            0
        } else {
            self.blocks_in_reach(f, n - 1) + (if self.reachable((f, n - 1)) {
                1nat
            } else {
                0nat
            })
        }
    }

    pub(crate) proof fn lemma_frames_in_use(self, k: int, n: int)
        requires
            0 <= k <= n,
            forall|f: int| k <= f < n ==> #[trigger] self.in_use(f),
        ensures
            self.frames_in_use(n) >= n - k,
        decreases n,
    {
        if k < n {
            self.lemma_frames_in_use(k, n - 1);
            assert(self.in_use(n - 1));
        }
    }

    pub(crate) proof fn lemma_blocks_in_reach(self, f: int, k: int, n: int)
        requires
            0 <= k <= n,
            forall|b: int| k <= b < n ==> #[trigger] self.reachable((f, b)),
        ensures
            self.blocks_in_reach(f, n) >= n - k,
        decreases n,
    {
        if k < n {
            self.lemma_blocks_in_reach(f, k, n - 1);
            assert(self.reachable((f, n - 1)));
        }
    }

    /// Every position and every frame that is counted exists, and the counts
    /// fit the machine.
    pub open spec fn well_placed(self) -> bool {
        &&& self.frames.len() >= 1
        &&& forall|f: int| 0 <= f < self.frames.len() ==> (#[trigger] self.frames[f]).len() >= 1
        &&& forall|h: (int, int)| #[trigger] self.handles.contains(h) ==> self.has(h)
        &&& forall|f: int| #[trigger]
            self.writers.contains(f) ==> 0 <= f < self.frames.len()
        &&& self.handles.len() <= usize::MAX
        &&& self.writers.len() <= usize::MAX
    }

    /// No block that nobody can come to keeps its data.
    pub open spec fn tidy(self) -> bool {
        forall|f: int, b: int|
            #![trigger self.frames[f][b]]
            self.has((f, b)) && !self.reachable((f, b)) ==> self.frames[f][b].data is None
    }

    /// Whether a reader that is through with block `p` can only wait: nothing
    /// follows the block, and some sender can still add to the frame.
    pub open spec fn quiet(self, p: (int, int)) -> bool {
        p.1 == self.last(p.0) && !self.over(p.0)
    }

    /// The pulse of a block is kept back for as long as the block is quiet, and has
    /// been fired if it is not. While a pulse is kept back, the signal of the block
    /// is the one that it releases, and nothing has released it yet.
    pub open spec fn wakeful(self) -> bool {
        &&& forall|f: int, b: int|
            #![trigger self.frames[f][b]]
            self.has((f, b)) ==> self.alert(f, b)
        &&& self.distinct()
    }

    /// What [`HubView::wakeful`] says of one block.
    pub open spec fn alert(self, f: int, b: int) -> bool {
        match self.frames[f][b].armed {
            Some(pulse) => {
                &&& self.frames[f][b].signal == Some(signal_of(pulse))
                &&& !rung(self.fired, signal_of(pulse))
                &&& self.quiet((f, b))
            },
            None => self.frames[f][b].signal is Some ==> {
                &&& rung(self.fired, self.frames[f][b].signal->0)
                &&& !self.quiet((f, b))
            },
        }
    }

    /// No two blocks have the same signal.
    pub open spec fn distinct(self) -> bool {
        forall|f: int, b: int, g: int, c: int|
            #![trigger self.frames[f][b].signal, self.frames[g][c].signal]
            self.has((f, b)) && self.has((g, c)) && self.frames[f][b].signal is Some
                && self.frames[f][b].signal == self.frames[g][c].signal ==> (f, b) == (g, c)
    }

    /// Whether `signal` is new to this hub.
    pub open spec fn unused(self, signal: Signal) -> bool {
        &&& !rung(self.fired, signal)
        &&& forall|f: int, b: int|
            #![trigger self.frames[f][b]]
            self.has((f, b)) ==> self.frames[f][b].signal != Some(signal)
    }

    /// What every operation on a hub keeps.
    pub open spec fn inv(self) -> bool {
        &&& self.well_placed()
        &&& self.tidy()
        &&& self.wakeful()
    }

    /// A hub with one block, which carries `head`, and one pointer to it.
    pub open spec fn started(head: D) -> Self {
        HubView {
            frames: seq![seq![BlockView { data: Some(head), signal: None, armed: None }]],
            writers: Multiset::empty(),
            handles: Multiset::singleton((0int, 0int)),
            fired: Seq::empty(),
        }
    }

    /// The hub with block `p` replaced.
    pub open spec fn with_block(self, p: (int, int), block: BlockView<D>) -> Self {
        HubView { frames: self.frames.update(p.0, self.frames[p.0].update(p.1, block)), ..self }
    }

    /// The hub after the data of every block that nobody can come to is dropped.
    pub open spec fn reclaimed(self) -> Self {
        HubView {
            frames: Seq::new(
                self.frames.len(),
                |f: int|
                    Seq::new(
                        self.frames[f].len(),
                        |b: int|
                            if self.reachable((f, b)) {
                                self.frames[f][b]
                            } else {
                                BlockView { data: None, ..self.frames[f][b] }
                            },
                    ),
            ),
            ..self
        }
    }

    /// One more pointer at `p`.
    pub open spec fn held(self, p: (int, int)) -> Self {
        HubView { handles: self.handles.insert(p), ..self }
    }

    /// One pointer fewer at `p`.
    pub open spec fn dropped(self, p: (int, int)) -> Self {
        HubView { handles: self.handles.remove(p), ..self }
    }

    /// The pointer at `p` is gone, and so is what only it could come to.
    pub open spec fn released(self, p: (int, int)) -> Self {
        self.dropped(p).reclaimed()
    }

    /// The pointer at `p` has moved on to `q`.
    pub open spec fn moved(self, p: (int, int), q: (int, int)) -> Self {
        self.dropped(p).held(q).reclaimed()
    }

    /// One more sender in frame `f`.
    pub open spec fn joined(self, f: int) -> Self {
        HubView { writers: self.writers.insert(f), ..self }
    }

    /// One sender fewer in frame `f`.
    pub open spec fn left(self, f: int) -> Self {
        HubView { writers: self.writers.remove(f), ..self }
    }

    /// A new block that carries `data` at the end of frame `f`.
    pub open spec fn written(self, f: int, data: D) -> Self {
        let block = BlockView { data: Some(data), signal: None, armed: None };
        HubView { frames: self.frames.update(f, self.frames[f].push(block)), ..self }
    }

    /// The pulse that block `p` kept back, if there was one, has been fired.
    pub open spec fn woken(self, p: (int, int)) -> Self {
        HubView {
            fired: match self.block(p).armed {
                Some(pulse) => self.fired.push(pulse),
                None => self.fired,
            },
            ..self.with_block(p, BlockView { armed: None, ..self.block(p) })
        }
    }

    /// A pointer that stood at `p` has put a block that carries `data` at the end
    /// of its frame and stands at that block; whoever waited at the end has been
    /// woken.
    pub open spec fn appended(self, p: (int, int), data: D) -> Self {
        let tail = (p.0, self.last(p.0));
        self.written(p.0, data).woken(tail).moved(p, (p.0, tail.1 + 1))
    }

    /// The pulses that are kept back at the ends of those of the first `n` frames
    /// that are over, in the order of the frames.
    pub open spec fn kept(self, n: int) -> Seq<Pulse>
        decreases n,
    {
        if n <= 0 {
            Seq::empty()
        } else {
            let armed = self.frames[n - 1][self.last(n - 1)].armed;
            if self.over(n - 1) && armed is Some {
                self.kept(n - 1).push(armed->0)
            } else {
                self.kept(n - 1)
            }
        }
    }

    /// Whoever waited at the end of one of the first `n` frames that is over has
    /// been woken.
    pub open spec fn swept(self, n: int) -> Self {
        HubView {
            frames: Seq::new(
                self.frames.len(),
                |f: int|
                    Seq::new(
                        self.frames[f].len(),
                        |b: int|
                            if f < n && self.over(f) && b == self.last(f) {
                                BlockView { armed: None, ..self.frames[f][b] }
                            } else {
                                self.frames[f][b]
                            },
                    ),
            ),
            fired: self.fired + self.kept(n),
            ..self
        }
    }

    /// A sender has left frame `f`. Whoever waited at the end of a frame that is
    /// over now has been woken.
    pub open spec fn departed(self, f: int) -> Self {
        let after = self.left(f);
        after.swept(after.frames.len() as int)
    }

    /// A sender of frame `f` is one of the next frame now.
    pub open spec fn passed(self, f: int) -> Self {
        HubView { writers: self.writers.remove(f).insert(f + 1), ..self }
    }

    /// A sender has gone over from frame `f` to the next. Whoever waited at the end
    /// of a frame that is over now has been woken.
    pub open spec fn promoted(self, f: int) -> Self {
        let after = self.passed(f);
        after.swept(after.frames.len() as int)
    }

    /// A sender whose pointer stood at `p` has gone over to the next frame.
    pub open spec fn advanced(self, p: (int, int), head: D) -> Self {
        self.opened(p.0, head).promoted(p.0).moved(p, (p.0 + 1, 0))
    }

    /// A sender whose pointer stood at `p` is gone.
    pub open spec fn retired(self, p: (int, int)) -> Self {
        self.departed(p.0).released(p)
    }

    /// Block `p` has been relieved of its data.
    pub open spec fn emptied(self, p: (int, int)) -> Self {
        self.with_block(p, BlockView { data: None, ..self.block(p) })
    }

    /// Block `p` has got the signal of `pulse`. The pulse is kept back if `p` is
    /// quiet, and has been fired if it is not.
    pub open spec fn awaited(self, p: (int, int), pulse: Pulse) -> Self {
        let armed = self.with_block(
            p,
            BlockView {
                signal: Some(signal_of(pulse)),
                armed: Some(pulse),
                ..self.block(p)
            },
        );
        if self.quiet(p) {
            armed
        } else {
            armed.woken(p)
        }
    }

    /// `after` is the hub once `signal` has been asked for at block `p`. A block
    /// has one signal for all who ask; the first to ask creates it.
    pub open spec fn signalled(self, p: (int, int), after: Self, signal: Signal) -> bool {
        match self.block(p).signal {
            Some(there) => after == self && signal == there,
            None => self.unused(signal) && exists|pulse: Pulse| #[trigger]
                signal_of(pulse) == signal && after == self.awaited(p, pulse),
        }
    }

    /// The frame after `f` exists; if it did not, it starts with one block that
    /// carries `head`.
    pub open spec fn opened(self, f: int, head: D) -> Self {
        if self.has_next(f) {
            self
        } else {
            let block = BlockView { data: Some(head), signal: None, armed: None };
            HubView { frames: self.frames.push(seq![block]), ..self }
        }
    }

    pub(crate) proof fn lemma_held(self, p: (int, int))
        requires
            self.well_placed(),
            self.has(p),
            self.handles.len() < usize::MAX,
        ensures
            self.held(p).well_placed(),
    {
        assert forall|h: (int, int)| #[trigger] self.held(p).handles.contains(h) implies self.held(
            p,
        ).has(h) by {
            assert(h == p || self.handles.contains(h));
        }
    }

    pub(crate) proof fn lemma_dropped(self, p: (int, int))
        requires
            self.well_placed(),
            self.handles.contains(p),
        ensures
            self.dropped(p).well_placed(),
            self.dropped(p).handles.len() == self.handles.len() - 1,
    {
        assert(Multiset::singleton(p).subset_of(self.handles));
        assert forall|h: (int, int)| #[trigger]
            self.dropped(p).handles.contains(h) implies self.dropped(p).has(h) by {
            assert(self.handles.contains(h));
        }
    }

    pub(crate) proof fn lemma_joined(self, f: int)
        requires
            self.well_placed(),
            0 <= f < self.frames.len(),
            self.writers.len() < usize::MAX,
        ensures
            self.joined(f).well_placed(),
    {
        assert forall|g: int| #[trigger] self.joined(f).writers.contains(g) implies 0 <= g
            < self.frames.len() by {
            assert(g == f || self.writers.contains(g));
        }
    }

    pub(crate) proof fn lemma_left(self, f: int)
        requires
            self.well_placed(),
            self.writers.contains(f),
        ensures
            self.left(f).well_placed(),
            self.left(f).writers.len() == self.writers.len() - 1,
    {
        assert(Multiset::singleton(f).subset_of(self.writers));
        assert forall|g: int| #[trigger] self.left(f).writers.contains(g) implies 0 <= g
            < self.frames.len() by {
            assert(self.writers.contains(g));
        }
    }

    pub(crate) proof fn lemma_written(self, f: int, data: D)
        requires
            self.well_placed(),
            0 <= f < self.frames.len(),
        ensures
            self.written(f, data).well_placed(),
    {
        assert forall|h: (int, int)| #[trigger]
            self.written(f, data).handles.contains(h) implies self.written(f, data).has(h) by {
            assert(self.handles.contains(h));
        }
        assert forall|g: int| #[trigger] self.written(f, data).writers.contains(g) implies 0 <= g
            < self.frames.len() by {
            assert(self.writers.contains(g));
        }
    }

    pub(crate) proof fn lemma_opened(self, f: int, head: D)
        requires
            self.well_placed(),
        ensures
            self.opened(f, head).well_placed(),
    {
        assert forall|h: (int, int)| #[trigger]
            self.opened(f, head).handles.contains(h) implies self.opened(f, head).has(h) by {
            assert(self.handles.contains(h));
        }
        assert forall|g: int| #[trigger] self.opened(f, head).writers.contains(g) implies 0 <= g
            < self.opened(f, head).frames.len() by {
            assert(self.writers.contains(g));
        }
    }

    /// Reclaiming changes neither who can come where nor anything but data.
    pub(crate) proof fn lemma_reclaimed(self)
        requires
            self.well_placed(),
        ensures
            self.reclaimed().well_placed(),
            self.reclaimed().tidy(),
            self.wakeful() ==> self.reclaimed().wakeful(),
            self.tidy() ==> self.reclaimed() == self,
            forall|p: (int, int)| self.reclaimed().has(p) <==> self.has(p),
            forall|p: (int, int)|
                #![trigger self.reclaimed().block(p)]
                self.has(p) && self.reachable(p) ==> self.reclaimed().block(p) == self.block(p),
    {
        let after = self.reclaimed();
        assert(after.frames.len() == self.frames.len());
        assert(forall|f: int|
            0 <= f < self.frames.len() ==> (#[trigger] after.frames[f]).len()
                == self.frames[f].len());
        assert(forall|p: (int, int)| after.has(p) <==> self.has(p));
        assert forall|h: (int, int)| #[trigger] after.handles.contains(h) implies after.has(h) by {
            assert(self.handles.contains(h));
        }
        assert forall|f: int| #[trigger] after.writers.contains(f) implies 0 <= f
            < after.frames.len() by {
            assert(self.writers.contains(f));
        }
        assert forall|p: (int, int)| #[trigger] after.reachable(p) == self.reachable(p) by {
            if self.reachable(p) {
                let h = choose|h: (int, int)| #[trigger]
                    self.handles.contains(h) && at_or_before(h, p);
                assert(after.handles.contains(h));
            }
            if after.reachable(p) {
                let h = choose|h: (int, int)| #[trigger]
                    after.handles.contains(h) && at_or_before(h, p);
                assert(self.handles.contains(h));
            }
        }
        assert forall|f: int, b: int|
            #![trigger after.frames[f][b]]
            self.has((f, b)) implies after.frames[f][b] == (if self.reachable((f, b)) {
            self.frames[f][b]
        } else {
            BlockView { data: None, ..self.frames[f][b] }
        }) by {}
        if self.tidy() {
            assert(after.frames =~~= self.frames);
        }
        assert forall|f: int| #[trigger] after.over(f) <==> self.over(f) by {}
        if self.wakeful() {
            self.lemma_alike(after);
        }
    }

    /// A hub stays as it should be when a pointer moves on.
    pub(crate) proof fn lemma_moved_inv(self, p: (int, int), q: (int, int))
        requires
            self.inv(),
            self.handles.contains(p),
            self.has(q),
            at_or_before(p, q),
        ensures
            self.moved(p, q).inv(),
    {
        self.lemma_dropped(p);
        self.dropped(p).lemma_held(q);
        self.dropped(p).held(q).lemma_reclaimed();
    }

    /// A hub stays as it should be when a pointer goes.
    pub(crate) proof fn lemma_released_inv(self, p: (int, int))
        requires
            self.inv(),
            self.handles.contains(p),
        ensures
            self.released(p).inv(),
    {
        self.lemma_dropped(p);
        self.dropped(p).lemma_reclaimed();
    }

    /// A hub stays as it should be when a pointer is added.
    pub(crate) proof fn lemma_held_inv(self, p: (int, int))
        requires
            self.inv(),
            self.has(p),
            self.handles.len() < usize::MAX,
        ensures
            self.held(p).inv(),
    {
        self.lemma_held(p);
        let after = self.held(p);
        assert forall|f: int, b: int|
            #![trigger after.frames[f][b]]
            after.has((f, b)) && !after.reachable(
                (f, b),
            ) implies after.frames[f][b].data is None by {
            if self.reachable((f, b)) {
                let h = choose|h: (int, int)| #[trigger]
                    self.handles.contains(h) && at_or_before(h, (f, b));
                assert(after.handles.contains(h));
            }
        }
    }

    /// A change that touches neither signals nor pulses, and after which the same
    /// frames are over, keeps every pulse where it should be.
    pub(crate) proof fn lemma_alike(self, after: Self)
        requires
            self.wakeful(),
            after.frames.len() == self.frames.len(),
            forall|f: int|
                #![trigger after.frames[f]]
                0 <= f < self.frames.len() ==> after.frames[f].len() == self.frames[f].len(),
            forall|f: int, b: int|
                #![trigger after.frames[f][b]]
                self.has((f, b)) ==> after.frames[f][b].signal == self.frames[f][b].signal
                    && after.frames[f][b].armed == self.frames[f][b].armed,
            after.fired == self.fired,
            forall|f: int| #[trigger] after.over(f) <==> self.over(f),
        ensures
            after.wakeful(),
    {
        assert forall|f: int, b: int|
            #![trigger after.frames[f][b]]
            after.has((f, b)) implies after.alert(f, b) by {
            let _ = after.frames[f];
            let _ = self.frames[f][b];
            assert(after.over(f) <==> self.over(f));
        }
        assert forall|f: int, b: int, g: int, c: int|
            #![trigger after.frames[f][b].signal, after.frames[g][c].signal]
            after.has((f, b)) && after.has((g, c)) && after.frames[f][b].signal is Some
                && after.frames[f][b].signal == after.frames[g][c].signal implies (f, b) == (
            g,
            c,
        ) by {
            let _ = after.frames[f];
            let _ = after.frames[g];
            assert(self.frames[f][b].signal == self.frames[g][c].signal);
        }
    }

    /// Who points where has no bearing on pulses.
    pub(crate) proof fn lemma_alike_frames(self, other: Self)
        requires
            other.wakeful(),
            self == (HubView { handles: self.handles, ..other }),
        ensures
            self.wakeful(),
    {
        other.lemma_alike(self);
    }

    /// A hub stays as it should be when a pointer appends a block.
    pub(crate) proof fn lemma_appended_inv(self, p: (int, int), data: D)
        requires
            self.inv(),
            self.handles.contains(p),
        ensures
            self.written(p.0, data).woken((p.0, self.last(p.0))).inv(),
            self.appended(p, data).inv(),
            self.appended(p, data).handles.contains((p.0, self.last(p.0) + 1)),
    {
        let tail = (p.0, self.last(p.0));
        let next = (p.0, tail.1 + 1);
        self.lemma_written(p.0, data);
        let after = self.written(p.0, data).woken(tail);
        let armed = self.frames[p.0][tail.1].armed;
        assert(self.written(p.0, data).block(tail) == self.frames[p.0][tail.1]);
        if armed is Some {
            lemma_rung_push(self.fired, armed->0);
        }
        assert(forall|f: int|
            0 <= f < after.frames.len() ==> (#[trigger] after.frames[f]).len()
                == self.frames[f].len() + (if f == p.0 {
                1int
            } else {
                0int
            }));
        assert forall|h: (int, int)| #[trigger] after.handles.contains(h) implies after.has(h) by {
            assert(self.handles.contains(h));
        }
        assert forall|f: int| #[trigger] after.writers.contains(f) implies 0 <= f
            < after.frames.len() by {
            assert(self.writers.contains(f));
        }
        assert(after.handles.contains(p));
        assert(after.reachable(next));
        assert forall|f: int, b: int|
            #![trigger after.frames[f][b]]
            after.has((f, b)) implies {
            ||| self.has((f, b)) && (f, b) != tail && after.frames[f][b] == self.frames[f][b]
            ||| (f, b) == tail && after.frames[f][b] == (BlockView {
                armed: None,
                ..self.frames[f][b]
            })
            ||| (f, b) == next && after.frames[f][b] == (BlockView {
                data: Some(data),
                signal: None,
                armed: None,
            })
        } by {}
        assert forall|f: int, b: int|
            #![trigger after.frames[f][b]]
            after.has((f, b)) && !after.reachable(
                (f, b),
            ) implies after.frames[f][b].data is None by {
            if self.has((f, b)) && self.reachable((f, b)) {
                let h = choose|h: (int, int)| #[trigger]
                    self.handles.contains(h) && at_or_before(h, (f, b));
                assert(after.handles.contains(h));
            }
        }
        assert forall|f: int, b: int|
            #![trigger after.frames[f][b]]
            after.has((f, b)) implies after.alert(f, b) by {
            if (f, b) != next {
                let _ = self.frames[f][b];
                assert(self.alert(f, b));
                if (f, b) != tail && armed is Some && self.frames[f][b].armed is Some {
                    assert(self.frames[f][b].signal != self.frames[p.0][tail.1].signal);
                }
            }
        }
        assert forall|f: int, b: int, g: int, c: int|
            #![trigger after.frames[f][b].signal, after.frames[g][c].signal]
            after.has((f, b)) && after.has((g, c)) && after.frames[f][b].signal is Some
                && after.frames[f][b].signal == after.frames[g][c].signal implies (f, b) == (
            g,
            c,
        ) by {
            assert(self.frames[f][b].signal == self.frames[g][c].signal);
        }
        assert(after.inv());
        after.lemma_moved_inv(p, next);
    }

    /// What [`HubView::wakeful`] says, but for pulses that are still kept back in
    /// frames that are over.
    pub open spec fn drowsy(self) -> bool {
        &&& forall|f: int, b: int|
            #![trigger self.frames[f][b]]
            self.has((f, b)) ==> match self.frames[f][b].armed {
                Some(pulse) => {
                    &&& self.frames[f][b].signal == Some(signal_of(pulse))
                    &&& !rung(self.fired, signal_of(pulse))
                    &&& b == self.last(f)
                },
                None => self.frames[f][b].signal is Some ==> {
                    &&& rung(self.fired, self.frames[f][b].signal->0)
                    &&& !self.quiet((f, b))
                },
            }
        &&& self.distinct()
    }

    proof fn lemma_kept(self, n: int)
        requires
            0 <= n <= self.frames.len(),
        ensures
            forall|i: int|
                #![trigger self.kept(n)[i]]
                0 <= i < self.kept(n).len() ==> exists|f: int|
                    #![trigger self.frames[f]]
                    0 <= f < n && self.over(f) && self.frames[f][self.last(f)].armed == Some(
                        self.kept(n)[i],
                    ),
            forall|f: int|
                #![trigger self.frames[f]]
                0 <= f < n && self.over(f) && self.frames[f][self.last(f)].armed is Some
                    ==> self.kept(n).contains(self.frames[f][self.last(f)].armed->0),
        decreases n,
    {
        if n > 0 {
            self.lemma_kept(n - 1);
            let before = self.kept(n - 1);
            let armed = self.frames[n - 1][self.last(n - 1)].armed;
            assert forall|i: int|
                #![trigger self.kept(n)[i]]
                0 <= i < self.kept(n).len() implies exists|f: int|
                #![trigger self.frames[f]]
                0 <= f < n && self.over(f) && self.frames[f][self.last(f)].armed == Some(
                    self.kept(n)[i],
                ) by {
                if i < before.len() {
                    assert(self.kept(n)[i] == before[i]);
                } else {
                    let _ = self.frames[n - 1];
                }
            }
            assert forall|f: int|
                #![trigger self.frames[f]]
                0 <= f < n && self.over(f)
                    && self.frames[f][self.last(f)].armed is Some implies self.kept(n).contains(
                self.frames[f][self.last(f)].armed->0,
            ) by {
                if f < n - 1 {
                    let pulse = self.frames[f][self.last(f)].armed->0;
                    let i = choose|i: int| 0 <= i < before.len() && before[i] == pulse;
                    assert(self.kept(n)[i] == pulse);
                } else {
                    assert(self.kept(n)[before.len() as int] == armed->0);
                }
            }
        }
    }

    /// Once everybody is woken who waited at the end of a frame that is over, a hub
    /// is as it should be.
    pub(crate) proof fn lemma_swept_inv(self)
        requires
            self.well_placed(),
            self.tidy(),
            self.drowsy(),
        ensures
            self.swept(self.frames.len() as int).inv(),
            forall|p: (int, int)| self.swept(self.frames.len() as int).has(p) <==> self.has(p),
    {
        let n = self.frames.len() as int;
        let after = self.swept(n);
        self.lemma_kept(n);
        assert(forall|f: int|
            0 <= f < after.frames.len() ==> (#[trigger] after.frames[f]).len()
                == self.frames[f].len());
        assert(forall|p: (int, int)| after.has(p) <==> self.has(p));
        assert forall|h: (int, int)| #[trigger] after.handles.contains(h) implies after.has(h) by {
            assert(self.handles.contains(h));
        }
        assert forall|f: int| #[trigger] after.writers.contains(f) implies 0 <= f
            < after.frames.len() by {
            assert(self.writers.contains(f));
        }
        assert forall|f: int, b: int|
            #![trigger after.frames[f][b]]
            after.has((f, b)) && !after.reachable(
                (f, b),
            ) implies after.frames[f][b].data is None by {
            let _ = self.frames[f][b];
            if self.reachable((f, b)) {
                let h = choose|h: (int, int)| #[trigger]
                    self.handles.contains(h) && at_or_before(h, (f, b));
                assert(after.handles.contains(h));
            }
        }
        assert forall|f: int, b: int|
            #![trigger after.frames[f][b]]
            after.has((f, b)) implies after.alert(f, b) by {
            let block = self.frames[f][b];
            if block.signal is Some {
                let signal = block.signal->0;
                lemma_rung_add(self.fired, self.kept(n), signal);
                if block.armed is Some {
                    if self.over(f) {
                        let _ = self.frames[f];
                        let i = choose|i: int|
                            0 <= i < self.kept(n).len() && self.kept(n)[i] == block.armed->0;
                        assert(rung(self.kept(n), signal));
                    } else if rung(self.kept(n), signal) {
                        let i = choose|i: int|
                            0 <= i < self.kept(n).len() && signal_of(#[trigger] self.kept(n)[i])
                                == signal;
                        let g = choose|g: int|
                            #![trigger self.frames[g]]
                            0 <= g < n && self.over(g) && self.frames[g][self.last(g)].armed
                                == Some(self.kept(n)[i]);
                        assert(self.has((g, self.last(g))));
                        assert(self.frames[g][self.last(g)].signal == self.frames[f][b].signal);
                    }
                }
            }
        }
        assert forall|f: int, b: int, g: int, c: int|
            #![trigger after.frames[f][b].signal, after.frames[g][c].signal]
            after.has((f, b)) && after.has((g, c)) && after.frames[f][b].signal is Some
                && after.frames[f][b].signal == after.frames[g][c].signal implies (f, b) == (
            g,
            c,
        ) by {
            assert(self.frames[f][b].signal == self.frames[g][c].signal);
        }
    }

    /// Where every pulse is as it should be there is nobody left to wake.
    pub(crate) proof fn lemma_swept_same(self, n: int)
        requires
            forall|f: int|
                #![trigger self.frames[f]]
                0 <= f < n && self.over(f) ==> self.frames[f][self.last(f)].armed is None,
            0 <= n <= self.frames.len(),
        ensures
            self.kept(n) == Seq::<Pulse>::empty(),
            self.swept(n) == self,
        decreases n,
    {
        if n > 0 {
            self.lemma_swept_same(n - 1);
            let _ = self.frames[n - 1];
        }
        assert(self.swept(n).frames =~~= self.frames);
        assert(self.swept(n).fired =~= self.fired);
    }

    /// The frames are woken one after the other.
    pub(crate) proof fn lemma_swept_step(self, n: int)
        requires
            self.well_placed(),
            0 <= n < self.frames.len(),
            self.over(n),
        ensures
            self.swept(n + 1) == self.swept(n).woken((n, self.last(n))),
    {
        let before = self.swept(n);
        let p = (n, self.last(n));
        assert(before.block(p) == self.frames[n][self.last(n)]);
        assert(self.swept(n + 1).frames =~~= before.woken(p).frames);
        assert(self.swept(n + 1).fired =~= before.woken(p).fired);
    }

    /// In a frame that is not over there is nobody to wake.
    pub(crate) proof fn lemma_swept_rest(self, k: int, n: int)
        requires
            0 <= k <= n,
            forall|f: int| k <= f < n ==> !#[trigger] self.over(f),
        ensures
            self.swept(n) == self.swept(k),
        decreases n,
    {
        if k < n {
            self.lemma_swept_rest(k, n - 1);
            assert(!self.over(n - 1));
        }
        assert(self.kept(n) == self.kept(k)) by {
            if k < n {
                assert(self.swept(n - 1).fired == self.swept(k).fired);
                assert(self.fired + self.kept(n - 1) == self.fired + self.kept(k));
                assert(self.kept(n - 1) =~= (self.fired + self.kept(n - 1)).skip(
                    self.fired.len() as int,
                ));
                assert(self.kept(k) =~= (self.fired + self.kept(k)).skip(self.fired.len() as int));
            }
        }
        assert(self.swept(n).frames =~~= self.swept(k).frames);
    }

    /// A change of senders after which every frame that was over still is.
    proof fn lemma_drowsy(self, after: Self)
        requires
            self.wakeful(),
            after == (HubView { writers: after.writers, ..self }),
            forall|f: int| self.over(f) ==> #[trigger] after.over(f),
        ensures
            after.drowsy(),
    {
        assert forall|f: int, b: int|
            #![trigger after.frames[f][b]]
            after.has((f, b)) implies match after.frames[f][b].armed {
            Some(pulse) => {
                &&& after.frames[f][b].signal == Some(signal_of(pulse))
                &&& !rung(after.fired, signal_of(pulse))
                &&& b == after.last(f)
            },
            None => after.frames[f][b].signal is Some ==> {
                &&& rung(after.fired, after.frames[f][b].signal->0)
                &&& !after.quiet((f, b))
            },
        } by {
            assert(self.alert(f, b));
        }
        assert forall|f: int, b: int, g: int, c: int|
            #![trigger after.frames[f][b].signal, after.frames[g][c].signal]
            after.has((f, b)) && after.has((g, c)) && after.frames[f][b].signal is Some
                && after.frames[f][b].signal == after.frames[g][c].signal implies (f, b) == (
            g,
            c,
        ) by {
            assert(self.frames[f][b].signal == self.frames[g][c].signal);
        }
    }

    /// A hub stays as it should be when a sender leaves a frame.
    pub(crate) proof fn lemma_departed_inv(self, f: int)
        requires
            self.inv(),
            self.writers.contains(f),
        ensures
            self.departed(f).inv(),
            self.departed(f).writers.len() == self.writers.len() - 1,
            self.departed(f).handles == self.handles,
            forall|p: (int, int)| self.departed(f).has(p) <==> self.has(p),
    {
        self.lemma_left(f);
        let left = self.left(f);
        assert forall|g: int| self.over(g) implies #[trigger] left.over(g) by {
            assert forall|i: int| i <= g implies #[trigger] left.senders(i) == 0 by {
                assert(self.senders(i) == 0);
            }
        }
        self.lemma_drowsy(left);
        assert(left.tidy());
        left.lemma_swept_inv();
    }

    /// A hub stays as it should be when a sender goes over to the next frame.
    pub(crate) proof fn lemma_promoted_inv(self, f: int)
        requires
            self.inv(),
            self.writers.contains(f),
            self.has_next(f),
        ensures
            self.promoted(f).inv(),
            self.promoted(f).writers.len() == self.writers.len(),
            self.promoted(f).handles == self.handles,
            forall|p: (int, int)| self.promoted(f).has(p) <==> self.has(p),
    {
        self.lemma_left(f);
        self.left(f).lemma_joined(f + 1);
        let passed = self.passed(f);
        assert(passed == self.left(f).joined(f + 1));
        assert forall|g: int| self.over(g) implies #[trigger] passed.over(g) by {
            assert(g < f) by {
                if f <= g {
                    assert(self.senders(f) == 0);
                }
            }
            assert forall|i: int| i <= g implies #[trigger] passed.senders(i) == 0 by {
                assert(self.senders(i) == 0);
            }
        }
        self.lemma_drowsy(passed);
        assert(passed.tidy());
        passed.lemma_swept_inv();
    }

    /// A hub that has just started stays as it should be when its sender enters.
    pub(crate) proof fn lemma_started_inv(head: D)
        ensures
            Self::started(head).joined(0).inv(),
    {
        let before = Self::started(head);
        let after = before.joined(0);
        assert(before.handles.contains((0, 0)));
        assert(before.reachable((0, 0)));
        before.lemma_joined(0);
        assert(after.handles.contains((0, 0)));
        assert(after.reachable((0, 0)));
    }

    /// A hub stays as it should be when a sender enters a frame in which there is
    /// one already.
    pub(crate) proof fn lemma_joined_inv(self, f: int)
        requires
            self.inv(),
            self.writers.contains(f),
            self.writers.len() < usize::MAX,
        ensures
            self.joined(f).inv(),
    {
        self.lemma_joined(f);
        let after = self.joined(f);
        assert(after.tidy());
        assert(self.writers.count(f) > 0 && after.writers.count(f) > 0);
        assert forall|g: int| #[trigger] after.over(g) <==> self.over(g) by {
            assert(forall|i: int|
                i != f ==> #[trigger] after.writers.count(i) == self.writers.count(i));
            if g < f {
                assert forall|i: int| i <= g implies (#[trigger] after.writers.count(i) == 0
                    <==> self.writers.count(i) == 0) by {}
                if self.over(g) {
                    assert forall|i: int| i <= g implies #[trigger] after.writers.count(i) == 0 by {
                        assert(self.writers.count(i) == 0);
                    }
                }
                if after.over(g) {
                    assert forall|i: int| i <= g implies #[trigger] self.writers.count(i) == 0 by {
                        assert(after.writers.count(i) == 0);
                    }
                }
            }
        }
        self.lemma_alike(after);
    }

    /// A hub stays as it should be when a frame is added.
    pub(crate) proof fn lemma_opened_inv(self, p: (int, int), head: D)
        requires
            self.inv(),
            self.handles.contains(p),
        ensures
            self.opened(p.0, head).inv(),
            self.opened(p.0, head).has_next(p.0),
            self.opened(p.0, head).has((p.0 + 1, 0)),
            forall|q: (int, int)| self.has(q) ==> self.opened(p.0, head).has(q),
    {
        self.lemma_opened(p.0, head);
        let after = self.opened(p.0, head);
        assert(after.handles == self.handles);
        assert(after.handles.contains(p));
        assert forall|f: int, b: int|
            #![trigger after.frames[f][b]]
            after.has((f, b)) implies {
            ||| self.has((f, b)) && after.frames[f][b] == self.frames[f][b]
            ||| {
                &&& (f, b) == (p.0 + 1, 0int)
                &&& after.frames[f][b].armed is None
                &&& after.frames[f][b].signal is None
                &&& after.reachable((f, b))
            }
        } by {}
        assert(after.tidy());
        assert forall|f: int, b: int|
            #![trigger after.frames[f][b]]
            after.has((f, b)) implies after.alert(f, b) by {
            if self.has((f, b)) {
                assert(self.alert(f, b));
            }
        }
        assert(after.frames[p.0 + 1].len() >= 1);
    }

    /// A hub stays as it should be when a sender goes over to the next frame.
    pub(crate) proof fn lemma_advanced_inv(self, p: (int, int), head: D)
        requires
            self.inv(),
            self.handles.contains(p),
            self.writers.contains(p.0),
        ensures
            self.advanced(p, head).inv(),
            self.advanced(p, head).handles.contains((p.0 + 1, 0)),
            self.advanced(p, head).writers.contains(p.0 + 1),
    {
        self.lemma_opened_inv(p, head);
        let opened = self.opened(p.0, head);
        assert(opened.handles.contains(p) && opened.writers.contains(p.0));
        opened.lemma_promoted_inv(p.0);
        let promoted = opened.promoted(p.0);
        assert(promoted.handles.contains(p) && promoted.has((p.0 + 1, 0)));
        promoted.lemma_moved_inv(p, (p.0 + 1, 0));
    }

    /// A hub stays as it should be when a signal is asked for.
    pub(crate) proof fn lemma_signalled_inv(self, p: (int, int), after: Self, signal: Signal)
        requires
            self.inv(),
            self.has(p),
            self.signalled(p, after, signal),
        ensures
            after.inv(),
    {
        if self.block(p).signal is None {
            let pulse = choose|pulse: Pulse| #[trigger]
                signal_of(pulse) == signal && after == self.awaited(p, pulse);
            lemma_rung_push(self.fired, pulse);
        }
        assert(forall|f: int|
            0 <= f < after.frames.len() ==> (#[trigger] after.frames[f]).len()
                == self.frames[f].len());
        assert forall|h: (int, int)| #[trigger] after.handles.contains(h) implies after.has(h) by {
            assert(self.handles.contains(h));
        }
        assert forall|f: int| #[trigger] after.writers.contains(f) implies 0 <= f
            < after.frames.len() by {
            assert(self.writers.contains(f));
        }
        assert(after.handles == self.handles);
        assert(forall|q: (int, int)| after.has(q) <==> self.has(q));
        assert forall|f: int, b: int|
            #![trigger after.frames[f][b]]
            after.has((f, b)) && (f, b) != p implies after.frames[f][b] == self.frames[f][b] by {}
        assert(self.frames[p.0][p.1] == self.block(p));
        assert(after.tidy());
        assert forall|f: int, b: int|
            #![trigger after.frames[f][b]]
            after.has((f, b)) implies after.alert(f, b) by {
            assert(self.alert(f, b));
            assert(self.frames[f][b].signal != Some(signal) || self.block(p).signal is Some);
        }
        assert forall|f: int, b: int, g: int, c: int|
            #![trigger after.frames[f][b].signal, after.frames[g][c].signal]
            after.has((f, b)) && after.has((g, c)) && after.frames[f][b].signal is Some
                && after.frames[f][b].signal == after.frames[g][c].signal implies (f, b) == (
            g,
            c,
        ) by {
            let _ = self.frames[f][b];
            let _ = self.frames[g][c];
            if (f, b) != p && (g, c) != p {
                assert(self.frames[f][b].signal == self.frames[g][c].signal);
            }
        }
    }

    /// A hub stays as it should be when a block loses its data.
    pub(crate) proof fn lemma_emptied_inv(self, p: (int, int))
        requires
            self.inv(),
            self.has(p),
        ensures
            self.emptied(p).inv(),
    {
        let after = self.emptied(p);
        assert(forall|f: int|
            0 <= f < after.frames.len() ==> (#[trigger] after.frames[f]).len()
                == self.frames[f].len());
        assert forall|h: (int, int)| #[trigger] after.handles.contains(h) implies after.has(h) by {
            assert(self.handles.contains(h));
        }
        assert forall|f: int| #[trigger] after.writers.contains(f) implies 0 <= f
            < after.frames.len() by {
            assert(self.writers.contains(f));
        }
        assert(after.handles == self.handles);
        assert(forall|q: (int, int)| after.has(q) <==> self.has(q));
        assert forall|f: int, b: int|
            #![trigger after.frames[f][b]]
            after.has((f, b)) && (f, b) != p implies after.frames[f][b] == self.frames[f][b] by {}
        assert(self.frames[p.0][p.1] == self.block(p));
        assert(after.tidy());
        assert forall|f: int| #[trigger] after.over(f) <==> self.over(f) by {}
        self.lemma_alike(after);
    }
}

impl<D> BlockView<D> {
    /// The block with `g` of its data in place of the data.
    pub open spec fn map_data<E>(self, g: spec_fn(D) -> E) -> BlockView<E> {
        BlockView {
            data: match self.data {
                Some(d) => Some(g(d)),
                None => None,
            },
            signal: self.signal,
            armed: self.armed,
        }
    }
}

impl<D> HubView<D> {
    /// The hub with `g` of its data in place of the data.
    pub open spec fn map_data<E>(self, g: spec_fn(D) -> E) -> HubView<E> {
        HubView {
            frames: Seq::new(
                self.frames.len(),
                |f: int| Seq::new(self.frames[f].len(), |b: int| self.frames[f][b].map_data(g)),
            ),
            writers: self.writers,
            handles: self.handles,
            fired: self.fired,
        }
    }

    pub(crate) proof fn lemma_map<E>(self, g: spec_fn(D) -> E)
        ensures
            forall|p: (int, int)| self.map_data(g).has(p) <==> self.has(p),
            forall|p: (int, int)| #[trigger] self.map_data(g).reachable(p) <==> self.reachable(p),
            forall|f: int| 0 <= f < self.frames.len() ==> self.map_data(g).last(f) == self.last(f),
            forall|p: (int, int)|
                #![trigger self.map_data(g).block(p)]
                self.has(p) ==> self.map_data(g).block(p) == self.block(p).map_data(g),
            self.inv() ==> self.map_data(g).inv(),
    {
        let after = self.map_data(g);
        assert(after.frames.len() == self.frames.len());
        assert(forall|f: int|
            0 <= f < self.frames.len() ==> (#[trigger] after.frames[f]).len()
                == self.frames[f].len());
        assert(forall|p: (int, int)| after.has(p) <==> self.has(p));
        assert(after.handles == self.handles);
        if self.inv() {
            assert forall|h: (int, int)| #[trigger] after.handles.contains(h) implies after.has(
                h,
            ) by {
                assert(self.handles.contains(h));
            }
            assert forall|f: int| #[trigger] after.writers.contains(f) implies 0 <= f
                < after.frames.len() by {
                assert(self.writers.contains(f));
            }
            assert(after.well_placed());
            assert(after.tidy());
            assert forall|f: int, b: int|
                #![trigger after.frames[f][b]]
                after.has((f, b)) implies after.alert(f, b) by {
                assert(self.alert(f, b));
            }
            assert forall|f: int, b: int, x: int, c: int|
                #![trigger after.frames[f][b].signal, after.frames[x][c].signal]
                after.has((f, b)) && after.has((x, c)) && after.frames[f][b].signal is Some
                    && after.frames[f][b].signal == after.frames[x][c].signal implies (f, b) == (
                x,
                c,
            ) by {
                assert(self.frames[f][b].signal == self.frames[x][c].signal);
            }
        }
    }

    pub(crate) proof fn lemma_map_reclaimed<E>(self, g: spec_fn(D) -> E)
        ensures
            self.reclaimed().map_data(g) == self.map_data(g).reclaimed(),
    {
        self.lemma_map(g);
        assert(self.reclaimed().map_data(g).frames =~~= self.map_data(g).reclaimed().frames);
    }

    pub(crate) proof fn lemma_map_moved<E>(self, p: (int, int), q: (int, int), g: spec_fn(D) -> E)
        ensures
            self.moved(p, q).map_data(g) == self.map_data(g).moved(p, q),
    {
        self.dropped(p).held(q).lemma_map_reclaimed(g);
        assert(self.dropped(p).held(q).map_data(g) == self.map_data(g).dropped(p).held(q));
    }

    pub(crate) proof fn lemma_map_released<E>(self, p: (int, int), g: spec_fn(D) -> E)
        ensures
            self.released(p).map_data(g) == self.map_data(g).released(p),
    {
        self.dropped(p).lemma_map_reclaimed(g);
        assert(self.dropped(p).map_data(g) == self.map_data(g).dropped(p));
    }

    pub(crate) proof fn lemma_map_woken<E>(self, p: (int, int), g: spec_fn(D) -> E)
        requires
            self.has(p),
        ensures
            self.woken(p).map_data(g) == self.map_data(g).woken(p),
    {
        assert(self.woken(p).map_data(g).frames =~~= self.map_data(g).woken(p).frames);
    }

    pub(crate) proof fn lemma_map_emptied<E>(self, p: (int, int), g: spec_fn(D) -> E)
        requires
            self.has(p),
        ensures
            self.emptied(p).map_data(g) == self.map_data(g).emptied(p),
    {
        assert(self.emptied(p).map_data(g).frames =~~= self.map_data(g).emptied(p).frames);
    }

    pub(crate) proof fn lemma_map_opened<E>(self, f: int, head: D, g: spec_fn(D) -> E)
        ensures
            self.opened(f, head).map_data(g) == self.map_data(g).opened(f, g(head)),
    {
        assert(self.opened(f, head).map_data(g).frames =~~= self.map_data(g).opened(
            f,
            g(head),
        ).frames);
    }

    pub(crate) proof fn lemma_map_appended<E>(self, p: (int, int), data: D, g: spec_fn(D) -> E)
        requires
            self.inv(),
            self.handles.contains(p),
        ensures
            self.appended(p, data).map_data(g) == self.map_data(g).appended(p, g(data)),
    {
        let tail = (p.0, self.last(p.0));
        let written = self.written(p.0, data);
        assert(self.map_data(g).last(p.0) == tail.1);
        assert(written.map_data(g).frames =~~= self.map_data(g).written(p.0, g(data)).frames);
        written.lemma_map_woken(tail, g);
        written.woken(tail).lemma_map_moved(p, (p.0, tail.1 + 1), g);
    }

    proof fn lemma_map_kept<E>(self, n: int, g: spec_fn(D) -> E)
        requires
            self.well_placed(),
            n <= self.frames.len(),
        ensures
            self.map_data(g).kept(n) == self.kept(n),
        decreases n,
    {
        if n > 0 {
            self.lemma_map_kept(n - 1, g);
            let mapped = self.map_data(g);
            assert(mapped.frames[n - 1].len() == self.frames[n - 1].len());
        }
    }

    proof fn lemma_map_swept<E>(self, n: int, g: spec_fn(D) -> E)
        requires
            self.well_placed(),
            n <= self.frames.len(),
        ensures
            self.swept(n).map_data(g) == self.map_data(g).swept(n),
    {
        let mapped = self.map_data(g);
        self.lemma_map_kept(n, g);
        assert forall|f: int| #[trigger] mapped.over(f) <==> self.over(f) by {}
        assert(self.swept(n).map_data(g).frames =~~= mapped.swept(n).frames);
    }

    pub(crate) proof fn lemma_map_departed<E>(self, f: int, g: spec_fn(D) -> E)
        requires
            self.inv(),
            self.writers.contains(f),
        ensures
            self.departed(f).map_data(g) == self.map_data(g).departed(f),
    {
        self.lemma_left(f);
        assert(self.left(f).map_data(g) == self.map_data(g).left(f));
        self.left(f).lemma_map_swept(self.frames.len() as int, g);
    }

    pub(crate) proof fn lemma_map_advanced<E>(self, p: (int, int), head: D, g: spec_fn(D) -> E)
        requires
            self.inv(),
            self.handles.contains(p),
            self.writers.contains(p.0),
        ensures
            self.advanced(p, head).map_data(g) == self.map_data(g).advanced(p, g(head)),
    {
        self.lemma_opened_inv(p, head);
        self.lemma_map_opened(p.0, head, g);
        let opened = self.opened(p.0, head);
        assert(opened.writers.contains(p.0));
        opened.lemma_left(p.0);
        opened.left(p.0).lemma_joined(p.0 + 1);
        let passed = opened.passed(p.0);
        assert(passed == opened.left(p.0).joined(p.0 + 1));
        assert(passed.map_data(g) == opened.map_data(g).passed(p.0));
        passed.lemma_map_swept(passed.frames.len() as int, g);
        opened.promoted(p.0).lemma_map_moved(p, (p.0 + 1, 0), g);
    }

    pub(crate) proof fn lemma_map_retired<E>(self, p: (int, int), g: spec_fn(D) -> E)
        requires
            self.inv(),
            self.writers.contains(p.0),
        ensures
            self.retired(p).map_data(g) == self.map_data(g).retired(p),
    {
        self.lemma_map_departed(p.0, g);
        self.departed(p.0).lemma_map_released(p, g);
    }

    pub(crate) proof fn lemma_map_signalled<E>(
        self,
        p: (int, int),
        after: Self,
        signal: Signal,
        g: spec_fn(D) -> E,
    )
        requires
            self.inv(),
            self.has(p),
            self.signalled(p, after, signal),
        ensures
            self.map_data(g).signalled(p, after.map_data(g), signal),
    {
        self.lemma_map(g);
        if self.block(p).signal is None {
            let pulse = choose|pulse: Pulse| #[trigger]
                signal_of(pulse) == signal && after == self.awaited(p, pulse);
            assert(after.map_data(g).frames =~~= self.map_data(g).awaited(p, pulse).frames);
            assert(after.map_data(g) == self.map_data(g).awaited(p, pulse));
            assert(self.map_data(g).unused(signal)) by {
                let mapped = self.map_data(g);
                assert forall|f: int, b: int|
                    #![trigger mapped.frames[f][b]]
                    mapped.has((f, b)) implies mapped.frames[f][b].signal != Some(signal) by {
                    let _ = self.frames[f][b];
                }
            }
        }
    }
}

impl<D> HubView<D> {
    /// A signal has been released if and only if there is something to see for
    /// those who wait on it: something follows its block, or no sender can add to
    /// the frame any more.
    pub proof fn law_signal_tells(self, p: (int, int), signal: Signal)
        requires
            self.inv(),
            self.has(p),
            self.block(p).signal == Some(signal),
        ensures
            rung(self.fired, signal) <==> p.1 < self.last(p.0) || self.over(p.0),
    {
        let _ = self.frames[p.0][p.1];
        assert(self.alert(p.0, p.1));
    }

    /// A hub to which nobody points any more has let go of all data.
    pub proof fn law_nothing_outlives_the_pointers(self, p: (int, int))
        requires
            self.inv(),
            self.handles.len() == 0,
            self.has(p),
        ensures
            self.block(p).data is None,
    {
        if self.reachable(p) {
            let h = choose|h: (int, int)| #[trigger] self.handles.contains(h) && at_or_before(h, p);
            assert(self.handles.count(h) <= self.handles.len());
        }
        let _ = self.frames[p.0][p.1];
    }

    /// A sender that is cloned and closed again without having sent anything
    /// leaves no trace.
    pub proof fn law_clone_and_close_sender(self, p: (int, int))
        requires
            self.inv(),
            self.handles.contains(p),
            self.writers.contains(p.0),
        ensures
            self.joined(p.0).held(p).retired(p) == self,
    {
        let cloned = self.joined(p.0).held(p);
        assert(cloned.left(p.0).writers =~= self.writers);
        assert forall|f: int|
            #![trigger self.frames[f]]
            0 <= f < self.frames.len() && self.over(
                f,
            ) implies self.frames[f][self.last(f)].armed is None by {
            assert(self.alert(f, self.last(f)));
        }
        cloned.left(p.0).lemma_swept_same(self.frames.len() as int);
        assert(cloned.departed(p.0) == cloned.left(p.0));
        assert(cloned.departed(p.0).dropped(p).handles =~= self.handles);
        assert(cloned.departed(p.0).dropped(p) == self);
        self.lemma_reclaimed();
    }

    /// A receiver that is cloned and closed again leaves no trace.
    pub proof fn law_clone_and_close_receiver(self, p: (int, int))
        requires
            self.inv(),
            self.handles.contains(p),
        ensures
            self.held(p).released(p) == self,
    {
        assert(self.held(p).dropped(p).handles =~= self.handles);
        assert(self.held(p).dropped(p) == self);
        self.lemma_reclaimed();
    }

    /// When a frame is over, and when one follows it, told by where the senders stand
    /// and by how many frames there are.
    pub proof fn law_when_a_frame_is_over(self, f: int)
        ensures
            self.over(f) <==> (forall|g: int| g <= f ==> #[trigger] self.writers.count(g) == 0),
            self.has_next(f) <==> f + 1 < self.frames.len(),
    {
    }

    /// Data is kept for as long as somebody can come to it, and no longer: a block that
    /// every pointer has passed carries nothing.
    pub proof fn law_passed_blocks_are_empty(self, f: int, b: int)
        requires
            self.inv(),
            0 <= f < self.frames.len(),
            0 <= b < self.frames[f].len(),
            forall|h: (int, int)| #[trigger]
                self.handles.contains(h) ==> h.0 > f || (h.0 == f && h.1 > b),
        ensures
            self.frames[f][b].data is None,
    {
        if self.reachable((f, b)) {
            let h = choose|h: (int, int)| #[trigger]
                self.handles.contains(h) && at_or_before(h, (f, b));
        }
        assert(self.has((f, b)));
        let _ = self.frames[f][b];
    }

    /// What there is at first: one frame with one block, which carries the head, and one
    /// pointer to it. Nobody is counted as a sender, and nothing has been fired.
    pub proof fn law_start(head: D)
        ensures
            ({
                let start = HubView::<D>::started(head);
                &&& start.frames.len() == 1
                &&& start.frames[0].len() == 1
                &&& start.frames[0][0].data == Some(head)
                &&& start.frames[0][0].signal is None
                &&& start.handles == Multiset::<(int, int)>::empty().insert((0int, 0int))
                &&& start.writers == Multiset::<int>::empty()
                &&& start.fired == Seq::<Pulse>::empty()
            }),
    {
        let start = HubView::<D>::started(head);
        assert(start.handles =~= Multiset::<(int, int)>::empty().insert((0int, 0int)));
    }

    /// Where everybody stands after each operation of a pointer at `p`: one pointer more
    /// or fewer, one sender more or fewer, and nobody else has moved.
    pub proof fn law_who_stands_where(self, p: (int, int), q: (int, int), data: D)
        requires
            self.inv(),
            self.handles.contains(p),
        ensures
            self.held(q).handles == self.handles.insert(q),
            self.held(q).writers == self.writers,
            self.joined(q.0).handles == self.handles,
            self.joined(q.0).writers == self.writers.insert(q.0),
            self.moved(p, q).handles == self.handles.remove(p).insert(q),
            self.moved(p, q).writers == self.writers,
            self.released(p).handles == self.handles.remove(p),
            self.released(p).writers == self.writers,
            self.written(p.0, data).handles == self.handles,
            self.written(p.0, data).writers == self.writers,
            self.emptied(p).handles == self.handles,
            self.emptied(p).writers == self.writers,
            self.opened(p.0, data).handles == self.handles,
            self.opened(p.0, data).writers == self.writers,
            self.appended(p, data).handles == self.handles.remove(p).insert(
                (p.0, self.frames[p.0].len() as int),
            ),
            self.appended(p, data).writers == self.writers,
            self.advanced(p, data).handles == self.handles.remove(p).insert((p.0 + 1, 0int)),
            self.advanced(p, data).writers == self.writers.remove(p.0).insert(p.0 + 1),
            self.retired(p).handles == self.handles.remove(p),
            self.retired(p).writers == self.writers.remove(p.0),
    {
    }

    /// What was fired stays fired. Only appending, and a sender that leaves a frame, fire
    /// anything.
    pub proof fn law_fired_stays_fired(self, p: (int, int), q: (int, int), data: D)
        ensures
            self.held(q).fired == self.fired,
            self.joined(q.0).fired == self.fired,
            self.moved(p, q).fired == self.fired,
            self.released(p).fired == self.fired,
            self.written(p.0, data).fired == self.fired,
            self.emptied(p).fired == self.fired,
            self.opened(p.0, data).fired == self.fired,
            self.fired.is_prefix_of(self.appended(p, data).fired),
            self.fired.is_prefix_of(self.advanced(p, data).fired),
            self.fired.is_prefix_of(self.retired(p).fired),
            self.appended(p, data).fired.len() <= self.fired.len() + 1,
    {
    }

    /// How many frames there are after each operation of a pointer at `p`, and how many
    /// blocks frame `g` has. Appending adds one block to the frame in which it happens,
    /// going over to the next frame adds one frame of one block if there was none, and
    /// nothing else adds or removes any.
    pub proof fn law_what_there_is(self, p: (int, int), q: (int, int), data: D, g: int)
        requires
            self.inv(),
            self.handles.contains(p),
            0 <= g < self.frames.len(),
        ensures
            ({
                let frames = self.frames.len();
                let blocks = self.frames[g].len();
                let more = if p.0 + 1 < frames {
                    0int
                } else {
                    1int
                };
                &&& self.held(q).frames == self.frames
                &&& self.joined(q.0).frames == self.frames
                &&& self.moved(p, q).frames.len() == frames
                &&& self.moved(p, q).frames[g].len() == blocks
                &&& self.released(p).frames.len() == frames
                &&& self.released(p).frames[g].len() == blocks
                &&& self.emptied(p).frames.len() == frames
                &&& self.emptied(p).frames[g].len() == blocks
                &&& self.retired(p).frames.len() == frames
                &&& self.retired(p).frames[g].len() == blocks
                &&& self.written(p.0, data).frames.len() == frames
                &&& self.written(p.0, data).frames[g].len() == blocks + (if g == p.0 {
                    1int
                } else {
                    0int
                })
                &&& self.appended(p, data).frames.len() == frames
                &&& self.appended(p, data).frames[g].len() == blocks + (if g == p.0 {
                    1int
                } else {
                    0int
                })
                &&& self.opened(p.0, data).frames.len() == frames + more
                &&& self.opened(p.0, data).frames[g] == self.frames[g]
                &&& self.advanced(p, data).frames.len() == frames + more
                &&& self.advanced(p, data).frames[g].len() == blocks
                &&& more == 1 ==> {
                    &&& self.opened(p.0, data).frames[p.0 + 1].len() == 1
                    &&& self.advanced(p, data).frames[p.0 + 1].len() == 1
                }
            }),
    {
        assert(self.has(p));
    }

    /// What a block carries after each operation of a pointer at `p`. A block that some
    /// pointer can come to keeps its data and its signal; appending puts the data in a
    /// block of its own behind the others, and a new frame starts with its head.
    pub proof fn law_what_blocks_carry(
        self,
        p: (int, int),
        q: (int, int),
        data: D,
        at: (int, int),
        h: (int, int),
    )
        requires
            self.inv(),
            self.handles.contains(p),
            self.has(q),
            p.0 < q.0 || (p.0 == q.0 && p.1 <= q.1),
            self.has(at),
            h.0 < at.0 || (h.0 == at.0 && h.1 <= at.1),
        ensures
            ({
                let block = self.frames[at.0][at.1];
                let end = self.frames[p.0].len() as int;
                let moved = self.moved(p, q);
                let released = self.released(p);
                let appended = self.appended(p, data);
                let advanced = self.advanced(p, data);
                let retired = self.retired(p);
                &&& moved.handles.contains(h) ==> moved.frames[at.0][at.1] == block
                &&& released.handles.contains(h) ==> released.frames[at.0][at.1] == block
                &&& appended.handles.contains(h) ==> {
                    &&& appended.frames[at.0][at.1].data == block.data
                    &&& appended.frames[at.0][at.1].signal == block.signal
                }
                &&& advanced.handles.contains(h) ==> {
                    &&& advanced.frames[at.0][at.1].data == block.data
                    &&& advanced.frames[at.0][at.1].signal == block.signal
                }
                &&& retired.handles.contains(h) ==> {
                    &&& retired.frames[at.0][at.1].data == block.data
                    &&& retired.frames[at.0][at.1].signal == block.signal
                }
                &&& self.written(p.0, data).frames[at.0][at.1] == block
                &&& self.written(p.0, data).frames[p.0][end].data == Some(data)
                &&& self.written(p.0, data).frames[p.0][end].signal is None
                &&& appended.frames[p.0][end].data == Some(data)
                &&& appended.frames[p.0][end].signal is None
                &&& self.emptied(q).frames[q.0][q.1].data is None
                &&& at != q ==> self.emptied(q).frames[at.0][at.1] == block
                &&& p.0 + 1 == self.frames.len() ==> {
                    &&& self.opened(p.0, data).frames[p.0 + 1][0].data == Some(data)
                    &&& advanced.frames[p.0 + 1][0].data == Some(data)
                }
            }),
    {
        let end = self.frames[p.0].len() as int;
        let next = (p.0, end);
        let between = self.written(p.0, data).woken((p.0, end - 1));
        let opened = self.opened(p.0, data);
        let promoted = opened.promoted(p.0);
        let departed = self.departed(p.0);
        let moved = self.moved(p, q);
        let released = self.released(p);
        let appended = self.appended(p, data);
        let advanced = self.advanced(p, data);
        let retired = self.retired(p);
        assert(at_or_before(h, at));
        assert(moved.handles.contains(h) ==> self.dropped(p).held(q).reachable(at));
        assert(released.handles.contains(h) ==> self.dropped(p).reachable(at));
        assert(appended.handles.contains(h) ==> between.dropped(p).held(next).reachable(at));
        assert(between.dropped(p).held(next).handles.contains(next));
        assert(at_or_before(next, next));
        assert(between.dropped(p).held(next).reachable(next));
        assert(advanced.handles.contains(h) ==> promoted.dropped(p).held((p.0 + 1, 0)).reachable(
            at,
        ));
        assert(promoted.dropped(p).held((p.0 + 1, 0)).handles.contains((p.0 + 1, 0int)));
        assert(at_or_before((p.0 + 1, 0int), (p.0 + 1, 0int)));
        assert(promoted.dropped(p).held((p.0 + 1, 0)).reachable((p.0 + 1, 0int)));
        assert(retired.handles.contains(h) ==> departed.dropped(p).reachable(at));
        assert(self.has(p));
    }

    /// Whoever asks for a signal gets one that the block keeps. It has been released if
    /// there is something to see already, and not otherwise. Asking changes neither what
    /// anybody can read nor where anybody stands.
    pub proof fn law_signal_is_kept(
        self,
        p: (int, int),
        after: Self,
        signal: Signal,
        at: (int, int),
    )
        requires
            self.inv(),
            self.has(p),
            self.signalled(p, after, signal),
            self.has(at),
        ensures
            after.inv(),
            after.has(p),
            after.frames[p.0][p.1].signal == Some(signal),
            self.frames[p.0][p.1].signal is Some ==> after == self,
            rung(after.fired, signal) <==> p.1 + 1 < self.frames[p.0].len() || self.over(p.0),
            after.handles == self.handles,
            after.writers == self.writers,
            after.frames.len() == self.frames.len(),
            after.frames[at.0].len() == self.frames[at.0].len(),
            after.frames[at.0][at.1].data == self.frames[at.0][at.1].data,
            at != p ==> after.frames[at.0][at.1] == self.frames[at.0][at.1],
            at != p ==> after.frames[at.0][at.1].signal != Some(signal),
    {
        self.lemma_signalled_inv(p, after, signal);
        assert(after.frames[p.0].len() == self.frames[p.0].len());
        assert(after.frames[at.0].len() == self.frames[at.0].len());
        after.law_signal_tells(p, signal);
        let _ = after.frames[at.0][at.1].signal;
        assert(after.has(at));
    }

    /// Once a frame is over it stays over, and it stays as long as it is,
    /// whatever a sender that stands at `p` does: pass values on, go over to the
    /// next frame, go away, or be cloned.
    pub proof fn law_over_is_over(self, f: int, p: (int, int), data: D)
        requires
            self.inv(),
            self.over(f),
            0 <= f < self.frames.len(),
            self.handles.contains(p),
            self.writers.contains(p.0),
        ensures
            self.appended(p, data).over(f),
            self.appended(p, data).frames[f].len() == self.frames[f].len(),
            self.advanced(p, data).over(f),
            self.advanced(p, data).frames[f].len() == self.frames[f].len(),
            self.retired(p).over(f),
            self.retired(p).frames[f].len() == self.frames[f].len(),
            self.joined(p.0).held(p).over(f),
            self.joined(p.0).held(p).frames[f].len() == self.frames[f].len(),
    {
        assert(p.0 > f) by {
            if p.0 <= f {
                assert(self.senders(p.0) == 0);
            }
        }
        let retired = self.retired(p);
        let advanced = self.advanced(p, data);
        let cloned = self.joined(p.0).held(p);
        assert forall|g: int| g <= f implies #[trigger] retired.senders(g) == 0 by {
            assert(self.senders(g) == 0);
        }
        assert forall|g: int| g <= f implies #[trigger] advanced.senders(g) == 0 by {
            assert(self.senders(g) == 0);
        }
        assert forall|g: int| g <= f implies #[trigger] cloned.senders(g) == 0 by {
            assert(self.senders(g) == 0);
        }
        assert forall|g: int| g <= f implies #[trigger] self.appended(p, data).senders(g) == 0 by {
            assert(self.senders(g) == 0);
        }
    }
}

} // verus!
