//! The shared side of a channel: frames, each a chain of blocks.
//!
//! A hub owns every block. Senders and receivers are pointers into it: they hold
//! a position and pass the hub to each operation. A block keeps its data for as
//! long as some pointer stands at it or before it, and not longer. Blocks and frames
//! that everybody has passed are freed a batch at a time.
use crate::cells::{
    link_target, signal_of, slot_pulse, slot_signal, Link, PulseSlot, Pulses, SignalSlot,
};
use crate::model::{at_or_before, BlockView, HubView};
use pulse::Signal;
use vstd::multiset::Multiset;
use vstd::prelude::*;

verus! {

/// The number that stands for `i`. Numbers start over when the machine's integers
/// run out, so there is no end to the blocks that can be written.
pub open spec fn number(i: int) -> int {
    i % (usize::MAX + 1)
}

/// How far apart two numbers are tells how far apart the things are that they stand
/// for, if that is less than all numbers.
proof fn lemma_number(a: int, b: int)
    requires
        0 <= b <= a,
        a - b <= usize::MAX,
    ensures
        0 <= number(a) <= usize::MAX,
        0 <= number(b) <= usize::MAX,
        number(b) <= number(a) ==> number(a) - number(b) == a - b,
        number(a) < number(b) ==> number(a) - number(b) + usize::MAX + 1 == a - b,
{
    let m = usize::MAX + 1;
    vstd::arithmetic::div_mod::lemma_fundamental_div_mod(a, m);
    vstd::arithmetic::div_mod::lemma_fundamental_div_mod(b, m);
    let q = a / m - b / m;
    assert(m * q == m * (a / m) - m * (b / m)) by (nonlinear_arith)
        requires
            q == a / m - b / m,
    ;
    assert(q == 0 || q == 1) by (nonlinear_arith)
        requires
            m > 0,
            -m < m * q < 2 * m,
    ;
    assert(m * 0 == 0 && m * 1 == m);
}

/// Whether `next` is the number of what follows `i` among the first `end`, if
/// anything does.
pub open spec fn leads(next: Option<usize>, i: int, end: int) -> bool {
    match next {
        Some(n) => n == number(i + 1) && i + 1 < end,
        None => i + 1 == end,
    }
}

/// A position in a hub.
pub struct Place {
    frame: usize,
    block: usize,
    at: Ghost<(int, int)>,
}

impl Place {
    #[verifier::type_invariant]
    spec fn numbered(&self) -> bool {
        &&& 0 <= self.at@.0
        &&& 0 <= self.at@.1
        &&& self.frame == number(self.at@.0)
        &&& self.block == number(self.at@.1)
    }

    /// The position itself.
    pub closed spec fn pos(&self) -> (int, int) {
        self.at@
    }

    /// The same position.
    pub(crate) fn twin(&self) -> (twin: Place)
        ensures
            twin == *self,
    {
        proof {
            use_type_invariant(self);
        }
        Place { frame: self.frame, block: self.block, at: Ghost(self.at@) }
    }
}

/// One link of the chain.
pub struct Block<D> {
    next: Link,
    pulse: PulseSlot,
    signal: SignalSlot,
    // How many pointers stand at this block.
    holders: usize,
    data: Option<D>,
}

/// One frame: its chain of blocks and the number of senders in it.
pub struct Channel<D> {
    // The frame that follows, once somebody has moved on to it.
    next: Link,
    senders: usize,
    blocks: Vec<Block<D>>,
    // The number of the first of these blocks.
    start: usize,
    // What the blocks before them had come to when they were freed.
    freed: Ghost<Seq<BlockView<D>>>,
}

/// All frames of one channel.
pub struct Hub<D> {
    channels: Vec<Channel<D>>,
    // The number of the first of these frames.
    start: usize,
    // What the frames before them had come to when they were freed.
    freed: Ghost<Seq<Seq<BlockView<D>>>>,
    // No pointer stands before this block, and no block before it has data. These
    // are indices.
    floor_frame: usize,
    floor_block: usize,
    // The index of the first frame in which a sender stands. Those before it are
    // over.
    first: Option<usize>,
    pulses: Pulses,
    writers: Ghost<Multiset<int>>,
    handles: Ghost<Multiset<(int, int)>>,
}

/// A pointer into the chain at which new blocks are written.
pub struct WritePtr {
    place: Place,
}

impl<D> View for Block<D> {
    type V = BlockView<D>;

    closed spec fn view(&self) -> BlockView<D> {
        BlockView {
            data: self.data,
            signal: slot_signal(self.signal),
            armed: slot_pulse(self.pulse),
        }
    }
}

impl<D> View for Channel<D> {
    type V = Seq<BlockView<D>>;

    closed spec fn view(&self) -> Seq<BlockView<D>> {
        self.freed@ + Seq::new(self.blocks@.len(), |b: int| self.blocks@[b]@)
    }
}

impl<D> View for Hub<D> {
    type V = HubView<D>;

    closed spec fn view(&self) -> HubView<D> {
        HubView {
            frames: self.freed@ + Seq::new(self.channels@.len(), |f: int| self.channels@[f]@),
            writers: self.writers@,
            handles: self.handles@,
            fired: self.pulses.fired(),
        }
    }
}

impl<D> Block<D> {
    /// A block that nobody points to yet and nothing follows.
    fn new(data: D) -> (block: Block<D>)
        ensures
            block@ == (BlockView { data: Some(data), signal: None, armed: None }),
            link_target(block.next) is None,
            block.holders == 0,
    {
        Block {
            next: Link::empty(),
            pulse: PulseSlot::empty(),
            signal: SignalSlot::empty(),
            holders: 0,
            data: Some(data),
        }
    }
}

impl<D> Channel<D> {
    /// A frame with a single block, which carries `head`.
    fn new(senders: usize, head: D) -> (channel: Channel<D>)
        ensures
            channel.senders == senders,
            link_target(channel.next) is None,
            channel.blocks@.len() == 1,
            channel.blocks@[0]@ == (BlockView { data: Some(head), signal: None, armed: None }),
            channel.blocks@[0].holders == 0,
            link_target(channel.blocks@[0].next) is None,
            channel.start == 0,
            channel.freed@.len() == 0,
    {
        let mut blocks = Vec::new();
        blocks.push(Block::new(head));
        Channel { next: Link::empty(), senders, blocks, start: 0, freed: Ghost(Seq::empty()) }
    }

    /// Frees the first `n` blocks, none of which carries data or keeps a pulse back.
    fn free(&mut self, n: usize)
        requires
            n <= old(self).blocks@.len(),
            old(self).start == number(old(self).freed@.len() as int),
            forall|b: int|
                #![trigger old(self).blocks@[b]]
                0 <= b < n ==> old(self).blocks@[b]@.data is None && old(
                    self,
                ).blocks@[b]@.armed is None,
        ensures
            final(self)@ == old(self)@,
            final(self).blocks@ == old(self).blocks@.skip(n as int),
            final(self).freed@.len() == old(self).freed@.len() + n,
            final(self).start == number(final(self).freed@.len() as int),
            final(self).senders == old(self).senders,
            final(self).next == old(self).next,
    {
        let ghost view = self@;
        let rest = self.blocks.split_off(n);
        self.blocks = rest;
        self.start = self.start.wrapping_add(n);
        proof {
            let before = old(self).freed@.len() as int;
            lemma_number(before + n, before);
            self.freed@ = view.take(before + n);
            assert(self.blocks@ =~= old(self).blocks@.skip(n as int));
            assert(self@ =~= view);
        }
    }
}

impl<D> Hub<D> {
    /// How many frames have been freed.
    spec fn base(&self) -> int {
        self.freed@.len() as int
    }

    /// The position of the block at index `b` of the frame at index `f`.
    spec fn spot(&self, f: int, b: int) -> (int, int) {
        (self.base() + f, self.channels@[f].freed@.len() + b)
    }

    /// Whether there is a block at index `b` of the frame at index `f`.
    spec fn holds(&self, f: int, b: int) -> bool {
        &&& 0 <= f < self.channels@.len()
        &&& 0 <= b < self.channels@[f].blocks@.len()
    }

    spec fn floor(&self) -> (int, int) {
        self.spot(self.floor_frame as int, self.floor_block as int)
    }

    /// Each link names what comes right behind it, up to the last, and the numbers
    /// are right.
    spec fn chained(&self) -> bool {
        &&& self.start == number(self.base())
        &&& forall|f: int|
            #![trigger self.channels@[f]]
            0 <= f < self.channels@.len() ==> {
                &&& leads(
                    link_target(self.channels@[f].next),
                    self.base() + f,
                    self.base() + self.channels@.len(),
                )
                &&& self.channels@[f].start == number(self.channels@[f].freed@.len() as int)
                &&& self.channels@[f].blocks@.len() > 0
            }
        &&& forall|f: int, b: int|
            #![trigger self.channels@[f].blocks@[b]]
            self.holds(f, b) ==> leads(
                link_target(self.channels@[f].blocks@[b].next),
                self.channels@[f].freed@.len() + b,
                self.channels@[f]@.len() as int,
            )
    }

    /// The counters say how many pointers and senders there are.
    spec fn counted(&self) -> bool {
        &&& forall|f: int|
            #![trigger self.channels@[f]]
            0 <= f < self.channels@.len() ==> self.channels@[f].senders == self.writers@.count(
                self.base() + f,
            )
        &&& forall|f: int, b: int|
            #![trigger self.channels@[f].blocks@[b]]
            self.holds(f, b) ==> self.channels@[f].blocks@[b].holders == self.handles@.count(
                self.spot(f, b),
            )
        &&& forall|f: int| f < self.base() ==> #[trigger] self.writers@.count(f) == 0
    }

    /// Nobody stands before the floor, nothing before it has data, and nothing behind
    /// it has been freed. Of a frame before it, one block is left.
    spec fn floored(&self) -> bool {
        &&& self.floor_frame < self.channels@.len()
        &&& self.floor_block <= self.channels@[self.floor_frame as int].blocks@.len()
        &&& forall|f: int|
            #![trigger self.channels@[f]]
            self.floor_frame < f < self.channels@.len() ==> self.channels@[f].freed@.len() == 0
        &&& forall|f: int|
            #![trigger self.channels@[f]]
            0 <= f < self.floor_frame ==> self.channels@[f].blocks@.len() == 1
        &&& forall|h: (int, int)| #[trigger]
            self.handles@.contains(h) ==> at_or_before(self.floor(), h)
        &&& forall|f: int, b: int|
            #![trigger self@.frames[f][b]]
            self@.has((f, b)) && !at_or_before(self.floor(), (f, b))
                ==> self@.frames[f][b].data is None
    }

    /// Every signal that is there or was released is on record.
    spec fn recorded(&self) -> bool {
        &&& self.pulses.made().finite()
        &&& forall|f: int, b: int|
            #![trigger self@.frames[f][b]]
            self@.has((f, b)) && self@.frames[f][b].signal is Some ==> self.pulses.made().contains(
                self@.frames[f][b].signal->0,
            )
        &&& forall|i: int|
            #![trigger self.pulses.fired()[i]]
            0 <= i < self.pulses.fired().len() ==> self.pulses.made().contains(
                signal_of(self.pulses.fired()[i]),
            )
        &&& forall|f: int, b: int|
            #![trigger self@.frames[f][b]]
            self@.has((f, b)) && self@.frames[f][b].armed is Some ==> self.pulses.made().contains(
                signal_of(self@.frames[f][b].armed->0),
            )
    }

    /// The first frame with a sender is the one on record.
    spec fn led(&self) -> bool {
        match self.first {
            Some(k) => {
                &&& k < self.channels@.len()
                &&& self.writers@.count(self.base() + k) > 0
                &&& forall|g: int| g < self.base() + k ==> #[trigger] self.writers@.count(g) == 0
            },
            None => forall|g: int| #[trigger] self.writers@.count(g) == 0,
        }
    }

    /// The chain is in one piece and its counters are right.
    spec fn woven(&self) -> bool {
        &&& self.chained()
        &&& self.counted()
        &&& self.floored()
        &&& self.recorded()
        &&& self@.well_placed()
    }

    /// A chain of which it is known where the senders begin.
    pub closed spec fn linked(&self) -> bool {
        &&& self.woven()
        &&& self.led()
    }

    /// The floor is where the first pointer stands, or at the very end if there is
    /// none.
    spec fn exact(&self) -> bool {
        if self.floor_block < self.channels@[self.floor_frame as int].blocks@.len() {
            self.handles@.contains(self.floor())
        } else {
            self.floor_frame == self.channels@.len() - 1
        }
    }

    /// The index of the first frame that is not over or not before the floor.
    spec fn slack(&self) -> int {
        match self.first {
            Some(k) if k < self.floor_frame => k as int,
            _ => self.floor_frame as int,
        }
    }

    /// No more than half of what is kept is of no use.
    pub closed spec fn trim(&self) -> bool {
        let blocks = self.channels@[self.floor_frame as int].blocks@.len();
        &&& self.exact()
        &&& self.floor_block < blocks ==> self.floor_block <= blocks - self.floor_block
        &&& self.floor_block >= blocks ==> blocks == 1
        &&& self.slack() <= self.channels@.len() - self.slack()
    }

    /// What holds of a hub between operations.
    pub open spec fn wf(&self) -> bool {
        &&& self.linked()
        &&& self.trim()
        &&& self@.inv()
    }

    /// How many frames are kept in memory.
    pub closed spec fn stored_frames(&self) -> nat {
        self.channels@.len()
    }

    /// How many blocks of frame `f` are kept in memory.
    pub closed spec fn stored_blocks(&self, f: int) -> nat {
        if self.base() <= f < self.base() + self.channels@.len() {
            self.channels@[f - self.base()].blocks@.len()
        } else {
            0
        }
    }

    /// A hub keeps no more than about twice what is of use: of each frame, the blocks
    /// that some pointer can come to, and of the frames, those that some pointer can
    /// come to or that are not over.
    pub proof fn law_storage_is_bounded(&self, f: int)
        requires
            self.wf(),
            0 <= f < self@.frames.len(),
        ensures
            self.stored_blocks(f) <= 2 * self@.blocks_in_reach(f, self@.frames[f].len() as int) + 1,
            self.stored_frames() <= 2 * self@.frames_in_use(self@.frames.len() as int) + 2,
    {
        let base = self.base();
        let n = self@.frames.len() as int;
        let held = self.floor_block < self.channels@[self.floor_frame as int].blocks@.len();
        if held {
            assert forall|p: (int, int)| at_or_before(self.floor(), p) implies
                #[trigger] self@.reachable(p) by {
                assert(self@.handles.contains(self.floor()));
            }
        }
        let k = if held || self.slack() < self.floor_frame {
            base + self.slack()
        } else {
            n
        };
        assert forall|g: int| k <= g < n implies #[trigger] self@.in_use(g) by {
            let _ = self.channels@[g - base];
            self.lemma_spot(g - base, self.channels@[g - base].blocks@.len() - 1);
            if g - base < self.floor_frame || !held {
                assert(self@.writers.count(base + self.first->0) > 0);
            }
        }
        self@.lemma_frames_in_use(k, n);
        if base <= f {
            let channel = self.channels@[f - base];
            let end = self@.frames[f].len() as int;
            assert(self@.frames[f] == channel@);
            if f > base + self.floor_frame {
                assert forall|b: int| 0 <= b < end implies #[trigger] self@.reachable((f, b)) by {}
                self@.lemma_blocks_in_reach(f, 0, end);
            } else if f == base + self.floor_frame && held {
                let from = self.floor().1;
                assert forall|b: int| from <= b < end implies #[trigger] self@.reachable(
                    (f, b),
                ) by {}
                self@.lemma_blocks_in_reach(f, from, end);
            }
        }
    }

    /// Every pointer stands at the floor or behind it.
    proof fn lemma_handles_above_floor(&self, h: (int, int))
        requires
            self.woven(),
            self.handles@.contains(h),
        ensures
            self@.has(h),
            self@.reachable(h),
            at_or_before(self.floor(), h),
    {
        assert(self@.handles.contains(h));
    }

    /// What some pointer can come to lies at the floor or behind it.
    proof fn lemma_reachable(&self, p: (int, int))
        requires
            self.woven(),
            self@.reachable(p),
        ensures
            at_or_before(self.floor(), p),
    {
        let h = choose|h: (int, int)| #[trigger] self@.handles.contains(h) && at_or_before(h, p);
        self.lemma_handles_above_floor(h);
    }

    /// The block at an index is the one at its position.
    proof fn lemma_spot(&self, f: int, b: int)
        requires
            self.holds(f, b),
        ensures
            self@.has(self.spot(f, b)),
            self@.block(self.spot(f, b)) == self.channels@[f].blocks@[b]@,
            self@.frames[self.base() + f] == self.channels@[f]@,
            self@.last(self.base() + f) == self.channels@[f].freed@.len()
                + self.channels@[f].blocks@.len() - 1,
    {
    }

    /// Finds the block at a position that lies at the floor or behind it.
    fn locate(&self, p: &Place) -> (found: (usize, usize))
        requires
            self.woven(),
            self@.has(p.pos()),
            at_or_before(self.floor(), p.pos()),
        ensures
            self.holds(found.0 as int, found.1 as int),
            self.spot(found.0 as int, found.1 as int) == p.pos(),
    {
        proof {
            use_type_invariant(p);
        }
        let end: usize = self.channels.len();
        let ghost f = p.pos().0 - self.base();
        proof {
            lemma_number(p.pos().0, self.base());
        }
        let i: usize = p.frame.wrapping_sub(self.start);
        assert(i == f);
        let blocks: usize = self.channels[i].blocks.len();
        proof {
            assert(self@.frames[p.pos().0] == self.channels@[f]@);
            lemma_number(p.pos().1, self.channels@[f].freed@.len() as int);
        }
        let j: usize = p.block.wrapping_sub(self.channels[i].start);
        (i, j)
    }

    /// Drops the data of every block that no pointer can come to any more, one
    /// block at a time from the oldest on, up to the first that is held.
    fn reclaim(&mut self)
        requires
            old(self).linked(),
            old(self)@.wakeful(),
        ensures
            final(self).linked(),
            final(self).trim(),
            final(self)@ == old(self)@.reclaimed(),
    {
        loop
            invariant
                self.linked(),
                old(self)@.wakeful(),
                self@.writers == old(self)@.writers,
                self@.handles == old(self)@.handles,
                self@.fired == old(self)@.fired,
                self@.frames.len() == old(self)@.frames.len(),
                forall|f: int|
                    0 <= f < self@.frames.len() ==> (#[trigger] self@.frames[f]).len() == old(
                        self,
                    )@.frames[f].len(),
                forall|f: int, b: int|
                    #![trigger self@.frames[f][b]]
                    0 <= f < self@.frames.len() && 0 <= b < self@.frames[f].len()
                        ==> self@.frames[f][b] == (if at_or_before(self.floor(), (f, b)) {
                        old(self)@.frames[f][b]
                    } else {
                        BlockView { data: None, ..old(self)@.frames[f][b] }
                    }),
            ensures
                self.exact(),
                forall|p: (int, int)|
                    #![trigger old(self)@.reachable(p)]
                    self@.has(p) ==> (at_or_before(self.floor(), p) <==> old(self)@.reachable(p)),
            decreases
                    self.channels@.len() - self.floor_frame,
                    self.channels@[self.floor_frame as int].blocks@.len() - self.floor_block,
        {
            let f: usize = self.floor_frame;
            let b: usize = self.floor_block;
            let ghost before = *self;
            if b < self.channels[f].blocks.len() {
                proof {
                    self.lemma_spot(f as int, b as int);
                    assert(self.channels@[f as int].blocks@[b as int].holders
                        == self.handles@.count(self.floor()));
                }
                if self.channels[f].blocks[b].holders > 0 {
                    proof {
                        assert(self.handles@.contains(self.floor()));
                        assert forall|p: (int, int)| #[trigger] old(self)@.reachable(p)
                            && self@.has(p) implies at_or_before(self.floor(), p) by {
                            let h = choose|h: (int, int)|
                                #[trigger] old(self)@.handles.contains(h) && at_or_before(h, p);
                            self.lemma_handles_above_floor(h);
                        }
                        assert(old(self)@.handles.contains(self.floor()));
                    }
                    break;
                }
                self.channels[f].blocks[b].data = None;
                proof {
                    self.lemma_differs_in(&before, f as int, b as int);
                }
                self.floor_block = b + 1;
                proof {
                    assert forall|h: (int, int)| #[trigger] self.handles@.contains(
                        h,
                    ) implies at_or_before(self.floor(), h) by {
                        assert(before.handles@.contains(h));
                        assert(h != before.floor());
                    }
                }
            } else if f < self.channels.len() - 1 {
                proof {
                    let frame = self.base() + f;
                    assert(self@.frames[frame] == self.channels@[f as int]@);
                    assert forall|g: int, c: int|
                        #![trigger self@.frames[g][c]]
                        self@.has((g, c)) && c != self@.last(
                            g,
                        ) implies self@.frames[g][c].armed is None by {
                        assert(old(self)@.alert(g, c));
                        let _ = old(self)@.frames[g][c];
                    }
                }
                self.free_blocks(b - 1);
                let ghost freed = *self;
                self.floor_frame = f + 1;
                self.floor_block = 0;
                proof {
                    let _ = self.channels@[f + 1];
                    assert(self@ == before@);
                    assert(self@.frames[before.base() + f] == self.channels@[f as int]@);
                    assert(freed.floor() == before.floor());
                    assert forall|h: (int, int)| #[trigger] self.handles@.contains(
                        h,
                    ) implies at_or_before(self.floor(), h) by {
                        before.lemma_handles_above_floor(h);
                    }
                    assert forall|g: int, c: int|
                        #![trigger self@.frames[g][c]]
                        self@.has((g, c)) && !at_or_before(
                            self.floor(),
                            (g, c),
                        ) implies self@.frames[g][c].data is None && !at_or_before(
                        before.floor(),
                        (g, c),
                    ) by {
                        if at_or_before(before.floor(), (g, c)) {
                            assert(g == before.base() + f);
                        }
                    }
                }
            } else {
                proof {
                    assert forall|p: (int, int)| #[trigger] old(self)@.reachable(p)
                        && self@.has(p) implies at_or_before(self.floor(), p) by {
                        let h = choose|h: (int, int)|
                            #[trigger] old(self)@.handles.contains(h) && at_or_before(h, p);
                        self.lemma_handles_above_floor(h);
                    }
                    assert forall|p: (int, int)| #[trigger] old(self)@.reachable(p) || !(self@.has(
                        p,
                    ) && at_or_before(self.floor(), p)) by {
                        assert(self@.frames[self.base() + f] == self.channels@[f as int]@);
                    }
                }
                break;
            }
        }
        assert(self@.frames =~~= old(self)@.reclaimed().frames);
        proof {
            old(self)@.lemma_reclaimed();
        }
        self.compact();
    }

    /// Frees what is of no use, once that is more than what is.
    fn compact(&mut self)
        requires
            old(self).linked(),
            old(self)@.wakeful(),
            old(self).exact(),
        ensures
            final(self).linked(),
            final(self).trim(),
            final(self)@ == old(self)@,
    {
        let f: usize = self.floor_frame;
        let b: usize = self.floor_block;
        let end: usize = self.channels[f].blocks.len();
        proof {
            assert forall|g: int, c: int|
                #![trigger self@.frames[g][c]]
                self@.has((g, c)) && c != self@.last(
                    g,
                ) implies self@.frames[g][c].armed is None by {
                assert(self@.alert(g, c));
            }
        }
        if b == end {
            self.free_blocks(b - 1);
        } else if b > end - b {
            self.free_blocks(b);
        }
        let n: usize = match self.first {
            Some(k) if k < f => k,
            _ => f,
        };
        if n > self.channels.len() - n {
            self.free_frames(n);
        }
    }

    /// Frees `n` blocks of the floor's frame that lie before the floor, but not the
    /// last.
    fn free_blocks(&mut self, n: usize)
        requires
            old(self).linked(),
            forall|g: int, c: int|
                #![trigger old(self)@.frames[g][c]]
                old(self)@.has((g, c)) && c != old(self)@.last(g) ==> old(
                    self,
                )@.frames[g][c].armed is None,
            n <= old(self).floor_block,
            n < old(self).channels@[old(self).floor_frame as int].blocks@.len(),
        ensures
            final(self).linked(),
            final(self)@ == old(self)@,
            final(self).floor() == old(self).floor(),
            final(self).base() == old(self).base(),
            final(self).floor_frame == old(self).floor_frame,
            final(self).floor_block == old(self).floor_block - n,
            final(self).first == old(self).first,
            final(self).channels@.len() == old(self).channels@.len(),
            final(self).channels@[old(self).floor_frame as int].blocks@.len() == old(
                self,
            ).channels@[old(self).floor_frame as int].blocks@.len() - n,
    {
        let f: usize = self.floor_frame;
        let ghost before = *self;
        proof {
            let channel = self.channels@[f as int];
            assert forall|c: int|
                #![trigger channel.blocks@[c]]
                0 <= c < n implies channel.blocks@[c]@.data is None
                && channel.blocks@[c]@.armed is None by {
                self.lemma_spot(f as int, c);
                let p = self.spot(f as int, c);
                let _ = self@.frames[p.0][p.1];
            }
        }
        self.channels[f].free(n);
        self.floor_block = self.floor_block - n;
        proof {
            assert(self@.frames =~= before@.frames);
            assert(self.floor() == before.floor());
            assert forall|g: int| 0 <= g < self.channels@.len() && g != f implies
                #[trigger] self.channels@[g] == before.channels@[g] by {}
            assert forall|g: int, c: int|
                #![trigger self.channels@[g].blocks@[c]]
                self.holds(g, c) implies self.channels@[g].blocks@[c]
                == before.channels@[g].blocks@[if g == f {
                c + n
            } else {
                c
            }] && self.spot(g, c) == before.spot(
                g,
                if g == f {
                    c + n
                } else {
                    c
                },
            ) by {}
        }
    }

    /// Frees the first `n` frames, which lie before the floor and are over.
    fn free_frames(&mut self, n: usize)
        requires
            old(self).linked(),
            n <= old(self).floor_frame,
            old(self).first is None || old(self).first->0 >= n,
        ensures
            final(self).linked(),
            final(self)@ == old(self)@,
            final(self).floor() == old(self).floor(),
            final(self).floor_frame == old(self).floor_frame - n,
            final(self).floor_block == old(self).floor_block,
            final(self).channels@ == old(self).channels@.skip(n as int),
            final(self).first == (match old(self).first {
                Some(k) => Some((k - n) as usize),
                None => None,
            }),
    {
        let ghost before = *self;
        let rest = self.channels.split_off(n);
        self.channels = rest;
        self.start = self.start.wrapping_add(n);
        self.floor_frame = self.floor_frame - n;
        self.first = match self.first {
            Some(k) => Some(k - n),
            None => None,
        };
        proof {
            lemma_number(before.base() + n, before.base());
            self.freed@ = before@.frames.take(before.base() + n);
            assert(self.channels@ =~= before.channels@.skip(n as int));
            assert(self@.frames =~= before@.frames);
            assert forall|g: int| 0 <= g < self.channels@.len() implies #[trigger] self.channels@[g]
                == before.channels@[g + n] by {}
            assert forall|g: int, c: int|
                #![trigger self.channels@[g].blocks@[c]]
                self.holds(g, c) implies before.holds(g + n, c) && self.channels@[g].blocks@[c]
                == before.channels@[g + n].blocks@[c] && self.spot(g, c) == before.spot(
                g + n,
                c,
            ) by {}
            assert(self.floor() == before.floor());
            assert forall|g: int| g < self.base() implies #[trigger] self.writers@.count(g)
                == 0 by {}
        }
    }

    /// The chains of two hubs differ in the block at `(f, b)` at most.
    spec fn differs_in(&self, other: &Hub<D>, f: int, b: int) -> bool {
        &&& self.freed == other.freed
        &&& self.channels@.len() == other.channels@.len()
        &&& self.holds(f, b)
        &&& forall|g: int|
            #![trigger self.channels@[g]]
            0 <= g < self.channels@.len() ==> {
                &&& self.channels@[g].blocks@.len() == other.channels@[g].blocks@.len()
                &&& self.channels@[g].freed == other.channels@[g].freed
                &&& self.channels@[g].start == other.channels@[g].start
                &&& self.channels@[g].next == other.channels@[g].next
                &&& self.channels@[g].senders == other.channels@[g].senders
            }
        &&& forall|g: int, c: int|
            #![trigger self.channels@[g].blocks@[c]]
            self.holds(g, c) && !(g == f && c == b) ==> self.channels@[g].blocks@[c]
                == other.channels@[g].blocks@[c]
    }

    proof fn lemma_differs_in(&self, other: &Hub<D>, f: int, b: int)
        requires
            self.differs_in(other, f, b),
        ensures
            ({
                let p = self.spot(f, b);
                self@.frames == other@.frames.update(
                    p.0,
                    other@.frames[p.0].update(p.1, self.channels@[f].blocks@[b]@),
                )
            }),
            self.channels@[f].blocks@[b]@ == other.channels@[f].blocks@[b]@ ==> self@.frames
                == other@.frames,
            self@.frames.len() == other@.frames.len(),
            forall|g: int|
                0 <= g < self@.frames.len() ==> (#[trigger] self@.frames[g]).len()
                    == other@.frames[g].len(),
            forall|p: (int, int)| self@.has(p) <==> other@.has(p),
            forall|g: int, c: int| #[trigger] self.spot(g, c) == other.spot(g, c) || !(0 <= g
                < self.channels@.len()),
            self.spot(f, b) == other.spot(f, b),
            other@.block(other.spot(f, b)) == other.channels@[f].blocks@[b]@,
            self@.block(self.spot(f, b)) == self.channels@[f].blocks@[b]@,
            self@.has(self.spot(f, b)),
    {
        let p = self.spot(f, b);
        other.lemma_spot(f, b);
        self.lemma_spot(f, b);
        let frames = other@.frames.update(
            p.0,
            other@.frames[p.0].update(p.1, self.channels@[f].blocks@[b]@),
        );
        assert forall|g: int| 0 <= g < frames.len() implies self@.frames[g]
            =~= #[trigger] frames[g] by {
            if g >= self.base() {
                let i = g - self.base();
                let _ = self.channels@[i];
                assert(self@.frames[g] == self.channels@[i]@);
                assert(other@.frames[g] == other.channels@[i]@);
                assert forall|c: int| 0 <= c < self@.frames[g].len() implies self@.frames[g][c]
                    == #[trigger] frames[g][c] by {
                    let _ = self.channels@[i].blocks@[c - self.channels@[i].freed@.len()];
                }
            }
        }
        assert(self@.frames =~= frames);
        if self.channels@[f].blocks@[b]@ == other.channels@[f].blocks@[b]@ {
            assert(other@.frames[p.0].update(p.1, self.channels@[f].blocks@[b]@)
                =~= other@.frames[p.0]);
            assert(frames =~= other@.frames);
        }
    }

    /// Puts one more pointer at the block at `(f, b)`.
    fn hold(&mut self, f: usize, b: usize)
        requires
            old(self).linked(),
            old(self).holds(f as int, b as int),
            at_or_before(old(self).floor(), old(self).spot(f as int, b as int)),
            old(self)@.handles.len() < usize::MAX,
        ensures
            final(self).linked(),
            old(self).trim() ==> final(self).trim(),
            final(self)@ == old(self)@.held(old(self).spot(f as int, b as int)),
    {
        let ghost p = self.spot(f as int, b as int);
        assert(self.channels@[f as int].blocks@[b as int].holders == self.handles@.count(p));
        self.channels[f].blocks[b].holders = self.channels[f].blocks[b].holders + 1;
        proof {
            self.handles@ = self.handles@.insert(p);
            self.lemma_differs_in(old(self), f as int, b as int);
            old(self)@.lemma_held(p);
            assert forall|h: (int, int)| #[trigger] self.handles@.contains(h) implies at_or_before(
                self.floor(),
                h,
            ) by {
                assert(h == p || old(self).handles@.contains(h));
            }
        }
    }

    /// Takes one pointer away from the block at `(f, b)`.
    fn unhold(&mut self, f: usize, b: usize)
        requires
            old(self).linked(),
            old(self).holds(f as int, b as int),
            old(self)@.handles.contains(old(self).spot(f as int, b as int)),
        ensures
            final(self).linked(),
            final(self)@ == old(self)@.dropped(old(self).spot(f as int, b as int)),
            final(self).floor() == old(self).floor(),
            final(self).differs_in(old(self), f as int, b as int),
    {
        let ghost p = self.spot(f as int, b as int);
        assert(self.channels@[f as int].blocks@[b as int].holders == self.handles@.count(p));
        self.channels[f].blocks[b].holders = self.channels[f].blocks[b].holders - 1;
        proof {
            self.handles@ = self.handles@.remove(p);
            self.lemma_differs_in(old(self), f as int, b as int);
            old(self)@.lemma_dropped(p);
            assert forall|h: (int, int)| #[trigger] self.handles@.contains(h) implies at_or_before(
                self.floor(),
                h,
            ) by {
                assert(old(self).handles@.contains(h));
            }
        }
    }

    /// Moves a pointer from `p` on to `q`.
    pub(crate) fn shift(&mut self, p: &Place, q: &Place)
        requires
            old(self).linked(),
            old(self)@.wakeful(),
            old(self)@.handles.contains(p.pos()),
            old(self)@.has(q.pos()),
            at_or_before(p.pos(), q.pos()),
        ensures
            final(self).linked(),
            final(self).trim(),
            final(self)@ == old(self)@.moved(p.pos(), q.pos()),
    {
        proof {
            self.lemma_handles_above_floor(p.pos());
            self@.lemma_dropped(p.pos());
        }
        let (f, b) = self.locate(p);
        let (g, c) = self.locate(q);
        self.unhold(f, b);
        proof {
            let _ = self.channels@[g as int];
        }
        self.hold(g, c);
        proof {
            self@.lemma_alike_frames(old(self)@);
        }
        self.reclaim();
    }

    /// Lets go of a pointer at `p`.
    pub(crate) fn release(&mut self, p: &Place)
        requires
            old(self).linked(),
            old(self)@.wakeful(),
            old(self)@.handles.contains(p.pos()),
        ensures
            final(self).linked(),
            final(self).trim(),
            final(self)@ == old(self)@.released(p.pos()),
    {
        proof {
            self.lemma_handles_above_floor(p.pos());
        }
        let (f, b) = self.locate(p);
        self.unhold(f, b);
        proof {
            self@.lemma_alike_frames(old(self)@);
        }
        self.reclaim();
    }

    /// Puts one more pointer at `p`, where one can come to.
    pub(crate) fn share(&mut self, p: &Place)
        requires
            old(self).linked(),
            old(self)@.has(p.pos()),
            old(self)@.reachable(p.pos()),
            old(self)@.handles.len() < usize::MAX,
        ensures
            final(self).linked(),
            old(self).trim() ==> final(self).trim(),
            final(self)@ == old(self)@.held(p.pos()),
    {
        proof {
            self.lemma_reachable(p.pos());
        }
        let (f, b) = self.locate(p);
        self.hold(f, b);
    }

    /// Counts one more sender in the frame of `p`.
    pub(crate) fn join(&mut self, p: &Place)
        requires
            old(self).linked(),
            old(self)@.handles.contains(p.pos()),
            old(self)@.writers.len() < usize::MAX,
        ensures
            final(self).linked(),
            old(self).trim() ==> final(self).trim(),
            final(self)@ == old(self)@.joined(p.pos().0),
    {
        proof {
            self.lemma_handles_above_floor(p.pos());
        }
        let (f, b) = self.locate(p);
        let ghost frame = p.pos().0;
        assert(self.channels@[f as int].senders == self.writers@.count(frame));
        self.channels[f].senders = self.channels[f].senders + 1;
        self.first = match self.first {
            Some(k) if k < f => Some(k),
            _ => Some(f),
        };
        proof {
            self.writers@ = self.writers@.insert(frame);
            assert(self@.frames =~~= old(self)@.frames);
            old(self)@.lemma_joined(frame);
            assert forall|g: int| g != frame implies #[trigger] self.writers@.count(g)
                == old(self).writers@.count(g) by {}
        }
    }

    /// Whether the frame of `p` is over.
    pub(crate) fn over(&self, p: &Place) -> (over: bool)
        requires
            self.linked(),
            self@.handles.contains(p.pos()),
        ensures
            over == self@.over(p.pos().0),
    {
        proof {
            self.lemma_handles_above_floor(p.pos());
        }
        let (f, b) = self.locate(p);
        self.over_at(f)
    }

    /// Whether the frame at `f` is over.
    fn over_at(&self, f: usize) -> (over: bool)
        requires
            self.linked(),
            f < self.channels@.len(),
        ensures
            over == self@.over(self.base() + f),
    {
        match self.first {
            Some(k) => {
                proof {
                    if k <= f {
                        assert(self@.writers.count(self.base() + k) > 0);
                    }
                }
                f < k
            },
            None => true,
        }
    }

    /// Counts one sender fewer in the frame of `p` and wakes whoever waits at the end
    /// of a frame that is over now.
    pub(crate) fn leave(&mut self, p: &Place)
        requires
            old(self).wf(),
            old(self)@.writers.contains(p.pos().0),
            old(self)@.handles.contains(p.pos()),
        ensures
            final(self).linked(),
            final(self).trim(),
            final(self)@ == old(self)@.departed(p.pos().0),
    {
        proof {
            self.lemma_handles_above_floor(p.pos());
        }
        let (f, b) = self.locate(p);
        let ghost frame = p.pos().0;
        assert(self.channels@[f as int].senders == self.writers@.count(frame));
        assert(self.first is Some && self.first->0 <= f);
        self.channels[f].senders = self.channels[f].senders - 1;
        proof {
            self.writers@ = self.writers@.remove(frame);
            assert(self@.frames =~~= old(self)@.frames);
            old(self)@.lemma_left(frame);
            assert forall|g: int| g != frame implies #[trigger] self.writers@.count(g)
                == old(self).writers@.count(g) by {}
            assert(self@ == old(self)@.left(frame));
            assert(self.woven());
            old(self).lemma_ended_before(self);
            old(self)@.lemma_departed_inv(frame);
        }
        self.settle(f);
        self.compact();
    }

    /// Counts a sender of the frame of `p` as one of the next frame and wakes whoever
    /// waits at the end of a frame that is over now.
    pub(crate) fn promote(&mut self, p: &Place)
        requires
            old(self).wf(),
            old(self)@.writers.contains(p.pos().0),
            old(self)@.has_next(p.pos().0),
            old(self)@.handles.contains(p.pos()),
        ensures
            final(self).linked(),
            final(self).trim(),
            final(self)@ == old(self)@.promoted(p.pos().0),
    {
        proof {
            self.lemma_handles_above_floor(p.pos());
        }
        let (f, b) = self.locate(p);
        let end: usize = self.channels.len();
        let ghost frame = p.pos().0;
        let ghost next = frame + 1;
        proof {
            assert(f + 1 < end);
            assert(self.channels@[f as int].senders == self.writers@.count(frame));
            assert(self.channels@[f + 1].senders == self.writers@.count(next));
            old(self)@.lemma_left(frame);
            old(self)@.left(frame).lemma_joined(next);
            assert(self@.left(frame).writers.count(next) <= self@.left(frame).writers.len());
        }
        assert(self.first is Some && self.first->0 <= f);
        self.channels[f].senders = self.channels[f].senders - 1;
        self.channels[f + 1].senders = self.channels[f + 1].senders + 1;
        proof {
            self.writers@ = self.writers@.remove(frame).insert(next);
            assert(self@.frames =~~= old(self)@.frames);
            assert(old(self)@.passed(frame) == old(self)@.left(frame).joined(next));
            assert forall|g: int| g != frame && g != next implies #[trigger] self.writers@.count(g)
                == old(self).writers@.count(g) by {}
            assert(self@ == old(self)@.passed(frame));
            assert(self.woven());
            old(self).lemma_ended_before(self);
            old(self)@.lemma_promoted_inv(frame);
        }
        self.settle(f);
        self.compact();
    }

    /// Before frame `k` there is no sender, and nobody is left to wake.
    spec fn settled_to(&self, k: int) -> bool {
        &&& forall|g: int| g < k ==> #[trigger] self.writers@.count(g) == 0
        &&& forall|f: int|
            #![trigger self@.frames[f]]
            0 <= f < k && f < self@.frames.len() ==> self@.frames[f][self@.last(f)].armed is None
    }

    proof fn lemma_ended_before(&self, after: &Hub<D>)
        requires
            self.linked(),
            self@.inv(),
            self.first is Some,
            after@.frames == self@.frames,
            forall|g: int|
                g < self.base() + self.first->0 ==> #[trigger] after.writers@.count(g)
                    == self.writers@.count(g),
        ensures
            after.settled_to(self.base() + self.first->0),
    {
        let k = self.base() + self.first->0;
        assert forall|f: int|
            #![trigger after@.frames[f]]
            0 <= f < k && f < after@.frames.len() implies after@.frames[f][after@.last(
            f,
        )].armed is None by {
            assert(self@.over(f));
            assert(self@.alert(f, self@.last(f)));
        }
    }

    /// Finds the first frame with a sender, if it is not the one that it was, and
    /// wakes whoever waits at the end of a frame before it.
    fn settle(&mut self, f: usize)
        requires
            old(self).woven(),
            old(self).first is Some,
            old(self).first->0 < old(self).channels@.len(),
            old(self).settled_to(old(self).base() + old(self).first->0),
            f < old(self).channels@.len(),
            old(self).first->0 >= f || old(self)@.writers.count(
                old(self).base() + old(self).first->0,
            ) > 0,
            old(self)@.reachable((old(self).base() + f, old(self)@.last(old(self).base() + f))),
        ensures
            final(self).linked(),
            old(self).exact() ==> final(self).exact(),
            final(self)@ == old(self)@.swept(old(self)@.frames.len() as int),
    {
        let ghost start = self@;
        let ghost base = self.base();
        let mut k: usize = self.first.unwrap();
        proof {
            start.lemma_swept_same(base + k);
        }
        while k < self.channels.len() && self.channels[k].senders == 0
            invariant
                self.woven(),
                old(self).exact() ==> self.exact(),
                start.well_placed(),
                f < self.channels@.len(),
                k <= self.channels@.len(),
                self.base() == base,
                base + self.channels@.len() == start.frames.len(),
                self@ == start.swept(base + k),
                forall|g: int| g < base + k ==> #[trigger] start.writers.count(g) == 0,
                k >= f || start.writers.count(base + k) > 0,
                start.reachable((base + f, start.last(base + f))),
            decreases self.channels@.len() - k,
        {
            let last: usize = self.channels[k].blocks.len();
            proof {
                assert(self.channels@[k as int].senders == self.writers@.count(base + k));
                assert(self@.writers == start.writers);
                let h = choose|h: (int, int)|
                    #[trigger] start.handles.contains(h) && at_or_before(
                        h,
                        (base + f, start.last(base + f)),
                    );
                assert(self@.handles.contains(h));
                assert(self@.frames[base + k].len() == start.frames[base + k].len());
                self.lemma_spot(k as int, last - 1);
                start.lemma_swept_step(base + k);
                assert(start.over(base + k)) by {
                    assert(start.writers.count(base + k) == 0);
                }
            }
            self.wake(k, last - 1);
            k = k + 1;
        }
        self.first = if k < self.channels.len() {
            Some(k)
        } else {
            None
        };
        proof {
            let n = start.frames.len() as int;
            assert(self.writers@ == start.writers);
            if base + k < n {
                assert(self.channels@[k as int].senders == self.writers@.count(base + k));
                assert forall|g: int| base + k <= g < n implies !#[trigger] start.over(g) by {
                    assert(start.writers.count(base + k) > 0);
                }
            } else {
                assert forall|g: int| #[trigger] self.writers@.count(g) == 0 by {
                    if g >= n {
                        assert(!start.writers.contains(g));
                    }
                }
            }
            start.lemma_swept_rest(base + k, n);
        }
    }

    /// Fires the pulse that the block at `(f, b)` keeps back, if there is one.
    fn wake(&mut self, f: usize, b: usize)
        requires
            old(self).woven(),
            old(self).holds(f as int, b as int),
        ensures
            final(self).woven(),
            final(self)@ == old(self)@.woken(old(self).spot(f as int, b as int)),
            old(self).exact() ==> final(self).exact(),
            old(self).trim() ==> final(self).trim(),
            final(self).first == old(self).first,
            final(self).base() == old(self).base(),
            final(self).channels@.len() == old(self).channels@.len(),
    {
        let ghost p = self.spot(f as int, b as int);
        proof {
            self.lemma_spot(f as int, b as int);
        }
        let ghost armed = self@.frames[p.0][p.1].armed;
        if let Some(pulse) = self.channels[f].blocks[b].pulse.take() {
            self.pulses.fire(pulse);
        }
        proof {
            self.lemma_differs_in(old(self), f as int, b as int);
            assert(self@.fired == old(self)@.woken(p).fired);
            assert forall|i: int|
                #![trigger self.pulses.fired()[i]]
                0 <= i < self.pulses.fired().len() implies self.pulses.made().contains(
                signal_of(self.pulses.fired()[i]),
            ) by {
                if i < old(self).pulses.fired().len() {
                    assert(self.pulses.fired()[i] == old(self).pulses.fired()[i]);
                } else {
                    assert(self.pulses.fired()[i] == armed->0);
                }
            }
        }
    }

    /// Puts a block that carries `data` behind the block at `(f, b)`, unless there is
    /// one already; then `data` comes back.
    fn write(&mut self, f: usize, b: usize, data: D) -> (refused: Option<D>)
        requires
            old(self).linked(),
            old(self).holds(f as int, b as int),
            f >= old(self).floor_frame,
            old(self)@.reachable(old(self).spot(f as int, b as int)),
        ensures
            final(self).linked(),
            old(self).trim() ==> final(self).trim(),
            final(self).base() == old(self).base(),
            final(self).channels@.len() == old(self).channels@.len(),
            final(self).floor() == old(self).floor(),
            b == old(self).channels@[f as int].blocks@.len() - 1 ==> {
                &&& refused is None
                &&& final(self)@ == old(self)@.written(old(self).base() + f, data)
                &&& final(self).spot(f as int, b as int) == old(self).spot(f as int, b as int)
                &&& final(self).holds(f as int, b as int)
            },
            b != old(self).channels@[f as int].blocks@.len() - 1 ==> {
                &&& refused == Some(data)
                &&& final(self)@ == old(self)@
            },
    {
        let end: usize = self.channels[f].blocks.len();
        let ghost p = self.spot(f as int, b as int);
        let ghost next = self.spot(f as int, end as int);
        proof {
            self.lemma_spot(f as int, b as int);
            assert(!self@.handles.contains(next));
            assert(link_target(self.channels@[f as int].blocks@[b as int].next) is None <==> b + 1
                == end);
            lemma_number(next.1, self.channels@[f as int].freed@.len() as int);
        }
        let number: usize = self.channels[f].start.wrapping_add(end);
        if self.channels[f].blocks[b].next.set_if_none(number).is_some() {
            proof {
                self.lemma_differs_in(old(self), f as int, b as int);
            }
            return Some(data);
        }
        proof {
            self.lemma_differs_in(old(self), f as int, b as int);
        }
        let ghost linked = *self;
        self.channels[f].blocks.push(Block::new(data));
        proof {
            assert forall|g: int| 0 <= g < self.channels@.len() && g != f implies
                #[trigger] self.channels@[g] == linked.channels@[g] by {}
            let channel = self.channels@[f as int];
            assert(channel@ =~= linked.channels@[f as int]@.push(
                BlockView { data: Some(data), signal: None, armed: None },
            ));
            assert(self@.frames =~= old(self)@.written(p.0, data).frames);
            old(self)@.lemma_written(p.0, data);
            assert(self@ == old(self)@.written(p.0, data));
        }
        None
    }

    /// Tries to put a block that carries `data` behind the one at `p`.
    pub(crate) fn write_behind(&mut self, p: &Place, data: D) -> (refused: Option<D>)
        requires
            old(self).linked(),
            old(self)@.handles.contains(p.pos()),
        ensures
            final(self).linked(),
            old(self).trim() ==> final(self).trim(),
            p.pos().1 == old(self)@.last(p.pos().0) ==> {
                &&& refused is None
                &&& final(self)@ == old(self)@.written(p.pos().0, data)
            },
            p.pos().1 != old(self)@.last(p.pos().0) ==> {
                &&& refused == Some(data)
                &&& final(self)@ == old(self)@
            },
    {
        proof {
            self.lemma_handles_above_floor(p.pos());
        }
        let (f, b) = self.locate(p);
        proof {
            self.lemma_spot(f as int, b as int);
        }
        self.write(f, b, data)
    }

    /// Puts a block that carries `data` behind the last block of the frame of `p`,
    /// wakes whoever waited there, and returns the place of the new block.
    pub(crate) fn append(&mut self, p: &Place, data: D) -> (next: Place)
        requires
            old(self).linked(),
            old(self)@.handles.contains(p.pos()),
        ensures
            final(self).linked(),
            old(self).trim() ==> final(self).trim(),
            ({
                let tail = (p.pos().0, old(self)@.last(p.pos().0));
                &&& final(self)@ == old(self)@.written(p.pos().0, data).woken(tail)
                &&& next.pos() == (tail.0, tail.1 + 1)
            }),
    {
        proof {
            self.lemma_handles_above_floor(p.pos());
        }
        let (f, b) = self.locate(p);
        let last: usize = self.seek(f, b);
        proof {
            self.lemma_spot(f as int, last as int);
            use_type_invariant(p);
        }
        self.write(f, last, data);
        proof {
            let _ = self.channels@[f as int].blocks@[last as int];
        }
        let block: usize = self.channels[f].blocks[last].next.dup().unwrap();
        self.wake(f, last);
        Place {
            frame: p.frame,
            block,
            at: Ghost((p.pos().0, old(self)@.last(p.pos().0) + 1)),
        }
    }

    /// Follows the links from the block at `(f, b)` to the last block of the frame.
    fn seek(&self, f: usize, b: usize) -> (last: usize)
        requires
            self.linked(),
            self.holds(f as int, b as int),
        ensures
            b <= last,
            last == self.channels@[f as int].blocks@.len() - 1,
    {
        let end: usize = self.channels[f].blocks.len();
        let start: usize = self.channels[f].start;
        let ghost freed = self.channels@[f as int].freed@.len() as int;
        let mut last: usize = b;
        loop
            invariant
                self.linked(),
                self.holds(f as int, last as int),
                b <= last,
                end == self.channels@[f as int].blocks@.len(),
                start == self.channels@[f as int].start,
                freed == self.channels@[f as int].freed@.len(),
            ensures
                last == end - 1,
            decreases end - last,
        {
            let ghost block = self.channels@[f as int].blocks@[last as int];
            match self.channels[f].blocks[last].next.dup() {
                Some(next) => {
                    proof {
                        assert(leads(link_target(block.next), freed + last, freed + end));
                        lemma_number(freed + last + 1, freed);
                    }
                    last = next.wrapping_sub(start);
                },
                None => {
                    break;
                },
            }
        }
        last
    }

    /// The place of the last block of the frame of `p`.
    pub(crate) fn tail(&self, p: &Place) -> (tail: Place)
        requires
            self.linked(),
            self@.handles.contains(p.pos()),
        ensures
            tail.pos() == (p.pos().0, self@.last(p.pos().0)),
    {
        proof {
            self.lemma_handles_above_floor(p.pos());
        }
        let (f, b) = self.locate(p);
        let last: usize = self.seek(f, b);
        let ghost freed = self.channels@[f as int].freed@.len() as int;
        proof {
            use_type_invariant(p);
            self.lemma_spot(f as int, last as int);
            lemma_number(freed + last, freed);
        }
        Place {
            frame: p.frame,
            block: self.channels[f].start.wrapping_add(last),
            at: Ghost((p.pos().0, self@.last(p.pos().0))),
        }
    }

    /// Makes sure that a frame follows the frame of `p`; a new one starts with a block
    /// that carries `head`.
    pub(crate) fn open_next(&mut self, p: &Place, head: D)
        requires
            old(self).linked(),
            old(self)@.handles.contains(p.pos()),
        ensures
            final(self).linked(),
            old(self).trim() ==> final(self).trim(),
            final(self)@ == old(self)@.opened(p.pos().0, head),
            final(self)@.has_next(p.pos().0),
    {
        proof {
            self.lemma_handles_above_floor(p.pos());
        }
        let (f, b) = self.locate(p);
        let end: usize = self.channels.len();
        let ghost frame = p.pos().0;
        assert(link_target(self.channels@[f as int].next) is None <==> f + 1 == end);
        if self.channels[f].next.is_none() {
            let ghost before = *self;
            proof {
                lemma_number(before.base() + end, before.base());
            }
            let number: usize = self.start.wrapping_add(end);
            self.channels[f].next.set_if_none(number);
            self.channels.push(Channel::new(0, head));
            proof {
                assert(!before@.handles.contains((frame + 1, 0)));
                assert(!before@.writers.contains(frame + 1));
                assert(self.channels@[f + 1]@ =~= seq![
                    BlockView { data: Some(head), signal: None, armed: None },
                ]);
                assert(self@.frames =~~= before@.opened(frame, head).frames);
                before@.lemma_opened(frame, head);
            }
        }
    }

    /// The first place of the frame that follows the frame of `p`, if one does.
    pub(crate) fn next_frame(&self, p: &Place) -> (next: Option<Place>)
        requires
            self.linked(),
            self@.handles.contains(p.pos()),
        ensures
            match next {
                Some(next) => self@.has_next(p.pos().0) && next.pos() == (p.pos().0 + 1, 0int),
                None => !self@.has_next(p.pos().0),
            },
    {
        proof {
            self.lemma_handles_above_floor(p.pos());
        }
        let (f, b) = self.locate(p);
        match self.channels[f].next.dup() {
            Some(frame) => {
                proof {
                    use_type_invariant(p);
                    lemma_number(0, 0);
                }
                Some(Place { frame, block: 0, at: Ghost((p.pos().0 + 1, 0int)) })
            },
            None => None,
        }
    }

    /// The place behind `p` in its frame, if there is a block.
    pub(crate) fn next_block(&self, p: &Place) -> (next: Option<Place>)
        requires
            self.linked(),
            self@.handles.contains(p.pos()),
        ensures
            match next {
                Some(next) => p.pos().1 < self@.last(p.pos().0) && next.pos() == (
                    p.pos().0,
                    p.pos().1 + 1,
                ),
                None => p.pos().1 == self@.last(p.pos().0),
            },
    {
        proof {
            self.lemma_handles_above_floor(p.pos());
        }
        let (f, b) = self.locate(p);
        proof {
            self.lemma_spot(f as int, b as int);
            let _ = self.channels@[f as int].blocks@[b as int];
        }
        match self.channels[f].blocks[b].next.dup() {
            Some(block) => {
                proof {
                    use_type_invariant(p);
                }
                Some(Place { frame: p.frame, block, at: Ghost((p.pos().0, p.pos().1 + 1)) })
            },
            None => None,
        }
    }

    /// What the block at `p` carries.
    pub(crate) fn data(&self, p: &Place) -> (data: Option<&D>)
        requires
            self.linked(),
            self@.has(p.pos()),
            self@.reachable(p.pos()),
        ensures
            (data matches Some(d) ==> self@.block(p.pos()).data == Some(*d)),
            data is None ==> self@.block(p.pos()).data is None,
    {
        proof {
            self.lemma_reachable(p.pos());
        }
        let (f, b) = self.locate(p);
        proof {
            self.lemma_spot(f as int, b as int);
        }
        self.channels[f].blocks[b].data.as_ref()
    }

    /// Takes out what the block at `p` carries.
    pub(crate) fn take_data(&mut self, p: &Place) -> (data: Option<D>)
        requires
            old(self).linked(),
            old(self)@.has(p.pos()),
            old(self)@.reachable(p.pos()),
        ensures
            final(self).linked(),
            old(self).trim() ==> final(self).trim(),
            final(self)@ == old(self)@.emptied(p.pos()),
            data == old(self)@.block(p.pos()).data,
    {
        proof {
            self.lemma_reachable(p.pos());
        }
        let (f, b) = self.locate(p);
        let data = self.channels[f].blocks[b].data.take();
        proof {
            self.lemma_differs_in(old(self), f as int, b as int);
        }
        data
    }

    /// The signal that fires as soon as something follows the block at `p` or the
    /// frame is over.
    pub(crate) fn signal(&mut self, p: &Place) -> (signal: Signal)
        requires
            old(self).linked(),
            old(self)@.handles.contains(p.pos()),
        ensures
            final(self).linked(),
            old(self).trim() ==> final(self).trim(),
            old(self)@.signalled(p.pos(), final(self)@, signal),
    {
        proof {
            self.lemma_handles_above_floor(p.pos());
        }
        let (f, b) = self.locate(p);
        proof {
            self.lemma_spot(f as int, b as int);
            let _ = self.channels@[f as int].blocks@[b as int];
        }
        if let Some(signal) = self.channels[f].blocks[b].signal.dup() {
            return signal;
        }
        let over: bool = self.over_at(f);
        let (signal, pulse) = self.pulses.create();
        let ghost created = pulse;
        if self.channels[f].blocks[b].signal.set_if_none(signal).is_none() {
            self.channels[f].blocks[b].pulse.swap(pulse);
            if !self.channels[f].blocks[b].next.is_none() || over {
                if let Some(pulse) = self.channels[f].blocks[b].pulse.take() {
                    self.pulses.fire(pulse);
                }
            }
        }
        proof {
            self.lemma_differs_in(old(self), f as int, b as int);
            assert(self@.frames =~~= old(self)@.awaited(p.pos(), created).frames);
            assert(self@ == old(self)@.awaited(p.pos(), created));
        }
        self.channels[f].blocks[b].signal.dup().unwrap()
    }
}

impl<D> Hub<D> {
    /// A hub with one frame and one block, which carries `head`, and a pointer
    /// to that block. No sender is counted yet.
    pub fn new(head: D) -> (new: (Hub<D>, WritePtr))
        ensures
            new.0.wf(),
            new.0@ == HubView::<D>::started(head),
            new.1.pos() == (0int, 0int),
    {
        let mut channels = Vec::new();
        channels.push(Channel::new(0, head));
        let mut hub = Hub {
            channels,
            start: 0,
            freed: Ghost(Seq::empty()),
            floor_frame: 0,
            floor_block: 0,
            first: None,
            pulses: Pulses::none(),
            writers: Ghost(Multiset::empty()),
            handles: Ghost(Multiset::empty()),
        };
        proof {
            lemma_number(0, 0);
            assert(hub.channels@[0]@ =~= HubView::<D>::started(head).frames[0]);
            assert(hub@.frames =~~= HubView::<D>::started(head).frames);
            assert(number(1) == 1);
        }
        hub.hold(0, 0);
        proof {
            let after = HubView::<D>::started(head);
            assert(hub@.handles =~= after.handles);
            assert(after.handles.contains((0, 0)));
            assert(after.reachable((0, 0)));
        }
        (hub, WritePtr { place: Place { frame: 0, block: 0, at: Ghost((0int, 0int)) } })
    }
}

impl WritePtr {
    /// The position that this pointer stands at.
    pub closed spec fn pos(&self) -> (int, int) {
        self.place.pos()
    }

    /// Whether `hub` counts this pointer.
    pub open spec fn stands_in<D>(&self, hub: HubView<D>) -> bool {
        hub.handles.contains(self.pos())
    }

    /// The place that this pointer stands at.
    pub(crate) fn place(&self) -> (place: Place)
        ensures
            place.pos() == self.pos(),
    {
        self.place.twin()
    }

    /// Tries to write a block that carries `data` right behind this pointer.
    /// On success nothing is returned; if a block follows already, `data` comes
    /// back so that it can be written further on.
    pub fn write<D>(&self, hub: &mut Hub<D>, data: D) -> (refused: Option<D>)
        requires
            old(hub).linked(),
            self.stands_in(old(hub)@),
        ensures
            final(hub).linked(),
            old(hub).trim() ==> final(hub).trim(),
            self.pos().1 == old(hub)@.last(self.pos().0) ==> {
                &&& refused is None
                &&& final(hub)@ == old(hub)@.written(self.pos().0, data)
            },
            self.pos().1 != old(hub)@.last(self.pos().0) ==> {
                &&& refused == Some(data)
                &&& final(hub)@ == old(hub)@
            },
    {
        hub.write_behind(&self.place, data)
    }

    /// What the block carries that this pointer stands at.
    pub fn data<'a, D>(&self, hub: &'a Hub<D>) -> (data: Option<&'a D>)
        requires
            hub.linked(),
            self.stands_in(hub@),
        ensures
            (data matches Some(d) ==> hub@.block(self.pos()).data == Some(*d)),
            data is None ==> hub@.block(self.pos()).data is None,
    {
        proof {
            hub.lemma_handles_above_floor(self.pos());
        }
        hub.data(&self.place)
    }

    /// A pointer to the block right behind this one, if there is one.
    pub fn next<D>(&self, hub: &mut Hub<D>) -> (next: Option<WritePtr>)
        requires
            old(hub).wf(),
            self.stands_in(old(hub)@),
            old(hub)@.handles.len() < usize::MAX,
        ensures
            final(hub).wf(),
            match next {
                Some(next) => {
                    &&& self.pos().1 < old(hub)@.last(self.pos().0)
                    &&& next.pos() == (self.pos().0, self.pos().1 + 1)
                    &&& final(hub)@ == old(hub)@.held(next.pos())
                },
                None => {
                    &&& self.pos().1 == old(hub)@.last(self.pos().0)
                    &&& final(hub)@ == old(hub)@
                },
            },
    {
        match hub.next_block(&self.place) {
            Some(place) => {
                proof {
                    hub.lemma_handles_above_floor(self.pos());
                    assert(hub@.reachable(place.pos()));
                    hub@.lemma_held_inv(place.pos());
                }
                hub.share(&place);
                Some(WritePtr { place })
            },
            None => None,
        }
    }

    /// Moves on to the last block of the frame.
    pub fn tail<D>(&mut self, hub: &mut Hub<D>)
        requires
            old(hub).wf(),
            old(self).stands_in(old(hub)@),
        ensures
            final(hub).wf(),
            final(hub)@ == old(hub)@.moved(old(self).pos(), final(self).pos()),
            final(self).pos() == (old(self).pos().0, old(hub)@.last(old(self).pos().0)),
            final(self).stands_in(final(hub)@),
    {
        let tail = hub.tail(&self.place);
        proof {
            hub.lemma_handles_above_floor(self.pos());
            hub@.lemma_moved_inv(self.pos(), tail.pos());
        }
        hub.shift(&self.place, &tail);
        self.place = tail;
    }

    /// Writes a block that carries `data` at the end of the frame, wakes whoever
    /// waited there, and moves on to that block.
    pub fn append<D>(&mut self, hub: &mut Hub<D>, data: D)
        requires
            old(hub).wf(),
            old(self).stands_in(old(hub)@),
        ensures
            final(hub).wf(),
            final(hub)@ == old(hub)@.appended(old(self).pos(), data),
            final(self).pos() == (old(self).pos().0, old(hub)@.last(old(self).pos().0) + 1),
            final(self).stands_in(final(hub)@),
    {
        proof {
            hub.lemma_handles_above_floor(self.pos());
            hub@.lemma_appended_inv(self.pos(), data);
        }
        let next = hub.append(&self.place, data);
        hub.shift(&self.place, &next);
        self.place = next;
    }

    /// Another pointer to the same block.
    pub fn clone<D>(&self, hub: &mut Hub<D>) -> (copy: WritePtr)
        requires
            old(hub).wf(),
            self.stands_in(old(hub)@),
            old(hub)@.handles.len() < usize::MAX,
        ensures
            final(hub).wf(),
            final(hub)@ == old(hub)@.held(self.pos()),
            copy.pos() == self.pos(),
    {
        proof {
            hub.lemma_handles_above_floor(self.pos());
            hub@.lemma_held_inv(self.pos());
        }
        hub.share(&self.place);
        WritePtr { place: self.place.twin() }
    }

    /// Lets go of the block.
    pub fn release<D>(self, hub: &mut Hub<D>)
        requires
            old(hub).wf(),
            self.stands_in(old(hub)@),
        ensures
            final(hub).wf(),
            final(hub)@ == old(hub)@.released(self.pos()),
    {
        proof {
            hub@.lemma_released_inv(self.pos());
        }
        hub.release(&self.place);
    }

    /// Takes a sender from its frame over to the next one. If there is none yet,
    /// it starts with a block that carries `head`.
    pub fn next_frame<D>(&mut self, hub: &mut Hub<D>, head: D)
        requires
            old(hub).wf(),
            old(self).stands_in(old(hub)@),
            old(hub)@.writers.contains(old(self).pos().0),
        ensures
            final(hub).wf(),
            final(hub)@ == old(hub)@.advanced(old(self).pos(), head),
            final(self).pos() == (old(self).pos().0 + 1, 0int),
            final(self).stands_in(final(hub)@),
            final(hub)@.writers.contains(final(self).pos().0),
    {
        let ghost p = self.pos();
        proof {
            hub.lemma_handles_above_floor(p);
            hub@.lemma_advanced_inv(p, head);
            hub@.lemma_opened_inv(p, head);
        }
        hub.open_next(&self.place, head);
        proof {
            assert(hub@.writers.contains(p.0));
            assert(hub@.handles.contains(p));
            hub@.lemma_promoted_inv(p.0);
        }
        hub.promote(&self.place);
        let next = hub.next_frame(&self.place).unwrap();
        hub.shift(&self.place, &next);
        self.place = next;
    }

    /// Takes a sender out of its frame for good.
    pub fn retire<D>(self, hub: &mut Hub<D>)
        requires
            old(hub).wf(),
            self.stands_in(old(hub)@),
            old(hub)@.writers.contains(self.pos().0),
        ensures
            final(hub).wf(),
            final(hub)@ == old(hub)@.retired(self.pos()),
    {
        proof {
            hub.lemma_handles_above_floor(self.pos());
            hub@.lemma_departed_inv(self.pos().0);
        }
        hub.leave(&self.place);
        self.release(hub);
    }
}

} // verus!
