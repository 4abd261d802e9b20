//! A channel on which every receiver reads every message.
//!
//! Messages are grouped in frames. Senders and receivers each stand in one frame
//! and go on to the next one when they choose to. A frame has come to its end
//! when no sender stands in it or before it any more.
use crate::buffer::{batch, lemma_batch, roomy, Buffer};
use crate::history::{
    contents, duo, ends, fresh, gained, law_end_is_final, law_end_withholds_nothing,
    law_over_when_all_have_left, law_passed_on_was_sent, law_what_ends_a_frame, lemma_accounts,
    lemma_run_inv, lemma_solo, lemma_step_grown, passed, read_in, run, sent, settles, site, solo,
    step, turned, written_by, Act, Member, Stage, Turn,
};
use crate::hub::{Hub, Place, WritePtr};
use crate::model::HubView;
use crate::stream::{
    ahead, all_gained, all_read, flushed, flushed_pos, follows, grown, lemma_advanced_grown,
    lemma_appended_grown, lemma_grown_ahead, lemma_grown_stream, lemma_grown_twice,
    lemma_held_grown, lemma_history, lemma_moved_grown, lemma_opened_grown, lemma_released_grown,
    lemma_retired_grown, lemma_same_ahead, lemma_same_data_grown, lemma_signalled_grown, same_ahead,
    stream, Event,
};
use pulse::Signal;
use std::sync::Arc;
use vstd::prelude::*;

verus! {

/// Why there is nothing to receive and never will be in this frame.
#[derive(Debug, PartialEq, Eq, Structural)]
pub enum ReceiverError {
    /// The frame has come to an end, move to the `next`
    /// frame in time.
    EndOfFrame,
    /// The frame has come to an end, and there is no
    /// future frames to move to.
    ChannelClosed,
}

/// The sending side.
pub struct Sender<T: Send + Sync> {
    buffer: Buffer<T>,
    write: WritePtr,
}

/// The receiving side.
pub struct Receiver<T: Send + Sync> {
    place: Place,
    // What the block at this position carries.
    current: Arc<Vec<T>>,
    // How much of it has been read.
    index: usize,
}

/// What one attempt to receive comes to.
pub enum RecvStep<'a, T> {
    /// The next value.
    Value(&'a T),
    /// Nothing yet: wait for this signal and try again.
    Wait(Signal),
    /// Nothing more in this frame.
    End(ReceiverError),
}

/// The values in a block.
pub open spec fn block_values<T>() -> spec_fn(Arc<Vec<T>>) -> Seq<T> {
    |block: Arc<Vec<T>>| block@
}

impl<T: Send + Sync> Hub<Arc<Vec<T>>> {
    /// The hub with the values of each block.
    pub open spec fn feed(&self) -> HubView<Seq<T>> {
        self@.map_data(block_values())
    }

    /// What holds of the hub of a channel between operations.
    pub open spec fn wf_feed(&self) -> bool {
        &&& self.wf()
        &&& filled(self.feed())
    }
}

/// Every block that somebody can come to has its values. The first block of a
/// frame has none, the others have some.
pub open spec fn filled<T>(v: HubView<Seq<T>>) -> bool {
    forall|f: int, b: int|
        #![trigger v.frames[f][b]]
        v.has((f, b)) && v.reachable((f, b)) ==> {
            &&& v.frames[f][b].data is Some
            &&& (v.frames[f][b].data->0).len() == 0 <==> b == 0
        }
}

/// `gain` has been added at the end of what the receivers in frame `f` have yet
/// to read, and of what those in earlier frames will find there. Nothing else has
/// changed for any receiver that is still there.
pub open spec fn shows<T: Send + Sync>(
    before: HubView<Seq<T>>,
    after: HubView<Seq<T>>,
    f: int,
    gain: Seq<T>,
) -> bool {
    forall|r: Receiver<T>|
        #![trigger r.stands_in(after)]
        #![trigger r.unread(after)]
        r.stands_in(before) && after.handles.contains(r.pos()) ==> r.sees(before, after, f, gain)
}

/// What has been added to a hub is what its receivers get to read.
proof fn lemma_grown_shows<T: Send + Sync>(
    before: HubView<Seq<T>>,
    after: HubView<Seq<T>>,
    f: int,
    gain: Seq<T>,
)
    requires
        grown(before, after, f, gain),
        before.inv(),
        0 <= f < before.frames.len(),
    ensures
        shows(before, after, f, gain),
{
    assert forall|r: Receiver<T>|
        r.stands_in(before) && after.handles.contains(r.pos()) implies #[trigger] r.sees(
        before,
        after,
        f,
        gain,
    ) by {
        assert forall|g: int| r.frame() < g implies #[trigger] ahead(after, g) == (if g == f {
            ahead(before, g) + gain
        } else {
            ahead(before, g)
        }) by {
            lemma_grown_ahead(before, after, f, gain, r.pos(), g);
        }
        lemma_grown_stream(before, after, f, gain, r.pos());
        let rest = r.current@.skip(r.index as int);
        let behind = stream(before.frames[r.pos().0], r.pos().1 + 1);
        assert(rest + (behind + gain) =~= (rest + behind) + gain);
        assert(rest + (behind + Seq::<T>::empty()) =~= rest + behind);
    }
}

/// A hub stays filled as it grows.
proof fn lemma_grown_filled<T>(
    before: HubView<Seq<T>>,
    after: HubView<Seq<T>>,
    f: int,
    gain: Seq<T>,
)
    requires
        grown(before, after, f, gain),
        filled(before),
        before.inv(),
        0 <= f < before.frames.len(),
    ensures
        filled(after),
{
    assert forall|g: int, b: int|
        #![trigger after.frames[g][b]]
        after.has((g, b)) && after.reachable((g, b)) implies {
        &&& after.frames[g][b].data is Some
        &&& (after.frames[g][b].data->0).len() == 0 <==> b == 0
    } by {
        let _ = after.frames[g];
        if before.has((g, b)) {
            let _ = before.frames[g][b];
        } else if g < before.frames.len() {
            let _ = before.frames[g];
        }
    }
}

/// The number of values that a sender gathers before it passes them on.
pub fn sender_size<T>() -> (size: usize)
    ensures
        size == batch::<T>(),
{
    let size: usize = core::mem::size_of::<T>();
    if size == 0 {
        2048
    } else if size >= 2048 {
        1
    } else {
        2048 / size
    }
}

impl<T: Send + Sync> Sender<T> {
    /// The values that were sent and not passed on yet.
    pub closed spec fn buffered(&self) -> Seq<T> {
        self.buffer@
    }

    /// The block that this sender wrote last, or the first one of its frame.
    pub closed spec fn pos(&self) -> (int, int) {
        self.write.pos()
    }

    /// The frame that this sender stands in.
    pub open spec fn frame(&self) -> int {
        self.pos().0
    }

    /// How many values this sender gathers before it passes them on unasked:
    /// [`sender_size`], if they take room.
    pub closed spec fn limit(&self) -> int {
        self.buffer.limit()
    }

    /// This sender, as a run tells of it.
    pub open spec fn member(&self) -> Member<T> {
        Member { pos: self.pos(), buffered: self.buffered(), limit: self.limit() }
    }

    /// Whether `hub` counts this sender.
    pub open spec fn counted_in(&self, hub: HubView<Seq<T>>) -> bool {
        &&& hub.handles.contains(self.pos())
        &&& hub.writers.contains(self.frame())
        &&& roomy::<T>(self.limit())
    }

    /// Whether `hub` counts this sender, and its buffer is not full.
    pub open spec fn stands_in(&self, hub: HubView<Seq<T>>) -> bool {
        &&& self.counted_in(hub)
        &&& self.buffered().len() < self.limit()
    }

    /// Where this sender stands once its values have been passed on.
    pub open spec fn flushed_pos(&self, hub: HubView<Seq<T>>) -> (int, int) {
        flushed_pos(hub, self.pos(), self.buffered())
    }

    /// The hub once the values of this sender have been passed on.
    pub open spec fn flushed(&self, hub: HubView<Seq<T>>) -> HubView<Seq<T>> {
        flushed(hub, self.pos(), self.buffered())
    }

    proof fn lemma_flushed(&self, hub: &Hub<Arc<Vec<T>>>)
        requires
            hub.wf_feed(),
            self.counted_in(hub.feed()),
        ensures
            hub.feed().inv(),
            self.flushed(hub.feed()).inv(),
            filled(self.flushed(hub.feed())),
            grown(hub.feed(), self.flushed(hub.feed()), self.frame(), self.buffered()),
            shows(hub.feed(), self.flushed(hub.feed()), self.frame(), self.buffered()),
            self.flushed(hub.feed()).handles.contains(self.flushed_pos(hub.feed())),
            self.flushed(hub.feed()).writers == hub.feed().writers,
            0 <= self.frame() < hub.feed().frames.len(),
            self.limit() > 0,
    {
        lemma_batch::<T>();
        let v = hub.feed();
        hub@.lemma_map(block_values::<T>());
        if self.buffered().len() == 0 {
            assert(self.buffered() =~= Seq::empty());
            lemma_same_data_grown(v, v, self.frame());
        } else {
            v.lemma_appended_inv(self.pos(), self.buffered());
            lemma_appended_grown(v, self.pos(), self.buffered());
        }
        lemma_grown_filled(v, self.flushed(v), self.frame(), self.buffered());
        lemma_grown_shows(v, self.flushed(v), self.frame(), self.buffered());
    }

    /// Passes on the values that were sent so far.
    pub fn flush(&mut self, hub: &mut Hub<Arc<Vec<T>>>)
        requires
            old(hub).wf_feed(),
            old(self).counted_in(old(hub).feed()),
        ensures
            final(hub).wf_feed(),
            final(hub).feed() == old(self).flushed(old(hub).feed()),
            final(self).pos() == old(self).flushed_pos(old(hub).feed()),
            final(self).buffered() == Seq::<T>::empty(),
            final(self).stands_in(final(hub).feed()),
            shows(old(hub).feed(), final(hub).feed(), old(self).frame(), old(self).buffered()),
            old(self).stands_in(old(hub).feed()) ==> step(
                solo(old(hub).feed(), Some(old(self).member())),
                Act::Flush(0),
                solo(final(hub).feed(), Some(final(self).member())),
            ),
    {
        proof {
            lemma_solo::<T>();
            self.lemma_flushed(hub);
        }
        if self.buffer.len() == 0 {
            assert(self.buffer@ =~= Seq::empty());
            return;
        }
        let mut buffer = Buffer::new();
        std::mem::swap(&mut buffer, &mut self.buffer);
        let block = Arc::new(buffer.into_items());
        proof {
            hub@.lemma_map_appended(self.pos(), block, block_values::<T>());
        }
        self.write.append(hub, block);
        assert(self.buffer@ =~= Seq::empty());
    }

    /// Passes on the values that were sent so far if there are `capacity` of them.
    pub fn flush_at(&mut self, hub: &mut Hub<Arc<Vec<T>>>, capacity: usize)
        requires
            old(hub).wf_feed(),
            old(self).counted_in(old(hub).feed()),
        ensures
            final(hub).wf_feed(),
            final(self).counted_in(final(hub).feed()),
            old(self).buffered().len() == capacity ==> {
                &&& final(hub).feed() == old(self).flushed(old(hub).feed())
                &&& final(self).pos() == old(self).flushed_pos(old(hub).feed())
                &&& final(self).buffered() == Seq::<T>::empty()
                &&& final(self).stands_in(final(hub).feed())
                &&& shows(
                    old(hub).feed(),
                    final(hub).feed(),
                    old(self).frame(),
                    old(self).buffered(),
                )
            },
            old(self).buffered().len() != capacity ==> {
                &&& final(hub).feed() == old(hub).feed()
                &&& *final(self) == *old(self)
            },
    {
        if self.buffer.len() == capacity {
            self.flush(hub);
        }
    }

    /// Sends a value. It is passed on together with those that were sent before it
    /// once there are [`sender_size`] of them, or on `flush`. Values that take no room
    /// wait for `flush`.
    pub fn send(&mut self, hub: &mut Hub<Arc<Vec<T>>>, value: T)
        requires
            old(hub).wf_feed(),
            old(self).stands_in(old(hub).feed()),
        ensures
            final(hub).wf_feed(),
            final(self).stands_in(final(hub).feed()),
            old(self).buffered().len() + 1 < old(self).limit() ==> {
                &&& final(self).buffered() == old(self).buffered().push(value)
                &&& final(self).pos() == old(self).pos()
                &&& final(self).limit() == old(self).limit()
                &&& final(hub).feed() == old(hub).feed()
            },
            old(self).buffered().len() + 1 == old(self).limit() ==> {
                &&& final(self).buffered() == Seq::<T>::empty()
                &&& final(self).pos() == (
                    old(self).frame(),
                    old(hub).feed().last(old(self).frame()) + 1,
                )
                &&& final(hub).feed() == old(hub).feed().appended(
                    old(self).pos(),
                    old(self).buffered().push(value),
                )
                &&& shows(
                    old(hub).feed(),
                    final(hub).feed(),
                    old(self).frame(),
                    old(self).buffered().push(value),
                )
            },
            step(
                solo(old(hub).feed(), Some(old(self).member())),
                Act::Send(0, value),
                solo(final(hub).feed(), Some(final(self).member())),
            ),
    {
        proof {
            lemma_solo::<T>();
        }
        self.buffer.push(value);
        let room: usize = self.buffer.room();
        self.flush_at(hub, room);
    }

    /// Goes over to the next frame, after passing on the values that were sent
    /// so far. The frame that is left has come to its end if no other sender
    /// stands in it or before it.
    pub fn next_frame(&mut self, hub: &mut Hub<Arc<Vec<T>>>)
        requires
            old(hub).wf_feed(),
            old(self).stands_in(old(hub).feed()),
        ensures
            final(hub).wf_feed(),
            final(hub).feed() == old(self).flushed(old(hub).feed()).advanced(
                old(self).flushed_pos(old(hub).feed()),
                Seq::empty(),
            ),
            final(self).pos() == (old(self).frame() + 1, 0int),
            final(self).buffered() == Seq::<T>::empty(),
            final(self).stands_in(final(hub).feed()),
            shows(old(hub).feed(), final(hub).feed(), old(self).frame(), old(self).buffered()),
            step(
                solo(old(hub).feed(), Some(old(self).member())),
                Act::Advance(0),
                solo(final(hub).feed(), Some(final(self).member())),
            ),
    {
        proof {
            lemma_solo::<T>();
            self.lemma_flushed(hub);
        }
        self.flush(hub);
        let head = Arc::new(Vec::new());
        proof {
            let v = old(hub).feed();
            let p = self.pos();
            assert(head@ =~= Seq::<T>::empty());
            hub@.lemma_map_advanced(p, head, block_values::<T>());
            lemma_advanced_grown(hub.feed(), p);
            let after = hub.feed().advanced(p, Seq::empty());
            lemma_grown_filled(hub.feed(), after, p.0, Seq::empty());
            lemma_grown_twice(v, hub.feed(), after, p.0, old(self).buffered());
            lemma_grown_shows(v, after, p.0, old(self).buffered());
        }
        self.write.next_frame(hub, head);
    }

    /// Goes away, after passing on the values that were sent so far. The frame
    /// has come to its end if no other sender stands in it or before it.
    pub fn close(self, hub: &mut Hub<Arc<Vec<T>>>)
        requires
            old(hub).wf_feed(),
            self.stands_in(old(hub).feed()),
        ensures
            final(hub).wf_feed(),
            final(hub).feed() == self.flushed(old(hub).feed()).retired(
                self.flushed_pos(old(hub).feed()),
            ),
            shows(old(hub).feed(), final(hub).feed(), self.frame(), self.buffered()),
            step(
                solo(old(hub).feed(), Some(self.member())),
                Act::Close(0),
                solo(final(hub).feed(), None),
            ),
    {
        proof {
            lemma_solo::<T>();
            self.lemma_flushed(hub);
        }
        let mut this = self;
        this.flush(hub);
        proof {
            let v = old(hub).feed();
            let p = this.pos();
            hub@.lemma_map_retired(p, block_values::<T>());
            lemma_retired_grown(hub.feed(), p);
            let after = hub.feed().retired(p);
            lemma_grown_filled(hub.feed(), after, p.0, Seq::empty());
            lemma_grown_twice(v, hub.feed(), after, p.0, self.buffered());
            lemma_grown_shows(v, after, p.0, self.buffered());
        }
        this.write.retire(hub);
    }

    /// Another sender in the same frame, with nothing sent yet.
    pub fn clone(&self, hub: &mut Hub<Arc<Vec<T>>>) -> (other: Sender<T>)
        requires
            old(hub).wf_feed(),
            self.stands_in(old(hub).feed()),
            old(hub).feed().handles.len() < usize::MAX,
            old(hub).feed().writers.len() < usize::MAX,
        ensures
            final(hub).wf_feed(),
            final(hub).feed() == old(hub).feed().joined(self.frame()).held(self.pos()),
            other.pos() == self.pos(),
            other.buffered() == Seq::<T>::empty(),
            other.stands_in(final(hub).feed()),
            self.stands_in(final(hub).feed()),
            shows(old(hub).feed(), final(hub).feed(), self.frame(), Seq::empty()),
            step(
                solo(old(hub).feed(), Some(self.member())),
                Act::Clone(0),
                duo(final(hub).feed(), self.member(), other.member()),
            ),
    {
        proof {
            lemma_solo::<T>();
            let v = hub.feed();
            let p = self.pos();
            hub@.lemma_map(block_values::<T>());
            hub@.lemma_joined_inv(p.0);
            let joined = hub@.joined(p.0);
            assert(joined.map_data(block_values::<T>()) == v.joined(p.0));
            assert(joined.held(p).map_data(block_values::<T>()) == v.joined(p.0).held(p));
            v.lemma_joined_inv(p.0);
            assert(v.joined(p.0).handles.contains(p));
            lemma_same_data_grown(v, v.joined(p.0), p.0);
            lemma_held_grown(v.joined(p.0), p, p.0);
            lemma_grown_twice(v, v.joined(p.0), v.joined(p.0).held(p), p.0, Seq::empty());
            lemma_grown_filled(v, v.joined(p.0).held(p), p.0, Seq::empty());
            lemma_grown_shows(v, v.joined(p.0).held(p), p.0, Seq::empty());
        }
        hub.join(&self.write.place());
        Sender { buffer: Buffer::new(), write: self.write.clone(hub) }
    }
}

impl<T: Send + Sync> Receiver<T> {
    /// The block that this receiver reads from.
    pub closed spec fn pos(&self) -> (int, int) {
        self.place.pos()
    }

    /// The frame that this receiver stands in.
    pub open spec fn frame(&self) -> int {
        self.pos().0
    }

    /// Whether `hub` counts this receiver, and this receiver knows its block.
    pub closed spec fn stands_in(&self, hub: HubView<Seq<T>>) -> bool {
        &&& hub.handles.contains(self.pos())
        &&& hub.has(self.pos())
        &&& hub.block(self.pos()).data == Some(self.current@)
        &&& self.index <= self.current@.len()
    }

    /// The values of the frame that this receiver has not read, in order.
    pub closed spec fn unread(&self, hub: HubView<Seq<T>>) -> Seq<T> {
        self.current@.skip(self.index as int) + stream(
            hub.frames[self.pos().0],
            self.pos().1 + 1,
        )
    }

    /// This receiver is as it was, except that `gain` has been added at the end of
    /// frame `f`: to what it has yet to read if it stands in that frame, and to
    /// what it will find there if it stands before it.
    pub open spec fn sees(
        &self,
        before: HubView<Seq<T>>,
        after: HubView<Seq<T>>,
        f: int,
        gain: Seq<T>,
    ) -> bool {
        &&& self.stands_in(after)
        &&& self.unread(after) == (if self.frame() == f {
            self.unread(before) + gain
        } else {
            self.unread(before)
        })
        &&& forall|g: int|
            self.frame() < g ==> #[trigger] ahead(after, g) == (if g == f {
                ahead(before, g) + gain
            } else {
                ahead(before, g)
            })
    }

    /// Whether everything in the block at hand has been read.
    pub closed spec fn through(&self) -> bool {
        self.index >= self.current@.len()
    }

    /// The block that this receiver reads from once it has turned to the next
    /// one, if it is through with its own and there is one.
    pub open spec fn turned_pos(&self, hub: HubView<Seq<T>>) -> (int, int) {
        if self.through() && self.pos().1 < hub.last(self.frame()) {
            (self.frame(), self.pos().1 + 1)
        } else {
            self.pos()
        }
    }

    /// The hub once this receiver has turned to the next block, if it can.
    pub open spec fn turned(&self, hub: HubView<Seq<T>>) -> HubView<Seq<T>> {
        if self.turned_pos(hub) == self.pos() {
            hub
        } else {
            hub.moved(self.pos(), self.turned_pos(hub))
        }
    }

    /// What this receiver does to `hub` when it turns to the next block, if it can.
    pub open spec fn turn(&self, hub: HubView<Seq<T>>) -> Turn {
        if self.turned_pos(hub) == self.pos() {
            Turn::Stay
        } else {
            Turn::Step(self.pos(), self.turned_pos(hub))
        }
    }

    /// Turns to the next block of the frame, if there is one.
    fn next(&mut self, hub: &mut Hub<Arc<Vec<T>>>) -> (turned: bool)
        requires
            old(hub).wf_feed(),
            old(self).stands_in(old(hub).feed()),
            old(self).through(),
        ensures
            final(hub).wf_feed(),
            final(self).stands_in(final(hub).feed()),
            final(self).pos() == old(self).turned_pos(old(hub).feed()),
            final(hub).feed() == old(self).turned(old(hub).feed()),
            same_ahead(old(hub).feed(), final(hub).feed(), old(self).frame()),
            final(self).unread(final(hub).feed()) == old(self).unread(old(hub).feed()),
            shows(old(hub).feed(), final(hub).feed(), old(self).frame(), Seq::empty()),
            turned == !final(self).through(),
            turned == (old(self).unread(old(hub).feed()).len() > 0),
            !turned ==> *final(self) == *old(self),
    {
        let ghost v = hub.feed();
        let ghost p = self.pos();
        proof {
            hub@.lemma_map(block_values::<T>());
            lemma_same_data_grown(v, v, p.0);
            lemma_grown_shows(v, v, p.0, Seq::empty());
            assert(self.unread(v) =~= stream(v.frames[p.0], p.1 + 1));
        }
        match hub.next_block(&self.place) {
            Some(next) => {
                let ghost q = next.pos();
                proof {
                    assert(v.reachable(q));
                    assert(v.frames[q.0][q.1].data is Some);
                    hub@.lemma_moved_inv(p, q);
                    hub@.lemma_map_moved(p, q, block_values::<T>());
                    lemma_moved_grown(v, p, q, p.0);
                    lemma_grown_filled(v, v.moved(p, q), p.0, Seq::empty());
                    lemma_grown_shows(v, v.moved(p, q), p.0, Seq::empty());
                    lemma_grown_stream(v, v.moved(p, q), p.0, Seq::empty(), q);
                    lemma_same_ahead(v, v.moved(p, q), q);
                }
                let current = hub.data(&next).unwrap().clone();
                hub.shift(&self.place, &next);
                self.current = current;
                self.place = next;
                self.index = 0;
                proof {
                    assert(self.current@.skip(0) =~= self.current@);
                    assert(self.unread(hub.feed()) =~= stream(v.frames[p.0], p.1 + 1));
                }
                true
            },
            None => false,
        }
    }

    /// Counts one more value of the block at hand as read.
    fn idx_post_inc(&mut self) -> (index: usize)
        requires
            !old(self).through(),
        ensures
            index == old(self).index,
            final(self).index == index + 1,
            final(self).current == old(self).current,
            final(self).pos() == old(self).pos(),
    {
        assert(self.index < self.current.len());
        let index: usize = self.index;
        self.index = index + 1;
        index
    }

    /// Whether there is something to read. Turns to the next block if need be.
    pub fn pending(&mut self, hub: &mut Hub<Arc<Vec<T>>>) -> (pending: bool)
        requires
            old(hub).wf_feed(),
            old(self).stands_in(old(hub).feed()),
        ensures
            final(hub).wf_feed(),
            final(self).stands_in(final(hub).feed()),
            final(self).pos() == old(self).turned_pos(old(hub).feed()),
            final(hub).feed() == old(self).turned(old(hub).feed()),
            same_ahead(old(hub).feed(), final(hub).feed(), old(self).frame()),
            final(self).unread(final(hub).feed()) == old(self).unread(old(hub).feed()),
            shows(old(hub).feed(), final(hub).feed(), old(self).frame(), Seq::empty()),
            pending == (old(self).unread(old(hub).feed()).len() > 0),
            pending == !final(self).through(),
            !pending ==> *final(self) == *old(self),
            plays(
                old(hub).feed(),
                *old(self),
                old(self).turn(old(hub).feed()),
                None,
                final(hub).feed(),
                *final(self),
            ),
    {
        proof {
            hub@.lemma_map(block_values::<T>());
            lemma_same_data_grown(hub.feed(), hub.feed(), self.frame());
            lemma_grown_shows(hub.feed(), hub.feed(), self.frame(), Seq::empty());
        }
        if self.current.len() <= self.index {
            self.next(hub)
        } else {
            true
        }
    }

    /// The next value of the frame, if there is one.
    pub fn try_recv(&mut self, hub: &mut Hub<Arc<Vec<T>>>) -> (value: Option<&T>)
        requires
            old(hub).wf_feed(),
            old(self).stands_in(old(hub).feed()),
        ensures
            final(hub).wf_feed(),
            final(self).stands_in(final(hub).feed()),
            final(self).pos() == old(self).turned_pos(old(hub).feed()),
            final(hub).feed() == old(self).turned(old(hub).feed()),
            same_ahead(old(hub).feed(), final(hub).feed(), old(self).frame()),
            shows(old(hub).feed(), final(hub).feed(), old(self).frame(), Seq::empty()),
            match value {
                Some(value) => {
                    &&& old(self).unread(old(hub).feed()).len() > 0
                    &&& *value == old(self).unread(old(hub).feed())[0]
                    &&& final(self).unread(final(hub).feed()) == old(self).unread(
                        old(hub).feed(),
                    ).skip(1)
                },
                None => {
                    &&& old(self).unread(old(hub).feed()).len() == 0
                    &&& *final(self) == *old(self)
                },
            },
            plays(
                old(hub).feed(),
                *old(self),
                old(self).turn(old(hub).feed()),
                match value {
                    Some(v) => Some(*v),
                    None => None,
                },
                final(hub).feed(),
                *final(self),
            ),
    {
        if self.pending(hub) {
            let ghost unread = self.unread(hub.feed());
            let index: usize = self.idx_post_inc();
            assert(unread.skip(1) =~= self.unread(hub.feed()));
            Some(&self.current[index])
        } else {
            None
        }
    }

    /// Whether the channel has closed: the frame has come to its end, and there is
    /// no frame behind it.
    pub fn closed(&self, hub: &Hub<Arc<Vec<T>>>) -> (closed: bool)
        requires
            hub.wf_feed(),
            self.stands_in(hub.feed()),
        ensures
            closed == (hub.feed().over(self.frame()) && !hub.feed().has_next(self.frame())),
    {
        hub.over(&self.place) && hub.next_frame(&self.place).is_none()
    }

    /// Whether this receiver can only wait: it has read everything, and some
    /// sender can still add to the frame.
    pub open spec fn must_wait(&self, hub: HubView<Seq<T>>) -> bool {
        self.unread(hub).len() == 0 && !hub.over(self.frame())
    }

    /// Why a receiver that has read everything in a frame that is over gets nothing
    /// more.
    pub open spec fn verdict(&self, hub: HubView<Seq<T>>) -> ReceiverError {
        if hub.has_next(self.frame()) {
            ReceiverError::EndOfFrame
        } else {
            ReceiverError::ChannelClosed
        }
    }

    /// The signal to wait for before trying to receive, if this receiver can only
    /// wait.
    pub fn wait_for(&mut self, hub: &mut Hub<Arc<Vec<T>>>) -> (signal: Option<Signal>)
        requires
            old(hub).wf_feed(),
            old(self).stands_in(old(hub).feed()),
        ensures
            final(hub).wf_feed(),
            final(self).stands_in(final(hub).feed()),
            final(self).frame() == old(self).frame(),
            shows(old(hub).feed(), final(hub).feed(), old(self).frame(), Seq::empty()),
            same_ahead(old(hub).feed(), final(hub).feed(), old(self).frame()),
            final(self).unread(final(hub).feed()) == old(self).unread(old(hub).feed()),
            match signal {
                Some(signal) => {
                    &&& old(self).must_wait(old(hub).feed())
                    &&& *final(self) == *old(self)
                    &&& old(hub).feed().signalled(old(self).pos(), final(hub).feed(), signal)
                },
                None => {
                    &&& !old(self).must_wait(old(hub).feed())
                    &&& final(self).pos() == old(self).turned_pos(old(hub).feed())
                    &&& final(hub).feed() == old(self).turned(old(hub).feed())
                },
            },
            plays(
                old(hub).feed(),
                *old(self),
                match signal {
                    Some(signal) => Turn::Ask(old(self).pos(), signal),
                    None => old(self).turn(old(hub).feed()),
                },
                None,
                final(hub).feed(),
                *final(self),
            ),
    {
        if self.pending(hub) || hub.over(&self.place) {
            None
        } else {
            Some(self.signal(hub))
        }
    }

    /// One step towards the next value of the frame: the value itself, the
    /// reason why there is none, or the signal to wait for before trying again.
    pub fn poll_recv(&mut self, hub: &mut Hub<Arc<Vec<T>>>) -> (step: RecvStep<'_, T>)
        requires
            old(hub).wf_feed(),
            old(self).stands_in(old(hub).feed()),
        ensures
            final(hub).wf_feed(),
            final(self).stands_in(final(hub).feed()),
            shows(old(hub).feed(), final(hub).feed(), old(self).frame(), Seq::empty()),
            same_ahead(old(hub).feed(), final(hub).feed(), old(self).frame()),
            match step {
                RecvStep::Value(value) => {
                    &&& old(self).unread(old(hub).feed()).len() > 0
                    &&& *value == old(self).unread(old(hub).feed())[0]
                    &&& final(self).unread(final(hub).feed()) == old(self).unread(
                        old(hub).feed(),
                    ).skip(1)
                    &&& final(self).pos() == old(self).turned_pos(old(hub).feed())
                    &&& final(hub).feed() == old(self).turned(old(hub).feed())
                },
                RecvStep::Wait(signal) => {
                    &&& old(self).must_wait(old(hub).feed())
                    &&& *final(self) == *old(self)
                    &&& old(hub).feed().signalled(old(self).pos(), final(hub).feed(), signal)
                },
                RecvStep::End(error) => {
                    &&& old(self).unread(old(hub).feed()).len() == 0
                    &&& !old(self).must_wait(old(hub).feed())
                    &&& error == old(self).verdict(old(hub).feed())
                    &&& *final(self) == *old(self)
                    &&& final(hub).feed() == old(hub).feed()
                },
            },
            plays(
                old(hub).feed(),
                *old(self),
                match step {
                    RecvStep::Wait(signal) => Turn::Ask(old(self).pos(), signal),
                    _ => old(self).turn(old(hub).feed()),
                },
                match step {
                    RecvStep::Value(v) => Some(*v),
                    _ => None,
                },
                final(hub).feed(),
                *final(self),
            ),
    {
        if self.pending(hub) {
            let ghost unread = self.unread(hub.feed());
            let index: usize = self.idx_post_inc();
            assert(unread.skip(1) =~= self.unread(hub.feed()));
            return RecvStep::Value(&self.current[index]);
        }
        match (hub.over(&self.place), hub.next_frame(&self.place).is_none()) {
            (true, true) => RecvStep::End(ReceiverError::ChannelClosed),
            (true, false) => RecvStep::End(ReceiverError::EndOfFrame),
            (false, _) => RecvStep::Wait(self.signal(hub)),
        }
    }

    /// The next value of the frame, or the reason why there is none.
    pub fn recv(&mut self, hub: &mut Hub<Arc<Vec<T>>>) -> (value: Result<&T, ReceiverError>)
        requires
            old(hub).wf_feed(),
            old(self).stands_in(old(hub).feed()),
            !old(self).must_wait(old(hub).feed()),
        ensures
            final(hub).wf_feed(),
            final(self).stands_in(final(hub).feed()),
            final(self).pos() == old(self).turned_pos(old(hub).feed()),
            final(hub).feed() == old(self).turned(old(hub).feed()),
            same_ahead(old(hub).feed(), final(hub).feed(), old(self).frame()),
            shows(old(hub).feed(), final(hub).feed(), old(self).frame(), Seq::empty()),
            match value {
                Ok(value) => {
                    &&& old(self).unread(old(hub).feed()).len() > 0
                    &&& *value == old(self).unread(old(hub).feed())[0]
                    &&& final(self).unread(final(hub).feed()) == old(self).unread(
                        old(hub).feed(),
                    ).skip(1)
                },
                Err(error) => {
                    &&& old(self).unread(old(hub).feed()).len() == 0
                    &&& error == old(self).verdict(old(hub).feed())
                    &&& *final(self) == *old(self)
                },
            },
            plays(
                old(hub).feed(),
                *old(self),
                old(self).turn(old(hub).feed()),
                match value {
                    Ok(v) => Some(*v),
                    Err(_) => None,
                },
                final(hub).feed(),
                *final(self),
            ),
    {
        if self.pending(hub) {
            let ghost unread = self.unread(hub.feed());
            let index: usize = self.idx_post_inc();
            assert(unread.skip(1) =~= self.unread(hub.feed()));
            return Ok(&self.current[index]);
        }
        if hub.next_frame(&self.place).is_none() {
            Err(ReceiverError::ChannelClosed)
        } else {
            Err(ReceiverError::EndOfFrame)
        }
    }

    /// A signal that fires when there is something behind the block at hand, or
    /// when the frame has come to its end.
    pub fn signal(&self, hub: &mut Hub<Arc<Vec<T>>>) -> (signal: Signal)
        requires
            old(hub).wf_feed(),
            self.stands_in(old(hub).feed()),
        ensures
            final(hub).wf_feed(),
            self.stands_in(final(hub).feed()),
            old(hub).feed().signalled(self.pos(), final(hub).feed(), signal),
            shows(old(hub).feed(), final(hub).feed(), self.frame(), Seq::empty()),
            self.unread(final(hub).feed()) == self.unread(old(hub).feed()),
            same_ahead(old(hub).feed(), final(hub).feed(), self.frame()),
            plays(
                old(hub).feed(),
                *self,
                Turn::Ask(self.pos(), signal),
                None,
                final(hub).feed(),
                *self,
            ),
    {
        let ghost v = hub.feed();
        let ghost p = self.pos();
        proof {
            hub@.lemma_map(block_values::<T>());
        }
        let signal = hub.signal(&self.place);
        proof {
            old(hub)@.lemma_signalled_inv(p, hub@, signal);
            old(hub)@.lemma_map_signalled(p, hub@, signal, block_values::<T>());
            lemma_signalled_grown(v, p, hub.feed(), signal, p.0);
            lemma_grown_filled(v, hub.feed(), p.0, Seq::empty());
            lemma_grown_shows(v, hub.feed(), p.0, Seq::empty());
            assert(self.unread(v) + Seq::<T>::empty() =~= self.unread(v));
        }
        signal
    }

    /// Goes over to the next frame, whatever is left to read in this one. There
    /// is none to go to if this frame has come to its end and was the last.
    pub fn next_frame(&mut self, hub: &mut Hub<Arc<Vec<T>>>) -> (moved: bool)
        requires
            old(hub).wf_feed(),
            old(self).stands_in(old(hub).feed()),
        ensures
            final(hub).wf_feed(),
            final(self).stands_in(final(hub).feed()),
            shows(old(hub).feed(), final(hub).feed(), old(self).frame(), Seq::empty()),
            moved == (!old(hub).feed().over(old(self).frame()) || old(hub).feed().has_next(
                old(self).frame(),
            )),
            moved ==> {
                &&& final(self).pos() == (old(self).frame() + 1, 0int)
                &&& final(hub).feed() == old(hub).feed().opened(
                    old(self).frame(),
                    Seq::empty(),
                ).moved(old(self).pos(), final(self).pos())
                &&& final(self).unread(final(hub).feed()) == ahead(
                    old(hub).feed(),
                    old(self).frame() + 1,
                )
                &&& same_ahead(old(hub).feed(), final(hub).feed(), final(self).frame())
            },
            !moved ==> {
                &&& *final(self) == *old(self)
                &&& final(hub).feed() == old(hub).feed()
            },
            plays(
                old(hub).feed(),
                *old(self),
                if moved {
                    Turn::Enter(old(self).pos())
                } else {
                    Turn::Stay
                },
                None,
                final(hub).feed(),
                *final(self),
            ),
    {
        let ghost v = hub.feed();
        let ghost p = self.pos();
        let ghost opened = v.opened(p.0, Seq::empty());
        let ghost q = (p.0 + 1, 0int);
        proof {
            hub@.lemma_map(block_values::<T>());
            lemma_same_data_grown(v, v, p.0);
            lemma_grown_shows(v, v, p.0, Seq::empty());
        }
        if self.closed(hub) {
            return false;
        }
        let head = Arc::new(Vec::new());
        proof {
            assert(head@ =~= Seq::<T>::empty());
            hub@.lemma_opened_inv(p, head);
            hub@.lemma_map_opened(p.0, head, block_values::<T>());
            v.lemma_opened_inv(p, Seq::empty());
            assert(hub@.reachable(p));
        }
        hub.open_next(&self.place, head);
        proof {
            assert(opened.handles.contains(p));
            hub@.lemma_moved_inv(p, q);
            hub@.lemma_map_moved(p, q, block_values::<T>());
            lemma_opened_grown(v, p.0, p.0);
            lemma_grown_filled(v, opened, p.0, Seq::empty());
            lemma_moved_grown(opened, p, q, p.0);
            lemma_grown_twice(v, opened, opened.moved(p, q), p.0, Seq::empty());
            lemma_grown_filled(v, opened.moved(p, q), p.0, Seq::empty());
            lemma_grown_shows(v, opened.moved(p, q), p.0, Seq::empty());
            lemma_grown_stream(opened, opened.moved(p, q), p.0, Seq::empty(), q);
            lemma_moved_grown(opened, p, q, q.0);
            lemma_same_ahead(opened, opened.moved(p, q), q);
            assert forall|g: int| q.0 < g implies ahead(opened, g) == ahead(v, g) by {}
            assert(opened.reachable(q));
            assert(opened.frames[q.0][q.1].data is Some);
            hub@.lemma_map(block_values::<T>());
        }
        let next = hub.next_frame(&self.place).unwrap();
        let current = hub.data(&next).unwrap().clone();
        hub.shift(&self.place, &next);
        self.place = next;
        self.current = current;
        self.index = 0;
        proof {
            assert(self.current@.skip(0) =~= self.current@);
            assert(self.unread(hub.feed()) =~= stream(opened.frames[q.0], 0));
        }
        true
    }

    /// Another receiver that has the same values left to read.
    pub fn clone(&self, hub: &mut Hub<Arc<Vec<T>>>) -> (other: Receiver<T>)
        requires
            old(hub).wf_feed(),
            self.stands_in(old(hub).feed()),
            old(hub).feed().handles.len() < usize::MAX,
        ensures
            final(hub).wf_feed(),
            final(hub).feed() == old(hub).feed().held(self.pos()),
            other == *self,
            other.stands_in(final(hub).feed()),
            shows(old(hub).feed(), final(hub).feed(), self.frame(), Seq::empty()),
            plays(
                old(hub).feed(),
                *self,
                Turn::Join(self.pos()),
                None,
                final(hub).feed(),
                other,
            ),
    {
        let ghost v = hub.feed();
        let ghost p = self.pos();
        proof {
            hub@.lemma_map(block_values::<T>());
            hub@.lemma_held_inv(p);
            assert(hub@.held(p).map_data(block_values::<T>()) == v.held(p));
            lemma_held_grown(v, p, p.0);
            lemma_grown_filled(v, v.held(p), p.0, Seq::empty());
            lemma_grown_shows(v, v.held(p), p.0, Seq::empty());
        }
        hub.share(&self.place);
        Receiver {
            place: self.place.twin(),
            current: self.current.clone(),
            index: self.index,
        }
    }

    /// Goes away.
    pub fn close(self, hub: &mut Hub<Arc<Vec<T>>>)
        requires
            old(hub).wf_feed(),
            self.stands_in(old(hub).feed()),
        ensures
            final(hub).wf_feed(),
            final(hub).feed() == old(hub).feed().released(self.pos()),
            shows(old(hub).feed(), final(hub).feed(), self.frame(), Seq::empty()),
            turned(old(hub).feed(), Turn::Leave(self.pos()), final(hub).feed()),
    {
        let ghost v = hub.feed();
        let ghost p = self.pos();
        proof {
            hub@.lemma_map(block_values::<T>());
            hub@.lemma_released_inv(p);
            hub@.lemma_map_released(p, block_values::<T>());
            lemma_released_grown(v, p, p.0);
            lemma_grown_filled(v, v.released(p), p.0, Seq::empty());
            lemma_grown_shows(v, v.released(p), p.0, Seq::empty());
        }
        hub.release(&self.place);
    }
}

/// Copies of what a receiver has to read, one after the other.
pub struct CopyIter<'a, T: Send + Sync + 'static> {
    pub inner: &'a mut Receiver<T>,
    pub hub: &'a mut Hub<Arc<Vec<T>>>,
}

impl<T: Send + Sync + Copy + 'static> Receiver<T> {
    /// Reads what is there by copying it out.
    pub fn copy_iter<'a>(&'a mut self, hub: &'a mut Hub<Arc<Vec<T>>>) -> (iter: CopyIter<'a, T>)
        ensures
            *iter.inner == *old(self),
            *iter.hub == *old(hub),
            *final(self) == *final(iter.inner),
            *final(hub) == *final(iter.hub),
    {
        CopyIter { inner: self, hub }
    }
}

impl<'a, T: Send + Sync + Copy + 'static> CopyIter<'a, T> {
    /// A copy of the next value of the frame, if there is one.
    pub fn next(&mut self) -> (value: Option<T>)
        requires
            old(self).hub.wf_feed(),
            old(self).inner.stands_in(old(self).hub.feed()),
        ensures
            final(self).hub.wf_feed(),
            final(self).inner.stands_in(final(self).hub.feed()),
            final(self).inner.pos() == old(self).inner.turned_pos(old(self).hub.feed()),
            final(self).hub.feed() == old(self).inner.turned(old(self).hub.feed()),
            same_ahead(old(self).hub.feed(), final(self).hub.feed(), old(self).inner.frame()),
            shows(
                old(self).hub.feed(),
                final(self).hub.feed(),
                old(self).inner.frame(),
                Seq::empty(),
            ),
            match value {
                Some(value) => {
                    &&& old(self).inner.unread(old(self).hub.feed()).len() > 0
                    &&& value == old(self).inner.unread(old(self).hub.feed())[0]
                    &&& final(self).inner.unread(final(self).hub.feed()) == old(
                        self,
                    ).inner.unread(old(self).hub.feed()).skip(1)
                },
                None => {
                    &&& old(self).inner.unread(old(self).hub.feed()).len() == 0
                    &&& *final(self).inner == *old(self).inner
                },
            },
            plays(
                old(self).hub.feed(),
                *old(self).inner,
                old(self).inner.turn(old(self).hub.feed()),
                value,
                final(self).hub.feed(),
                *final(self).inner,
            ),
            *final(final(self).inner) == *final(old(self).inner),
            *final(final(self).hub) == *final(old(self).hub),
    {
        match self.inner.try_recv(self.hub) {
            Some(value) => Some(*value),
            None => None,
        }
    }
}

/// A channel: the hub, and one sender and one receiver in its first frame.
pub fn channel<T: Send + Sync>() -> (new: (Hub<Arc<Vec<T>>>, Sender<T>, Receiver<T>))
    ensures
        new.0.wf_feed(),
        new.0.feed() == HubView::started(Seq::<T>::empty()).joined(0).held((0int, 0int)),
        new.1.pos() == (0int, 0int),
        new.1.buffered() == Seq::<T>::empty(),
        new.1.stands_in(new.0.feed()),
        new.2.pos() == (0int, 0int),
        new.2.stands_in(new.0.feed()),
        new.2.unread(new.0.feed()) == Seq::<T>::empty(),
        fresh(solo(new.0.feed(), Some(new.1.member()))),
{
    let head = Arc::new(Vec::new());
    let (mut hub, write) = Hub::new(head.clone());
    let ghost started = hub@;
    let place = write.place();
    hub.join(&place);
    assert(hub@.handles.contains(place.pos()));
    hub.share(&place);
    proof {
        HubView::lemma_started_inv(head);
        started.joined(0).lemma_held_inv((0, 0));
        assert(head@ =~= Seq::<T>::empty());
        assert(hub.feed().frames =~~= HubView::started(Seq::<T>::empty()).frames);
    }
    let sender = Sender { buffer: Buffer::new(), write };
    let receiver = Receiver { place, current: head, index: 0 };
    (hub, sender, receiver)
}

/// Nothing is lost, doubled or put out of order. Take a receiver through any
/// number of reads, with values passed on in its frame in between: what it has
/// read, followed by what it has left to read, is what it had to read at first,
/// followed by what was passed on.
pub proof fn law_nothing_is_lost<T: Send + Sync>(
    receivers: Seq<Receiver<T>>,
    hubs: Seq<HubView<Seq<T>>>,
    events: Seq<Event<T>>,
)
    requires
        receivers.len() == events.len() + 1,
        hubs.len() == events.len() + 1,
        forall|i: int|
            #![trigger events[i]]
            0 <= i < events.len() ==> follows(
                receivers[i].unread(hubs[i]),
                events[i],
                receivers[i + 1].unread(hubs[i + 1]),
            ),
    ensures
        all_read(events) + receivers.last().unread(hubs.last()) == receivers[0].unread(hubs[0])
            + all_gained(events),
{
    let unread = Seq::new(receivers.len(), |i: int| receivers[i].unread(hubs[i]));
    assert forall|i: int| #![trigger events[i]] 0 <= i < events.len() implies follows(
        unread[i],
        events[i],
        unread[i + 1],
    ) by {}
    lemma_history(unread, events);
}

/// What is passed on in a frame is read there in the order in which it was
/// passed on, whoever the senders are: a receiver that is there before and after
/// has the values of the first behind what it had to read, and those of the
/// second behind those.
pub proof fn law_read_in_order<T: Send + Sync>(
    hub: HubView<Seq<T>>,
    p: (int, int),
    first: Seq<T>,
    q: (int, int),
    second: Seq<T>,
    r: Receiver<T>,
)
    requires
        hub.inv(),
        hub.handles.contains(p),
        first.len() > 0,
        hub.appended(p, first).handles.contains(q),
        second.len() > 0,
        p.0 == r.frame(),
        q.0 == r.frame(),
        r.stands_in(hub),
        hub.appended(p, first).handles.contains(r.pos()),
        hub.appended(p, first).appended(q, second).handles.contains(r.pos()),
    ensures
        r.unread(hub.appended(p, first).appended(q, second)) == r.unread(hub) + first + second,
{
    let between = hub.appended(p, first);
    hub.lemma_appended_inv(p, first);
    lemma_appended_grown(hub, p, first);
    lemma_grown_shows(hub, between, p.0, first);
    lemma_appended_grown(between, q, second);
    lemma_grown_shows(between, between.appended(q, second), q.0, second);
    assert(r.stands_in(between));
    assert(r.unread(between.appended(q, second)) == r.unread(between) + second);
}

/// What is passed on is there to be read at once: a receiver that stands in the frame of a
/// sender at `p`, and is still there, has the values that the sender passes on behind what
/// it had to read, and the same is left to every other receiver.
pub proof fn law_flush_shows_everything<T: Send + Sync>(
    hub: HubView<Seq<T>>,
    p: (int, int),
    buffered: Seq<T>,
    r: Receiver<T>,
)
    requires
        hub.inv(),
        hub.handles.contains(p),
        r.stands_in(hub),
        flushed(hub, p, buffered).handles.contains(r.pos()),
    ensures
        r.stands_in(flushed(hub, p, buffered)),
        r.frame() == p.0 ==> r.unread(flushed(hub, p, buffered)) == r.unread(hub) + buffered,
        r.frame() != p.0 ==> r.unread(flushed(hub, p, buffered)) == r.unread(hub),
        r.frame() < p.0 ==> ahead(flushed(hub, p, buffered), p.0) == ahead(hub, p.0) + buffered,
{
    assert(hub.has(p));
    if buffered.len() == 0 {
        assert(r.unread(hub) + buffered =~= r.unread(hub));
        assert(ahead(hub, p.0) + buffered =~= ahead(hub, p.0));
    } else {
        lemma_appended_grown(hub, p, buffered);
        lemma_grown_shows(hub, hub.appended(p, buffered), p.0, buffered);
        assert(r.sees(hub, hub.appended(p, buffered), p.0, buffered));
    }
}

/// A frame can be filled ahead of time: for a receiver that has yet to come to the
/// frame, what is passed on there comes behind what was passed on there before,
/// just as for a receiver that is there already.
pub proof fn law_frame_waits_for_its_readers<T: Send + Sync>(
    hub: HubView<Seq<T>>,
    p: (int, int),
    gain: Seq<T>,
    r: Receiver<T>,
)
    requires
        hub.inv(),
        hub.handles.contains(p),
        gain.len() > 0,
        p.0 > r.frame(),
        r.stands_in(hub),
    ensures
        r.stands_in(hub.appended(p, gain)),
        r.unread(hub.appended(p, gain)) == r.unread(hub),
        ahead(hub.appended(p, gain), p.0) == ahead(hub, p.0) + gain,
{
    let after = hub.appended(p, gain);
    lemma_appended_grown(hub, p, gain);
    lemma_grown_shows(hub, after, p.0, gain);
    assert(after.handles.contains(r.pos()));
    assert(r.stands_in(after));
    assert(r.sees(hub, after, p.0, gain));
}

/// In a frame that is over, what is left to read shrinks by reading alone:
/// whatever a sender that stands at `p` does, a receiver in that frame that is
/// still there has the same values left.
pub proof fn law_nothing_comes_after_the_end<T: Send + Sync>(
    hub: HubView<Seq<T>>,
    p: (int, int),
    gain: Seq<T>,
    r: Receiver<T>,
)
    requires
        hub.inv(),
        hub.handles.contains(p),
        hub.writers.contains(p.0),
        gain.len() > 0,
        r.stands_in(hub),
        hub.over(r.frame()),
    ensures
        r.unread(hub.appended(p, gain)) == r.unread(hub),
        r.unread(hub.advanced(p, Seq::empty())) == r.unread(hub),
        r.unread(hub.retired(p)) == r.unread(hub),
        r.unread(hub.joined(p.0).held(p)) == r.unread(hub),
{
    let f = r.frame();
    assert(p.0 > f) by {
        if p.0 <= f {
            assert(hub.writers.count(p.0) == 0);
        }
    }
    assert(r.unread(hub) + Seq::<T>::empty() =~= r.unread(hub));
    lemma_appended_grown(hub, p, gain);
    lemma_grown_shows(hub, hub.appended(p, gain), p.0, gain);
    assert(hub.appended(p, gain).handles.contains(r.pos()));
    lemma_advanced_grown(hub, p);
    lemma_grown_shows(hub, hub.advanced(p, Seq::empty()), p.0, Seq::empty());
    assert(hub.advanced(p, Seq::empty()).handles.contains(r.pos()));
    lemma_retired_grown(hub, p);
    lemma_grown_shows(hub, hub.retired(p), p.0, Seq::empty());
    assert(hub.retired(p).handles.contains(r.pos()));
}

/// What `act` makes of receiver `k`, which is `r` before it and `s` after it.
pub open spec fn moves<T: Send + Sync>(
    k: int,
    before: Stage<T>,
    r: Receiver<T>,
    act: Act<T>,
    after: Stage<T>,
    s: Receiver<T>,
) -> bool {
    &&& s.stands_in(after.hub)
    &&& match act {
        Act::Read(who, turn, value) => if who == k {
            match turn {
                Turn::Enter(p) => {
                    &&& p == r.pos()
                    &&& value is None
                    &&& s.frame() == r.frame() + 1
                    &&& s.unread(after.hub) == ahead(before.hub, r.frame() + 1)
                    &&& same_ahead(before.hub, after.hub, s.frame())
                },
                Turn::Take(_, _) | Turn::Leave(_) => false,
                _ => {
                    &&& s.frame() == r.frame()
                    &&& same_ahead(before.hub, after.hub, r.frame())
                    &&& match value {
                        Some(value) => {
                            &&& r.unread(before.hub).len() > 0
                            &&& value == r.unread(before.hub)[0]
                            &&& s.unread(after.hub) == r.unread(before.hub).skip(1)
                        },
                        None => s.unread(after.hub) == r.unread(before.hub),
                    }
                },
            }
        } else {
            s == r && !(turn matches Turn::Take(_, _))
        },
        _ => s == r,
    }
}

/// What one call makes of the hub and of a receiver, which is `r` before it and `s` after
/// it, as a step of a run.
pub open spec fn plays<T: Send + Sync>(
    before: HubView<Seq<T>>,
    r: Receiver<T>,
    turn: Turn,
    value: Option<T>,
    after: HubView<Seq<T>>,
    s: Receiver<T>,
) -> bool {
    let act = Act::Read(0, turn, value);
    &&& step(solo(before, None), act, solo(after, None))
    &&& moves(0, solo(before, None), r, act, solo(after, None), s)
}

/// A run, and what it makes of receiver `k`.
pub open spec fn story<T: Send + Sync>(
    k: int,
    stages: Seq<Stage<T>>,
    receivers: Seq<Receiver<T>>,
    acts: Seq<Act<T>>,
) -> bool {
    &&& run(stages, acts)
    &&& receivers.len() == stages.len()
    &&& receivers[0].stands_in(stages[0].hub)
    &&& forall|i: int|
        #![trigger acts[i]]
        0 <= i < acts.len() ==> moves(
            k,
            stages[i],
            receivers[i],
            acts[i],
            stages[i + 1],
            receivers[i + 1],
        )
}

/// A run from the very start, and what it makes of receiver `k`.
pub open spec fn whole_story<T: Send + Sync>(
    k: int,
    stages: Seq<Stage<T>>,
    receivers: Seq<Receiver<T>>,
    acts: Seq<Act<T>>,
) -> bool {
    &&& story(k, stages, receivers, acts)
    &&& fresh(stages[0])
    &&& receivers[0].pos() == (0int, 0int)
    &&& receivers[0].unread(stages[0].hub) == Seq::<T>::empty()
}

/// The frames in which a receiver stood.
pub open spec fn frames_of<T: Send + Sync>(receivers: Seq<Receiver<T>>) -> Seq<int> {
    receivers.map_values(|r: Receiver<T>| r.frame())
}

/// What a receiver has left of frame `f`, in which it stands or to which it has yet
/// to come.
pub open spec fn left<T: Send + Sync>(r: Receiver<T>, hub: HubView<Seq<T>>, f: int) -> Seq<T> {
    if r.frame() == f {
        r.unread(hub)
    } else {
        ahead(hub, f)
    }
}

proof fn lemma_left<T: Send + Sync>(
    k: int,
    before: Stage<T>,
    r: Receiver<T>,
    act: Act<T>,
    after: Stage<T>,
    s: Receiver<T>,
    f: int,
)
    requires
        before.hub.inv(),
        step(before, act, after),
        r.stands_in(before.hub),
        moves(k, before, r, act, after, s),
        s.frame() <= f,
    ensures
        settles(
            before,
            r.frame(),
            act,
            k,
            f,
            left(r, before.hub, f),
            left(s, after.hub, f),
        ),
{
    assert(left(r, before.hub, f) + Seq::<T>::empty() =~= left(r, before.hub, f));
    match act {
        Act::Read(who, _, _) if who == k => {},
        _ => {
            lemma_step_grown(before, act, after);
            let g = site(before, act);
            lemma_grown_shows(before.hub, after.hub, g, gained(before, act, g));
            assert(r.sees(before.hub, after.hub, g, gained(before, act, g)));
            assert(left(r, before.hub, f) + Seq::<T>::empty() =~= left(r, before.hub, f));
        },
    }
}

proof fn lemma_frames_grow<T: Send + Sync>(
    k: int,
    stages: Seq<Stage<T>>,
    receivers: Seq<Receiver<T>>,
    acts: Seq<Act<T>>,
    i: int,
    n: int,
)
    requires
        story(k, stages, receivers, acts),
        0 <= i <= n <= acts.len(),
    ensures
        receivers[i].stands_in(stages[i].hub),
        receivers[i].frame() <= receivers[n].frame(),
    decreases n,
{
    if i > 0 {
        let _ = acts[i - 1];
    }
    if i < n {
        lemma_frames_grow(k, stages, receivers, acts, i, n - 1);
        let _ = acts[n - 1];
    }
}

proof fn lemma_read_and_left<T: Send + Sync>(
    k: int,
    stages: Seq<Stage<T>>,
    receivers: Seq<Receiver<T>>,
    acts: Seq<Act<T>>,
    f: int,
    n: int,
)
    requires
        whole_story(k, stages, receivers, acts),
        0 <= n <= acts.len(),
        receivers[n].frame() <= f,
    ensures
        read_in(frames_of(receivers), acts, k, f, n) + left(receivers[n], stages[n].hub, f)
            == contents(passed(stages, acts, f, n)),
{
    let lefts = Seq::new(
        receivers.len(),
        |i: int| left(receivers[i], stages[i].hub, f),
    );
    let frames = frames_of(receivers);
    assert forall|i: int| #![trigger acts[i]] 0 <= i < n implies settles(
        stages[i],
        frames[i],
        acts[i],
        k,
        f,
        lefts[i],
        lefts[i + 1],
    ) by {
        lemma_run_inv(stages, acts, i);
        lemma_frames_grow(k, stages, receivers, acts, i, n);
        lemma_frames_grow(k, stages, receivers, acts, i + 1, n);
        lemma_left(k, stages[i], receivers[i], acts[i], stages[i + 1], receivers[i + 1], f);
    }
    lemma_frames_grow(k, stages, receivers, acts, 0, n);
    assert(lefts[0] =~= Seq::empty());
    lemma_accounts(stages, frames, acts, lefts, k, f, n);
}

/// A receiver reads a frame whole. What it has read in the frame that it stands in,
/// followed by what it has left to read there, is what was passed on in that frame,
/// in order. If the frame is over and it has nothing left to read, which is when it
/// is told so, then what it has read is, sender by sender, what was sent in that
/// frame: each value once, none missing, in the order in which its sender sent it.
pub proof fn law_frame_is_read_whole<T: Send + Sync>(
    k: int,
    stages: Seq<Stage<T>>,
    receivers: Seq<Receiver<T>>,
    acts: Seq<Act<T>>,
    n: int,
)
    requires
        whole_story(k, stages, receivers, acts),
        0 <= n <= acts.len(),
    ensures
        ({
            let f = receivers[n].frame();
            let hub = stages[n].hub;
            let read = read_in(frames_of(receivers), acts, k, f, n);
            let all = passed(stages, acts, f, n);
            &&& read + receivers[n].unread(hub) == contents(all)
            &&& receivers[n].unread(hub).len() == 0 && hub.over(f) ==> {
                &&& read == contents(all)
                &&& forall|who: int| #[trigger]
                    written_by(all, who) == sent(stages, acts, who, f, n)
            }
        }),
{
    let f = receivers[n].frame();
    let hub = stages[n].hub;
    let read = read_in(frames_of(receivers), acts, k, f, n);
    let all = passed(stages, acts, f, n);
    lemma_read_and_left(k, stages, receivers, acts, f, n);
    if receivers[n].unread(hub).len() == 0 && hub.over(f) {
        assert(read + receivers[n].unread(hub) =~= read);
        assert forall|who: int| #[trigger] written_by(all, who) == sent(
            stages,
            acts,
            who,
            f,
            n,
        ) by {
            law_end_withholds_nothing(stages, acts, who, f, n);
        }
    }
}

/// A value is read in the frame in which it was sent and in no other, however far
/// ahead or behind the senders are: what a receiver has read while it stood in frame
/// `f` comes first among what was passed on in that frame, and all that was passed
/// on there was sent there, by a sender that had gone over to the next frame as
/// often as the receiver had.
pub proof fn law_values_stay_in_their_frame<T: Send + Sync>(
    k: int,
    stages: Seq<Stage<T>>,
    receivers: Seq<Receiver<T>>,
    acts: Seq<Act<T>>,
    f: int,
    n: int,
)
    requires
        whole_story(k, stages, receivers, acts),
        0 <= n <= acts.len(),
    ensures
        ({
            let read = read_in(frames_of(receivers), acts, k, f, n);
            let all = passed(stages, acts, f, n);
            &&& read.len() <= all.len()
            &&& read == contents(all).take(read.len() as int)
            &&& forall|i: int|
                #![trigger all[i]]
                0 <= i < all.len() ==> sent(stages, acts, all[i].0, f, n).contains(all[i].1)
        }),
    decreases n,
{
    let frames = frames_of(receivers);
    let read = read_in(frames, acts, k, f, n);
    let all = passed(stages, acts, f, n);
    assert forall|i: int| #![trigger all[i]] 0 <= i < all.len() implies sent(
        stages,
        acts,
        all[i].0,
        f,
        n,
    ).contains(all[i].1) by {
        law_passed_on_was_sent(stages, acts, f, n, i);
    }
    if receivers[n].frame() <= f {
        lemma_read_and_left(k, stages, receivers, acts, f, n);
        let rest = left(receivers[n], stages[n].hub, f);
        assert(contents(all).len() == all.len());
        assert((read + rest).len() == read.len() + rest.len());
        assert(read =~= (read + rest).take(read.len() as int));
    } else if n > 0 {
        law_values_stay_in_their_frame(k, stages, receivers, acts, f, n - 1);
        let act = acts[n - 1];
        let earlier = passed(stages, acts, f, n - 1);
        assert(moves(k, stages[n - 1], receivers[n - 1], act, stages[n], receivers[n]));
        assert(read == read_in(frames, acts, k, f, n - 1));
        assert(contents(all).take(read.len() as int) =~= contents(earlier).take(
            read.len() as int,
        ));
    } else {
        assert(read =~= contents(all).take(0));
    }
}

/// What a receiver in front of `hub` is told. It waits if it has read everything and some
/// sender stands in its frame or before it. Otherwise, if it has read everything, it is
/// told that its frame has come to an end if there is a frame to go over to, and that the
/// channel has closed if there is none.
pub proof fn law_what_a_receiver_is_told<T: Send + Sync>(r: Receiver<T>, hub: HubView<Seq<T>>)
    ensures
        r.must_wait(hub) <==> r.unread(hub).len() == 0 && exists|g: int|
            g <= r.frame() && #[trigger] hub.writers.count(g) > 0,
        r.verdict(hub) == ReceiverError::EndOfFrame <==> r.frame() + 1 < hub.frames.len(),
        r.verdict(hub) == ReceiverError::ChannelClosed <==> r.frame() + 1 >= hub.frames.len(),
{
    if !hub.over(r.frame()) {
        let g = choose|g: int| g <= r.frame() && #[trigger] hub.writers.count(g) != 0;
        assert(hub.writers.count(g) > 0);
    }
}

/// When a receiver waits, and when it is told that there is nothing more. It has
/// something to read if and only if it has not read everything that was passed on in its
/// frame. If it has, it waits for as long as some sender stands in the frame or before it.
pub proof fn law_when_a_receiver_waits<T: Send + Sync>(
    k: int,
    stages: Seq<Stage<T>>,
    receivers: Seq<Receiver<T>>,
    acts: Seq<Act<T>>,
    n: int,
)
    requires
        whole_story(k, stages, receivers, acts),
        0 <= n <= acts.len(),
    ensures
        ({
            let f = receivers[n].frame();
            let hub = stages[n].hub;
            let crew = stages[n].crew;
            let read = read_in(frames_of(receivers), acts, k, f, n);
            let all = contents(passed(stages, acts, f, n));
            &&& receivers[n].unread(hub) == all.skip(read.len() as int)
            &&& receivers[n].unread(hub).len() == 0 <==> read == all
            &&& receivers[n].must_wait(hub) <==> read == all && exists|who: int|
                0 <= who < crew.len() && (#[trigger] crew[who]) is Some && crew[who]->0.pos.0 <= f
        }),
{
    let f = receivers[n].frame();
    let hub = stages[n].hub;
    let read = read_in(frames_of(receivers), acts, k, f, n);
    let all = contents(passed(stages, acts, f, n));
    let unread = receivers[n].unread(hub);
    law_frame_is_read_whole(k, stages, receivers, acts, n);
    law_over_when_all_have_left(stages, acts, f, n);
    assert((read + unread).skip(read.len() as int) =~= unread);
    assert((read + unread).len() == read.len() + unread.len());
    if unread.len() == 0 {
        assert(read + unread =~= read);
    }
}

/// The error that a receiver gets at the end of a frame stays the same for as long as
/// the receiver stays in that frame, whatever anybody does: nothing comes to read,
/// and there is a frame to go over to if and only if there was one.
pub proof fn law_error_stays<T: Send + Sync>(
    k: int,
    stages: Seq<Stage<T>>,
    receivers: Seq<Receiver<T>>,
    acts: Seq<Act<T>>,
    n: int,
)
    requires
        story(k, stages, receivers, acts),
        receivers[0].unread(stages[0].hub).len() == 0,
        !receivers[0].must_wait(stages[0].hub),
        0 <= n <= acts.len(),
        receivers[n].frame() == receivers[0].frame(),
    ensures
        receivers[n].unread(stages[n].hub).len() == 0,
        !receivers[n].must_wait(stages[n].hub),
        receivers[n].verdict(stages[n].hub) == receivers[0].verdict(stages[0].hub),
        stages[n].hub.over(receivers[n].frame()),
        receivers[n].verdict(stages[n].hub) == ReceiverError::EndOfFrame
            <==> stages[n].hub.has_next(receivers[n].frame()),
    decreases n,
{
    let f = receivers[0].frame();
    assert(0 <= f < stages[0].hub.frames.len()) by {
        assert(stages[0].hub.has(receivers[0].pos()));
    }
    law_end_is_final(stages, acts, f, n);
    if n > 0 {
        lemma_frames_grow(k, stages, receivers, acts, 0, n - 1);
        lemma_frames_grow(k, stages, receivers, acts, n - 1, n);
        law_error_stays(k, stages, receivers, acts, n - 1);
        lemma_run_inv(stages, acts, n - 1);
        let before = stages[n - 1];
        let act = acts[n - 1];
        lemma_left(k, before, receivers[n - 1], act, stages[n], receivers[n], f);
        assert(step(before, act, stages[n]));
        match act {
            Act::Send(who, _) | Act::Flush(who) | Act::Advance(who) | Act::Close(who) => {
                assert(before.hub.writers.count(before.member(who).frame()) > 0);
            },
            _ => {},
        }
    }
}

/// What ends a wait. A receiver that can only wait still can only wait after a step,
/// unless the step passes values on in its frame or ends that frame. In the first
/// case the receiver has just these values to read. A flush with nothing to pass on
/// ends no wait, nor does a sender that leaves while another stands in the frame or
/// before it.
pub proof fn law_what_ends_a_wait<T: Send + Sync>(
    k: int,
    before: Stage<T>,
    r: Receiver<T>,
    act: Act<T>,
    after: Stage<T>,
    s: Receiver<T>,
)
    requires
        before.hub.inv(),
        step(before, act, after),
        r.stands_in(before.hub),
        moves(k, before, r, act, after, s),
        s.frame() == r.frame(),
        r.must_wait(before.hub),
    ensures
        s.unread(after.hub) == gained(before, act, r.frame()),
        !s.must_wait(after.hub) <==> gained(before, act, r.frame()).len() > 0 || ends(
            before,
            act,
            r.frame(),
        ),
{
    let f = r.frame();
    lemma_left(k, before, r, act, after, s, f);
    law_what_ends_a_frame(before, act, after, f);
    assert(r.unread(before.hub) + gained(before, act, f) =~= gained(before, act, f));
}

/// Whether two acts are the same but for the number that a receiver goes by.
pub open spec fn same_but_number<T>(one: Act<T>, two: Act<T>) -> bool {
    match one {
        Act::Read(_, turn, value) => two matches Act::Read(_, other, got) && other == turn && got
            == value,
        _ => two == one,
    }
}

/// Whether two sequences of acts are the same but for the numbers that receivers go
/// by.
pub open spec fn renumbered<T>(one: Seq<Act<T>>, two: Seq<Act<T>>) -> bool {
    &&& one.len() == two.len()
    &&& forall|i: int|
        #![trigger one[i]]
        #![trigger two[i]]
        0 <= i < one.len() ==> same_but_number(one[i], two[i])
}

proof fn lemma_renumbered<T>(
    stages: Seq<Stage<T>>,
    one: Seq<Act<T>>,
    two: Seq<Act<T>>,
    f: int,
    n: int,
)
    requires
        renumbered(one, two),
        0 <= n <= one.len(),
    ensures
        passed(stages, one, f, n) == passed(stages, two, f, n),
    decreases n,
{
    if n > 0 {
        lemma_renumbered(stages, one, two, f, n - 1);
        assert(same_but_number(one[n - 1], two[n - 1]));
        assert(gained(stages[n - 1], one[n - 1], f) == gained(stages[n - 1], two[n - 1], f));
        if one[n - 1] is Read {
            let before = passed(stages, one, f, n - 1);
            assert(passed(stages, one, f, n) =~= before);
            assert(passed(stages, two, f, n) =~= before);
        }
    }
}

/// Everybody reads the same: what two receivers have read while they stood in a frame
/// comes first in one and the same sequence, which is what was passed on there. So
/// one of the two has read what the other has, and perhaps more. The stories of the
/// two may give receivers different numbers: a clone has read what its source had
/// read by then, and in the story of the clone the source goes by its number until
/// then.
pub proof fn law_receivers_agree<T: Send + Sync>(
    k: int,
    receivers: Seq<Receiver<T>>,
    acts: Seq<Act<T>>,
    l: int,
    others: Seq<Receiver<T>>,
    other_acts: Seq<Act<T>>,
    stages: Seq<Stage<T>>,
    f: int,
    n: int,
)
    requires
        whole_story(k, stages, receivers, acts),
        whole_story(l, stages, others, other_acts),
        renumbered(acts, other_acts),
        0 <= n <= acts.len(),
    ensures
        ({
            let all = contents(passed(stages, acts, f, n));
            let one = read_in(frames_of(receivers), acts, k, f, n);
            let two = read_in(frames_of(others), other_acts, l, f, n);
            &&& one.is_prefix_of(all)
            &&& two.is_prefix_of(all)
            &&& one.is_prefix_of(two) || two.is_prefix_of(one)
        }),
{
    law_values_stay_in_their_frame(k, stages, receivers, acts, f, n);
    law_values_stay_in_their_frame(l, stages, others, other_acts, f, n);
    lemma_renumbered(stages, acts, other_acts, f, n);
    let all = contents(passed(stages, acts, f, n));
    let one = read_in(frames_of(receivers), acts, k, f, n);
    let two = read_in(frames_of(others), other_acts, l, f, n);
    assert(all.len() == passed(stages, acts, f, n).len());
    if one.len() <= two.len() {
        assert(one =~= two.take(one.len() as int));
    } else {
        assert(two =~= one.take(two.len() as int));
    }
}

/// The acts as the clone `l` tells them that was made of receiver `k` before act `m`:
/// what the source did until then counts as done by the clone.
pub open spec fn as_clone<T>(acts: Seq<Act<T>>, k: int, l: int, m: int) -> Seq<Act<T>> {
    Seq::new(
        acts.len(),
        |i: int|
            match acts[i] {
                Act::Read(who, turn, value) if i < m => Act::Read(
                    if who == k {
                        l
                    } else {
                        k
                    },
                    turn,
                    value,
                ),
                act => act,
            },
    )
}

/// A clone has a whole story of its own: that of its source until it was made, and
/// its own from then on. So whatever holds of every receiver holds of clones, also of
/// those of a receiver that had moved on: the two have read prefixes of one and the
/// same sequence.
pub proof fn law_clones_have_a_whole_story<T: Send + Sync>(
    k: int,
    receivers: Seq<Receiver<T>>,
    l: int,
    others: Seq<Receiver<T>>,
    stages: Seq<Stage<T>>,
    acts: Seq<Act<T>>,
    m: int,
    f: int,
    n: int,
)
    requires
        whole_story(k, stages, receivers, acts),
        l != k,
        0 <= m <= acts.len(),
        others.len() == receivers.len(),
        forall|i: int| 0 <= i <= m ==> #[trigger] others[i] == receivers[i],
        forall|i: int|
            #![trigger acts[i]]
            m <= i < acts.len() ==> moves(
                l,
                stages[i],
                others[i],
                acts[i],
                stages[i + 1],
                others[i + 1],
            ),
        0 <= n <= acts.len(),
    ensures
        renumbered(acts, as_clone(acts, k, l, m)),
        whole_story(l, stages, others, as_clone(acts, k, l, m)),
        ({
            let all = contents(passed(stages, acts, f, n));
            let one = read_in(frames_of(receivers), acts, k, f, n);
            let two = read_in(frames_of(others), as_clone(acts, k, l, m), l, f, n);
            &&& one.is_prefix_of(all)
            &&& two.is_prefix_of(all)
            &&& one.is_prefix_of(two) || two.is_prefix_of(one)
        }),
{
    let told = as_clone(acts, k, l, m);
    assert forall|i: int|
        #![trigger told[i]]
        0 <= i < told.len() implies same_but_number(acts[i], told[i]) && step(
        stages[i],
        told[i],
        stages[i + 1],
    ) && moves(l, stages[i], others[i], told[i], stages[i + 1], others[i + 1]) by {
        let _ = acts[i];
        if i < m {
            assert(others[i] == receivers[i]);
            assert(others[i + 1] == receivers[i + 1]);
        }
    }
    assert(renumbered(acts, told)) by {
        assert forall|i: int|
            #![trigger acts[i]]
            0 <= i < acts.len() implies same_but_number(acts[i], told[i]) by {
            let _ = told[i];
        }
    }
    assert(others[0] == receivers[0]);
    law_receivers_agree(k, receivers, acts, l, others, told, stages, f, n);
}

} // verus!
