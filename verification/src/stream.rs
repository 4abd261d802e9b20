//! What can be read from a hub: the values of its blocks, one after the other.
use crate::model::{at_or_before, BlockView, HubView};
use pulse::Signal;
use vstd::prelude::*;

verus! {

/// The values that the blocks from index `from` on carry, in order.
pub open spec fn stream<T>(blocks: Seq<BlockView<Seq<T>>>, from: int) -> Seq<T>
    decreases blocks.len() - from,
{
    if from >= blocks.len() {
        Seq::empty()
    } else {
        values(blocks[from]) + stream(blocks, from + 1)
    }
}

/// The values that one block carries.
pub open spec fn values<T>(block: BlockView<Seq<T>>) -> Seq<T> {
    match block.data {
        Some(values) => values,
        None => Seq::empty(),
    }
}

/// The values of frame `g` as it stands, from its start; none if the frame does
/// not exist yet.
pub open spec fn ahead<T>(hub: HubView<Seq<T>>, g: int) -> Seq<T> {
    if g < hub.frames.len() {
        stream(hub.frames[g], 0)
    } else {
        Seq::empty()
    }
}

/// The frames behind frame `f` have the same values.
pub open spec fn same_ahead<T>(before: HubView<Seq<T>>, after: HubView<Seq<T>>, f: int) -> bool {
    forall|g: int| f < g ==> #[trigger] ahead(after, g) == ahead(before, g)
}

/// `after` holds what `before` held, as far as anyone can still come to it, and
/// besides that one more block with `gain` at the end of frame `f` if there is
/// any gain, and empty frames at the end.
pub open spec fn grown<T>(
    before: HubView<Seq<T>>,
    after: HubView<Seq<T>>,
    f: int,
    gain: Seq<T>,
) -> bool {
    &&& before.frames.len() <= after.frames.len()
    &&& forall|g: int|
        #![trigger after.frames[g]]
        0 <= g < before.frames.len() ==> after.frames[g].len() == before.frames[g].len() + (if g
            == f && gain.len() > 0 {
            1int
        } else {
            0int
        })
    &&& forall|g: int|
        #![trigger after.frames[g]]
        before.frames.len() <= g < after.frames.len() ==> after.frames[g].len() == 1
    &&& forall|g: int, b: int|
        #![trigger after.frames[g][b]]
        after.has((g, b)) && after.reachable((g, b)) ==> if before.has((g, b)) {
            before.reachable((g, b)) && after.frames[g][b].data == before.frames[g][b].data
        } else if g < before.frames.len() {
            after.frames[g][b].data == Some(gain)
        } else {
            after.frames[g][b].data == Some(Seq::<T>::empty())
        }
}

/// A change that lets a pointer move on, and nothing else, shows nobody anything
/// new.
pub(crate) proof fn lemma_moved_grown<T>(
    v: HubView<Seq<T>>,
    p: (int, int),
    q: (int, int),
    f: int,
)
    requires
        v.inv(),
        v.handles.contains(p),
        v.has(q),
        at_or_before(p, q),
    ensures
        grown(v, v.moved(p, q), f, Seq::empty()),
{
    let after = v.moved(p, q);
    let between = v.dropped(p).held(q);
    v.lemma_dropped(p);
    v.dropped(p).lemma_held(q);
    between.lemma_reclaimed();
    assert forall|x: (int, int)| #[trigger] after.reachable(x) implies v.reachable(x)
        && between.reachable(x) by {
        let h = choose|h: (int, int)| #[trigger] after.handles.contains(h) && at_or_before(h, x);
        assert(between.handles.contains(h));
        if h == q {
            assert(v.handles.contains(p));
        } else {
            assert(v.handles.contains(h));
        }
    }
}

pub(crate) proof fn lemma_released_grown<T>(v: HubView<Seq<T>>, p: (int, int), f: int)
    requires
        v.inv(),
        v.handles.contains(p),
    ensures
        grown(v, v.released(p), f, Seq::empty()),
{
    let after = v.released(p);
    let between = v.dropped(p);
    v.lemma_dropped(p);
    between.lemma_reclaimed();
    assert forall|x: (int, int)| #[trigger] after.reachable(x) implies v.reachable(x)
        && between.reachable(x) by {
        let h = choose|h: (int, int)| #[trigger] after.handles.contains(h) && at_or_before(h, x);
        assert(between.handles.contains(h));
        assert(v.handles.contains(h));
    }
}

pub(crate) proof fn lemma_held_grown<T>(v: HubView<Seq<T>>, p: (int, int), f: int)
    requires
        v.inv(),
        v.handles.contains(p),
    ensures
        grown(v, v.held(p), f, Seq::empty()),
{
    let after = v.held(p);
    assert forall|x: (int, int)| #[trigger] after.reachable(x) implies v.reachable(x) by {
        let h = choose|h: (int, int)| #[trigger] after.handles.contains(h) && at_or_before(h, x);
        assert(v.handles.contains(h));
    }
}

/// Two changes in a row, of which at most the first brings a gain.
pub(crate) proof fn lemma_grown_twice<T>(
    a: HubView<Seq<T>>,
    b: HubView<Seq<T>>,
    c: HubView<Seq<T>>,
    f: int,
    gain: Seq<T>,
)
    requires
        grown(a, b, f, gain),
        grown(b, c, f, Seq::empty()),
        a.frames.len() > f >= 0,
    ensures
        grown(a, c, f, gain),
{
    assert forall|g: int|
        #![trigger c.frames[g]]
        a.frames.len() <= g < c.frames.len() implies c.frames[g].len() == 1 by {
        let _ = b.frames[g];
    }
    assert forall|g: int|
        #![trigger c.frames[g]]
        0 <= g < a.frames.len() implies c.frames[g].len() == a.frames[g].len() + (if g == f
        && gain.len() > 0 {
        1int
    } else {
        0int
    }) by {
        let _ = b.frames[g];
    }
    assert forall|g: int, x: int|
        #![trigger c.frames[g][x]]
        c.has((g, x)) && c.reachable((g, x)) implies if a.has((g, x)) {
        a.reachable((g, x)) && c.frames[g][x].data == a.frames[g][x].data
    } else if g < a.frames.len() {
        c.frames[g][x].data == Some(gain)
    } else {
        c.frames[g][x].data == Some(Seq::<T>::empty())
    } by {
        let _ = c.frames[g];
        let _ = b.frames[g];
        let _ = b.frames[g][x];
    }
}

/// A change of writers, signals and pulses shows nobody anything new.
pub(crate) proof fn lemma_same_data_grown<T>(
    before: HubView<Seq<T>>,
    after: HubView<Seq<T>>,
    f: int,
)
    requires
        before.frames.len() == after.frames.len(),
        forall|g: int|
            #![trigger after.frames[g]]
            0 <= g < before.frames.len() ==> after.frames[g].len() == before.frames[g].len(),
        forall|g: int, b: int|
            #![trigger after.frames[g][b]]
            after.has((g, b)) ==> after.frames[g][b].data == before.frames[g][b].data,
        after.handles == before.handles,
    ensures
        grown(before, after, f, Seq::empty()),
{
}

pub(crate) proof fn lemma_departed_grown<T>(v: HubView<Seq<T>>, f: int)
    requires
        v.inv(),
        v.writers.contains(f),
    ensures
        grown(v, v.departed(f), f, Seq::empty()),
{
    v.lemma_left(f);
    lemma_same_data_grown(v, v.departed(f), f);
}

pub(crate) proof fn lemma_opened_grown<T>(v: HubView<Seq<T>>, f: int, g: int)
    requires
        v.inv(),
    ensures
        grown(v, v.opened(f, Seq::empty()), g, Seq::empty()),
{
}

/// Appending brings a gain to the frame in which it happens.
pub(crate) proof fn lemma_appended_grown<T>(v: HubView<Seq<T>>, p: (int, int), gain: Seq<T>)
    requires
        v.inv(),
        v.handles.contains(p),
        gain.len() > 0,
    ensures
        grown(v, v.appended(p, gain), p.0, gain),
{
    let tail = (p.0, v.last(p.0));
    let next = (p.0, tail.1 + 1);
    let between = v.written(p.0, gain).woken(tail);
    v.lemma_appended_inv(p, gain);
    assert(between.handles == v.handles);
    assert forall|x: (int, int)| #[trigger] between.reachable(x) implies v.reachable(x) by {
        let h = choose|h: (int, int)| #[trigger] between.handles.contains(h) && at_or_before(h, x);
        assert(v.handles.contains(h));
    }
    assert(grown(v, between, p.0, gain));
    assert(between.handles.contains(p) && between.has(next));
    lemma_moved_grown(between, p, next, p.0);
    lemma_grown_twice(v, between, v.appended(p, gain), p.0, gain);
}

pub(crate) proof fn lemma_advanced_grown<T>(v: HubView<Seq<T>>, p: (int, int))
    requires
        v.inv(),
        v.handles.contains(p),
        v.writers.contains(p.0),
    ensures
        grown(v, v.advanced(p, Seq::empty()), p.0, Seq::empty()),
{
    let opened = v.opened(p.0, Seq::empty());
    lemma_opened_grown(v, p.0, p.0);
    v.lemma_opened_inv(p, Seq::empty());
    assert(opened.writers.contains(p.0));
    let promoted = opened.promoted(p.0);
    opened.lemma_promoted_inv(p.0);
    lemma_same_data_grown(opened, promoted, p.0);
    assert(promoted.has((p.0 + 1, 0)));
    assert(promoted.handles.contains(p));
    lemma_moved_grown(promoted, p, (p.0 + 1, 0), p.0);
    lemma_grown_twice(v, opened, promoted, p.0, Seq::empty());
    lemma_grown_twice(v, promoted, v.advanced(p, Seq::empty()), p.0, Seq::empty());
}

pub(crate) proof fn lemma_retired_grown<T>(v: HubView<Seq<T>>, p: (int, int))
    requires
        v.inv(),
        v.handles.contains(p),
        v.writers.contains(p.0),
    ensures
        grown(v, v.retired(p), p.0, Seq::empty()),
{
    lemma_departed_grown(v, p.0);
    v.lemma_departed_inv(p.0);
    assert(v.departed(p.0).handles.contains(p));
    lemma_released_grown(v.departed(p.0), p, p.0);
    v.lemma_dropped(p);
    lemma_grown_twice(v, v.departed(p.0), v.retired(p), p.0, Seq::empty());
}

pub(crate) proof fn lemma_signalled_grown<T>(
    v: HubView<Seq<T>>,
    p: (int, int),
    after: HubView<Seq<T>>,
    signal: Signal,
    f: int,
)
    requires
        v.has(p),
        v.signalled(p, after, signal),
    ensures
        grown(v, after, f, Seq::empty()),
{
    lemma_same_data_grown(v, after, f);
}

/// A stream depends on the data of its blocks alone.
pub(crate) proof fn lemma_stream_same<T>(
    x: Seq<BlockView<Seq<T>>>,
    y: Seq<BlockView<Seq<T>>>,
    from: int,
)
    requires
        0 <= from,
        x.len() == y.len(),
        forall|b: int| from <= b < x.len() ==> (#[trigger] x[b]).data == y[b].data,
    ensures
        stream(x, from) == stream(y, from),
    decreases x.len() - from,
{
    if from < x.len() {
        assert(x[from].data == y[from].data);
        lemma_stream_same(x, y, from + 1);
    }
}

/// One more block at the end adds its values at the end.
pub(crate) proof fn lemma_stream_push<T>(
    x: Seq<BlockView<Seq<T>>>,
    y: Seq<BlockView<Seq<T>>>,
    from: int,
)
    requires
        0 <= from <= x.len(),
        y.len() == x.len() + 1,
        forall|b: int| from <= b < x.len() ==> (#[trigger] x[b]).data == y[b].data,
    ensures
        stream(y, from) == stream(x, from) + values(y[x.len() as int]),
    decreases x.len() - from,
{
    if from < x.len() {
        assert(x[from].data == y[from].data);
        lemma_stream_push(x, y, from + 1);
        assert(stream(y, from) =~= stream(x, from) + values(y[x.len() as int]));
    } else {
        assert(stream(y, from + 1) =~= Seq::empty());
        assert(stream(y, from) =~= stream(x, from) + values(y[x.len() as int]));
    }
}

/// What a reader at block `p` finds behind that block after a change.
pub(crate) proof fn lemma_grown_stream<T>(
    before: HubView<Seq<T>>,
    after: HubView<Seq<T>>,
    f: int,
    gain: Seq<T>,
    p: (int, int),
)
    requires
        grown(before, after, f, gain),
        before.has(p),
        after.handles.contains(p),
    ensures
        after.has(p),
        after.block(p).data == before.block(p).data,
        stream(after.frames[p.0], p.1 + 1) == stream(before.frames[p.0], p.1 + 1) + (if p.0 == f {
            gain
        } else {
            Seq::empty()
        }),
{
    let x = before.frames[p.0];
    let y = after.frames[p.0];
    assert(y.len() >= x.len());
    assert forall|b: int| p.1 <= b < y.len() implies after.reachable((p.0, b)) by {
        assert(at_or_before(p, (p.0, b)));
    }
    assert forall|b: int| p.1 <= b < x.len() implies (#[trigger] x[b]).data == y[b].data by {
        assert(after.has((p.0, b)));
        assert(before.has((p.0, b)));
        let _ = after.frames[p.0][b];
    }
    assert(after.block(p).data == before.block(p).data) by {
        assert(x[p.1].data == y[p.1].data);
    }
    if p.0 == f && gain.len() > 0 {
        lemma_stream_push(x, y, p.1 + 1);
        assert(after.has((p.0, x.len() as int)));
        assert(!before.has((p.0, x.len() as int)));
        assert(after.frames[p.0][x.len() as int].data == Some(gain));
    } else {
        lemma_stream_same(x, y, p.1 + 1);
        assert(stream(y, p.1 + 1) =~= stream(x, p.1 + 1) + Seq::empty());
        assert(stream(y, p.1 + 1) =~= stream(x, p.1 + 1) + gain || p.0 != f);
    }
}

/// What a reader at block `p` will find in a later frame after a change.
pub(crate) proof fn lemma_grown_ahead<T>(
    before: HubView<Seq<T>>,
    after: HubView<Seq<T>>,
    f: int,
    gain: Seq<T>,
    p: (int, int),
    g: int,
)
    requires
        grown(before, after, f, gain),
        before.has(p),
        after.handles.contains(p),
        p.0 < g,
        0 <= f < before.frames.len(),
    ensures
        ahead(after, g) == (if g == f {
            ahead(before, g) + gain
        } else {
            ahead(before, g)
        }),
{
    if g < after.frames.len() {
        let y = after.frames[g];
        assert forall|b: int| 0 <= b < y.len() implies after.reachable((g, b)) by {
            assert(at_or_before(p, (g, b)));
        }
        if g < before.frames.len() {
            let x = before.frames[g];
            assert forall|b: int| 0 <= b < x.len() implies (#[trigger] x[b]).data == y[b].data by {
                assert(before.has((g, b)) && after.has((g, b)));
                let _ = after.frames[g][b];
            }
            if g == f && gain.len() > 0 {
                let n = x.len() as int;
                lemma_stream_push(x, y, 0);
                assert(after.has((g, n)) && !before.has((g, n)));
                assert(after.frames[g][n].data == Some(gain));
            } else {
                lemma_stream_same(x, y, 0);
                assert(ahead(before, g) + gain =~= ahead(before, g) || g != f);
            }
        } else {
            assert(after.has((g, 0)) && !before.has((g, 0)));
            assert(after.frames[g][0].data == Some(Seq::<T>::empty()));
            assert(stream(y, 1) =~= Seq::empty());
            assert(stream(y, 0) =~= Seq::empty());
        }
    }
}

/// A change without gain leaves the frames ahead of a reader at block `p` as
/// they are.
pub(crate) proof fn lemma_same_ahead<T>(
    before: HubView<Seq<T>>,
    after: HubView<Seq<T>>,
    p: (int, int),
)
    requires
        grown(before, after, p.0, Seq::empty()),
        before.has(p),
        after.handles.contains(p),
    ensures
        same_ahead(before, after, p.0),
{
    assert forall|g: int| p.0 < g implies #[trigger] ahead(after, g) == ahead(before, g) by {
        lemma_grown_ahead(before, after, p.0, Seq::empty(), p, g);
    }
}

/// Where a sender that stands at `p` stands once it has passed on `buffered`.
pub open spec fn flushed_pos<T>(hub: HubView<Seq<T>>, p: (int, int), buffered: Seq<T>) -> (
    int,
    int,
) {
    if buffered.len() == 0 {
        p
    } else {
        (p.0, hub.last(p.0) + 1)
    }
}

/// The hub once a sender that stands at `p` has passed on `buffered`.
pub open spec fn flushed<T>(hub: HubView<Seq<T>>, p: (int, int), buffered: Seq<T>) -> HubView<
    Seq<T>,
> {
    if buffered.len() == 0 {
        hub
    } else {
        hub.appended(p, buffered)
    }
}

/// Something that happens to what a receiver has yet to read.
pub enum Event<T> {
    /// It reads a value.
    Read(T),
    /// Values are passed on in its frame.
    Gain(Seq<T>),
}

/// What is left to read after `event`, given what was left before it.
pub open spec fn follows<T>(before: Seq<T>, event: Event<T>, after: Seq<T>) -> bool {
    match event {
        Event::Read(value) => before.len() > 0 && value == before[0] && after == before.skip(1),
        Event::Gain(gain) => after == before + gain,
    }
}

/// The values that are read in the course of `events`.
pub open spec fn all_read<T>(events: Seq<Event<T>>) -> Seq<T>
    decreases events.len(),
{
    if events.len() == 0 {
        Seq::empty()
    } else {
        match events.last() {
            Event::Read(value) => all_read(events.drop_last()).push(value),
            Event::Gain(_) => all_read(events.drop_last()),
        }
    }
}

/// The values that are passed on in the course of `events`.
pub open spec fn all_gained<T>(events: Seq<Event<T>>) -> Seq<T>
    decreases events.len(),
{
    if events.len() == 0 {
        Seq::empty()
    } else {
        match events.last() {
            Event::Read(_) => all_gained(events.drop_last()),
            Event::Gain(gain) => all_gained(events.drop_last()) + gain,
        }
    }
}

pub(crate) proof fn lemma_history<T>(unread: Seq<Seq<T>>, events: Seq<Event<T>>)
    requires
        unread.len() == events.len() + 1,
        forall|i: int|
            #![trigger events[i]]
            0 <= i < events.len() ==> follows(unread[i], events[i], unread[i + 1]),
    ensures
        all_read(events) + unread.last() == unread[0] + all_gained(events),
    decreases events.len(),
{
    if events.len() > 0 {
        let n = events.len() - 1;
        assert forall|i: int| #![trigger events.drop_last()[i]] 0 <= i < n implies follows(
            unread.drop_last()[i],
            events.drop_last()[i],
            unread.drop_last()[i + 1],
        ) by {
            let _ = events[i];
        }
        lemma_history(unread.drop_last(), events.drop_last());
        let read = all_read(events.drop_last());
        let gained = all_gained(events.drop_last());
        assert(read + unread[n] == unread[0] + gained);
        assert(follows(unread[n], events[n], unread[n + 1]));
        match events[n] {
            Event::Read(value) => {
                assert(read.push(value) + unread[n].skip(1) =~= read + unread[n]);
            },
            Event::Gain(gain) => {
                assert(read + (unread[n] + gain) =~= (read + unread[n]) + gain);
                assert((unread[0] + gained) + gain =~= unread[0] + (gained + gain));
            },
        }
    } else {
        assert(all_read(events) + unread.last() =~= unread[0] + all_gained(events));
    }
}

} // verus!
