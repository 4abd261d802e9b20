//! Runs of a channel: who does what, step by step, and what holds of any run.
//!
//! A step is what one call does to the hub, in the terms of the contracts of
//! [`crate::channel`] and [`crate::mpsc`].
use crate::buffer::{batch, law_batch_fills_the_room, lemma_batch, roomy};
use crate::model::{at_or_before, rung, vacated, HubView};
use crate::stream::{
    flushed, flushed_pos, grown, lemma_advanced_grown, lemma_appended_grown, lemma_grown_twice,
    lemma_held_grown, lemma_moved_grown, lemma_opened_grown, lemma_released_grown,
    lemma_retired_grown, lemma_same_data_grown, lemma_signalled_grown,
};
use pulse::Signal;
use vstd::layout::size_of;
use vstd::multiset::Multiset;
use vstd::prelude::*;

verus! {

/// A sender: where it stands, what it has not passed on yet, and how much of that
/// it gathers.
pub struct Member<T> {
    pub pos: (int, int),
    pub buffered: Seq<T>,
    pub limit: int,
}

/// A channel between two steps. `crew[i]` is sender `i`, while it is there.
pub struct Stage<T> {
    pub hub: HubView<Seq<T>>,
    pub crew: Seq<Option<Member<T>>>,
}

/// What a receiver does to the hub.
pub enum Turn {
    /// Nothing.
    Stay,
    /// It moves on from the first position to the second.
    Step((int, int), (int, int)),
    /// It moves on and takes the data at the second position out.
    Take((int, int), (int, int)),
    /// It goes over from this position to the next frame.
    Enter((int, int)),
    /// It gets this signal at this position.
    Ask((int, int), Signal),
    /// It is cloned at this position.
    Join((int, int)),
    /// It goes away from this position.
    Leave((int, int)),
}

/// One step. Senders and receivers go by number.
pub enum Act<T> {
    /// A sender sends a value, and passes on what it has sent if its buffer is full.
    Send(int, T),
    /// A sender passes on what it has sent.
    Flush(int),
    /// A sender goes over to the next frame.
    Advance(int),
    /// A sender goes away.
    Close(int),
    /// A sender is cloned; the clone gets the next number.
    Clone(int),
    /// A receiver does something, and gets a value or does not.
    Read(int, Turn, Option<T>),
}

impl<T> Member<T> {
    /// The frame that this sender stands in.
    pub open spec fn frame(self) -> int {
        self.pos.0
    }

    /// Its buffer is not full.
    pub open spec fn within(self) -> bool {
        roomy::<T>(self.limit) && self.buffered.len() < self.limit
    }
}

impl<T> Stage<T> {
    /// Whether sender `who` is there and `hub` counts it.
    pub open spec fn mans(self, who: int) -> bool {
        &&& 0 <= who < self.crew.len()
        &&& self.crew[who] is Some
        &&& self.hub.handles.contains(self.member(who).pos)
        &&& self.hub.writers.contains(self.member(who).frame())
        &&& self.member(who).within()
    }

    /// Sender `who`.
    pub open spec fn member(self, who: int) -> Member<T> {
        self.crew[who]->0
    }

    /// The hub once sender `who` has passed on `values`.
    pub open spec fn flushed(self, who: int, values: Seq<T>) -> HubView<Seq<T>> {
        flushed(self.hub, self.member(who).pos, values)
    }

    /// Where sender `who` stands then.
    pub open spec fn flushed_pos(self, who: int, values: Seq<T>) -> (int, int) {
        flushed_pos(self.hub, self.member(who).pos, values)
    }

    /// The crew with sender `who` replaced.
    pub open spec fn with(self, who: int, member: Option<Member<T>>) -> Seq<Option<Member<T>>> {
        self.crew.update(who, member)
    }
}

/// A channel in which there is one sender, or none if it is gone.
pub open spec fn solo<T>(hub: HubView<Seq<T>>, member: Option<Member<T>>) -> Stage<T> {
    Stage { hub, crew: seq![member] }
}

/// A channel in which there are two senders.
pub open spec fn duo<T>(hub: HubView<Seq<T>>, one: Member<T>, two: Member<T>) -> Stage<T> {
    Stage { hub, crew: seq![Some(one), Some(two)] }
}

pub(crate) proof fn lemma_solo<T>()
    ensures
        forall|hub: HubView<Seq<T>>, m: Option<Member<T>>, a: Option<Member<T>>| #[trigger]
            solo(hub, m).with(0, a) == seq![a],
        forall|m: Option<Member<T>>, a: Option<Member<T>>| #[trigger]
            seq![m].push(a) == seq![m, a],
{
    assert forall|hub: HubView<Seq<T>>, m: Option<Member<T>>, a: Option<Member<T>>| #[trigger]
        solo(hub, m).with(0, a) == seq![a] by {
        assert(solo(hub, m).with(0, a) =~= seq![a]);
    }
    assert forall|m: Option<Member<T>>, a: Option<Member<T>>| #[trigger]
        seq![m].push(a) == seq![m, a] by {
        assert(seq![m].push(a) =~= seq![m, a]);
    }
}

/// A sender at `p` that has nothing to pass on.
pub open spec fn idle<T>(p: (int, int), limit: int) -> Member<T> {
    Member { pos: p, buffered: Seq::empty(), limit }
}

/// A channel that has just been made: one sender, which has sent nothing.
pub open spec fn fresh<T>(stage: Stage<T>) -> bool {
    &&& stage.hub == HubView::started(Seq::<T>::empty()).joined(0).held((0int, 0int))
    &&& stage.crew == seq![Some(idle::<T>((0int, 0int), stage.member(0).limit))]
    &&& roomy::<T>(stage.member(0).limit)
}

/// What `act` passes on.
pub open spec fn outgoing<T>(before: Stage<T>, act: Act<T>) -> Seq<T> {
    match act {
        Act::Send(who, value) => {
            let m = before.member(who);
            if m.buffered.len() + 1 == m.limit {
                m.buffered.push(value)
            } else {
                Seq::empty()
            }
        },
        Act::Flush(who) | Act::Advance(who) | Act::Close(who) => before.member(who).buffered,
        _ => Seq::empty(),
    }
}

/// What a receiver's turn makes of the hub.
pub open spec fn turned<T>(
    before: HubView<Seq<T>>,
    turn: Turn,
    after: HubView<Seq<T>>,
) -> bool {
    match turn {
        Turn::Stay => after == before,
        Turn::Step(p, q) => {
            &&& before.handles.contains(p)
            &&& before.has(q)
            &&& at_or_before(p, q)
            &&& after == before.moved(p, q)
        },
        Turn::Take(p, q) => {
            &&& before.handles.contains(p)
            &&& before.has(q)
            &&& at_or_before(p, q)
            &&& after == before.emptied(q).moved(p, q)
        },
        Turn::Enter(p) => {
            &&& before.handles.contains(p)
            &&& !before.over(p.0) || before.has_next(p.0)
            &&& after == before.opened(p.0, Seq::empty()).moved(p, (p.0 + 1, 0))
        },
        Turn::Ask(p, signal) => before.has(p) && before.signalled(p, after, signal),
        Turn::Join(p) => {
            &&& before.handles.contains(p)
            &&& before.handles.len() < usize::MAX
            &&& after == before.held(p)
        },
        Turn::Leave(p) => before.handles.contains(p) && after == before.released(p),
    }
}

/// Whether `act` leads from one stage to the other.
pub open spec fn step<T>(before: Stage<T>, act: Act<T>, after: Stage<T>) -> bool {
    match act {
        Act::Send(who, value) => {
            let m = before.member(who);
            let values = outgoing(before, act);
            &&& before.mans(who)
            &&& after.hub == before.flushed(who, values)
            &&& roomy::<T>(after.member(who).limit)
            &&& after.crew == before.with(
                who,
                Some(
                    if m.buffered.len() + 1 == m.limit {
                        idle(before.flushed_pos(who, values), after.member(who).limit)
                    } else {
                        Member { buffered: m.buffered.push(value), ..m }
                    },
                ),
            )
        },
        Act::Flush(who) => {
            let values = outgoing(before, act);
            &&& before.mans(who)
            &&& after.hub == before.flushed(who, values)
            &&& roomy::<T>(after.member(who).limit)
            &&& after.crew == before.with(
                who,
                Some(idle(before.flushed_pos(who, values), after.member(who).limit)),
            )
        },
        Act::Advance(who) => {
            let frame = before.member(who).frame();
            let values = outgoing(before, act);
            &&& before.mans(who)
            &&& after.hub == before.flushed(who, values).advanced(
                before.flushed_pos(who, values),
                Seq::empty(),
            )
            &&& roomy::<T>(after.member(who).limit)
            &&& after.crew == before.with(
                who,
                Some(idle((frame + 1, 0int), after.member(who).limit)),
            )
        },
        Act::Close(who) => {
            let values = outgoing(before, act);
            &&& before.mans(who)
            &&& after.hub == before.flushed(who, values).retired(before.flushed_pos(who, values))
            &&& after.crew == before.with(who, None)
        },
        Act::Clone(who) => {
            let m = before.member(who);
            let n = before.crew.len() as int;
            &&& before.mans(who)
            &&& before.hub.handles.len() < usize::MAX
            &&& before.hub.writers.len() < usize::MAX
            &&& after.hub == before.hub.joined(m.frame()).held(m.pos)
            &&& roomy::<T>(after.member(n).limit)
            &&& after.crew == before.crew.push(Some(idle(m.pos, after.member(n).limit)))
        },
        Act::Read(_, turn, _) => turned(before.hub, turn, after.hub) && after.crew == before.crew,
    }
}

/// Whether `acts` lead from stage to stage.
pub open spec fn run<T>(stages: Seq<Stage<T>>, acts: Seq<Act<T>>) -> bool {
    &&& stages.len() == acts.len() + 1
    &&& stages[0].hub.inv()
    &&& forall|i: int|
        #![trigger acts[i]]
        0 <= i < acts.len() ==> step(stages[i], acts[i], stages[i + 1])
}

/// The sender that acts, if one does.
pub open spec fn doer<T>(act: Act<T>) -> int {
    match act {
        Act::Send(who, _) | Act::Flush(who) | Act::Advance(who) | Act::Close(who) | Act::Clone(
            who,
        ) => who,
        Act::Read(_, _, _) => -1,
    }
}

/// What `act` adds at the end of frame `f`.
pub open spec fn gained<T>(before: Stage<T>, act: Act<T>, f: int) -> Seq<T> {
    if act !is Read && before.member(doer(act)).frame() == f {
        outgoing(before, act)
    } else {
        Seq::empty()
    }
}

/// `values` as those of the sender that acts.
pub open spec fn signed<T>(act: Act<T>, values: Seq<T>) -> Seq<(int, T)> {
    values.map_values(|value: T| (doer(act), value))
}

/// What the first `n` acts have added to frame `f`, in order, each value with its
/// sender.
pub open spec fn passed<T>(
    stages: Seq<Stage<T>>,
    acts: Seq<Act<T>>,
    f: int,
    n: int,
) -> Seq<(int, T)>
    decreases n,
{
    if n <= 0 {
        Seq::empty()
    } else {
        passed(stages, acts, f, n - 1) + signed(acts[n - 1], gained(stages[n - 1], acts[n - 1], f))
    }
}

/// The values without their senders.
pub open spec fn contents<T>(tagged: Seq<(int, T)>) -> Seq<T> {
    tagged.map_values(|entry: (int, T)| entry.1)
}

/// The values of sender `who` among `tagged`, in order.
pub open spec fn written_by<T>(tagged: Seq<(int, T)>, who: int) -> Seq<T>
    decreases tagged.len(),
{
    if tagged.len() == 0 {
        Seq::empty()
    } else if tagged.last().0 == who {
        written_by(tagged.drop_last(), who).push(tagged.last().1)
    } else {
        written_by(tagged.drop_last(), who)
    }
}

/// What sender `who` has sent in the first `n` acts while it stood in frame `f`, in
/// order.
pub open spec fn sent<T>(
    stages: Seq<Stage<T>>,
    acts: Seq<Act<T>>,
    who: int,
    f: int,
    n: int,
) -> Seq<T>
    decreases n,
{
    if n <= 0 {
        Seq::empty()
    } else {
        let before = sent(stages, acts, who, f, n - 1);
        match acts[n - 1] {
            Act::Send(w, value) if w == who && stages[n - 1].member(who).frame() == f =>
                before.push(value),
            _ => before,
        }
    }
}

/// What sender `who` has sent in frame `f` and not passed on.
pub open spec fn withheld<T>(stage: Stage<T>, who: int, f: int) -> Seq<T> {
    if 0 <= who < stage.crew.len() && stage.crew[who] is Some && stage.member(who).frame() == f {
        stage.member(who).buffered
    } else {
        Seq::empty()
    }
}

/// How many senders stand in frame `f`.
pub open spec fn tally<T>(crew: Seq<Option<Member<T>>>, f: int) -> nat
    decreases crew.len(),
{
    if crew.len() == 0 {
        0
    } else {
        tally(crew.drop_last(), f) + (if crew.last() is Some && crew.last()->0.frame() == f {
            1nat
        } else {
            0nat
        })
    }
}

/// The hub counts the senders that are there.
pub open spec fn mustered<T>(stage: Stage<T>) -> bool {
    forall|f: int| #[trigger] stage.hub.writers.count(f) == tally(stage.crew, f)
}

proof fn lemma_flushed<T>(hub: HubView<Seq<T>>, p: (int, int), buffered: Seq<T>)
    requires
        hub.inv(),
        hub.handles.contains(p),
    ensures
        flushed(hub, p, buffered).inv(),
        flushed(hub, p, buffered).handles.contains(flushed_pos(hub, p, buffered)),
        flushed(hub, p, buffered).writers == hub.writers,
        flushed(hub, p, buffered).frames.len() == hub.frames.len(),
{
    if buffered.len() > 0 {
        hub.lemma_appended_inv(p, buffered);
    }
}

/// Every step keeps what every operation keeps.
pub(crate) proof fn lemma_step_inv<T>(before: Stage<T>, act: Act<T>, after: Stage<T>)
    requires
        before.hub.inv(),
        step(before, act, after),
    ensures
        after.hub.inv(),
{
    let hub = before.hub;
    let values = outgoing(before, act);
    match act {
        Act::Send(who, _) | Act::Flush(who) => {
            lemma_flushed(hub, before.member(who).pos, values);
        },
        Act::Advance(who) => {
            lemma_flushed(hub, before.member(who).pos, values);
            let p = before.flushed_pos(who, values);
            before.flushed(who, values).lemma_advanced_inv(p, Seq::empty());
        },
        Act::Close(who) => {
            lemma_flushed(hub, before.member(who).pos, values);
            let between = before.flushed(who, values);
            let p = before.flushed_pos(who, values);
            between.lemma_departed_inv(p.0);
            between.departed(p.0).lemma_released_inv(p);
        },
        Act::Clone(who) => {
            let m = before.member(who);
            hub.lemma_joined_inv(m.frame());
            hub.joined(m.frame()).lemma_held_inv(m.pos);
        },
        Act::Read(_, turn, _) => {
            match turn {
                Turn::Stay => {},
                Turn::Step(p, q) => {
                    hub.lemma_moved_inv(p, q);
                },
                Turn::Take(p, q) => {
                    hub.lemma_emptied_inv(q);
                    assert(hub.emptied(q).has(q));
                    hub.emptied(q).lemma_moved_inv(p, q);
                },
                Turn::Enter(p) => {
                    hub.lemma_opened_inv(p, Seq::empty());
                    assert(hub.opened(p.0, Seq::empty()).handles.contains(p));
                    hub.opened(p.0, Seq::empty()).lemma_moved_inv(p, (p.0 + 1, 0));
                },
                Turn::Ask(p, signal) => {
                    hub.lemma_signalled_inv(p, after.hub, signal);
                },
                Turn::Join(p) => {
                    hub.lemma_held_inv(p);
                },
                Turn::Leave(p) => {
                    hub.lemma_released_inv(p);
                },
            }
        },
    }
}

/// The invariant holds all along a run.
pub(crate) proof fn lemma_run_inv<T>(stages: Seq<Stage<T>>, acts: Seq<Act<T>>, n: int)
    requires
        run(stages, acts),
        0 <= n <= acts.len(),
    ensures
        stages[n].hub.inv(),
    decreases n,
{
    if n > 0 {
        lemma_run_inv(stages, acts, n - 1);
        let _ = acts[n - 1];
        lemma_step_inv(stages[n - 1], acts[n - 1], stages[n]);
    }
}

/// Where the senders stand after a step.
proof fn lemma_step_writers<T>(before: Stage<T>, act: Act<T>, after: Stage<T>)
    requires
        before.hub.inv(),
        step(before, act, after),
    ensures
        match act {
            Act::Advance(who) => after.hub.writers == before.hub.writers.remove(
                before.member(who).frame(),
            ).insert(before.member(who).frame() + 1),
            Act::Close(who) => after.hub.writers == before.hub.writers.remove(
                before.member(who).frame(),
            ),
            Act::Clone(who) => after.hub.writers == before.hub.writers.insert(
                before.member(who).frame(),
            ),
            _ => after.hub.writers == before.hub.writers,
        },
{
    match act {
        Act::Send(who, _) | Act::Flush(who) | Act::Advance(who) | Act::Close(who) => {
            lemma_flushed(before.hub, before.member(who).pos, outgoing(before, act));
        },
        _ => {},
    }
}

proof fn lemma_tally<T>(crew: Seq<Option<Member<T>>>, i: int, m: Option<Member<T>>, f: int)
    requires
        0 <= i < crew.len(),
    ensures
        tally(crew.update(i, m), f) == tally(crew, f) + (if m is Some && m->0.frame() == f {
            1int
        } else {
            0int
        }) - (if crew[i] is Some && crew[i]->0.frame() == f {
            1int
        } else {
            0int
        }),
    decreases crew.len(),
{
    let after = crew.update(i, m);
    if i == crew.len() - 1 {
        assert(after.drop_last() =~= crew.drop_last());
    } else {
        assert(after.drop_last() =~= crew.drop_last().update(i, m));
        lemma_tally(crew.drop_last(), i, m, f);
    }
}

proof fn lemma_tally_member<T>(crew: Seq<Option<Member<T>>>, i: int)
    requires
        0 <= i < crew.len(),
        crew[i] is Some,
    ensures
        tally(crew, crew[i]->0.frame()) > 0,
    decreases crew.len(),
{
    if i < crew.len() - 1 {
        lemma_tally_member(crew.drop_last(), i);
    }
}

proof fn lemma_step_mustered<T>(before: Stage<T>, act: Act<T>, after: Stage<T>)
    requires
        before.hub.inv(),
        mustered(before),
        step(before, act, after),
    ensures
        mustered(after),
{
    lemma_step_writers(before, act, after);
    assert forall|f: int| #[trigger] after.hub.writers.count(f) == tally(after.crew, f) by {
        assert(before.hub.writers.count(f) == tally(before.crew, f));
        match act {
            Act::Send(who, _) | Act::Flush(who) | Act::Advance(who) | Act::Close(who) => {
                lemma_tally(before.crew, who, after.crew[who], f);
                let frame = before.member(who).frame();
                assert(before.hub.writers.count(frame) > 0);
                assert(after.crew[who] is Some && act !is Advance ==> after.crew[who]->0.frame()
                    == frame);
            },
            Act::Clone(_) => {
                assert(after.crew.drop_last() =~= before.crew);
            },
            Act::Read(_, _, _) => {},
        }
    }
}

proof fn lemma_fresh<T>(stage: Stage<T>)
    requires
        fresh(stage),
    ensures
        stage.hub.inv(),
        mustered(stage),
{
    HubView::<Seq<T>>::lemma_started_inv(Seq::empty());
    let joined = HubView::started(Seq::<T>::empty()).joined(0);
    joined.lemma_held_inv((0, 0));
    assert(stage.crew.drop_last() =~= Seq::empty());
    assert forall|f: int| #[trigger] stage.hub.writers.count(f) == tally(stage.crew, f) by {
        reveal_with_fuel(tally, 2);
    }
}

/// All along a run, a frame counts exactly the senders that stand in it.
pub proof fn law_senders_are_counted<T>(stages: Seq<Stage<T>>, acts: Seq<Act<T>>, n: int)
    requires
        run(stages, acts),
        fresh(stages[0]),
        0 <= n <= acts.len(),
    ensures
        forall|f: int| #[trigger] stages[n].hub.senders(f) == tally(stages[n].crew, f),
        mustered(stages[n]),
    decreases n,
{
    if n > 0 {
        law_senders_are_counted(stages, acts, n - 1);
        lemma_run_inv(stages, acts, n - 1);
        let _ = acts[n - 1];
        lemma_step_mustered(stages[n - 1], acts[n - 1], stages[n]);
    } else {
        lemma_fresh(stages[0]);
    }
}

/// No buffer is ever left full.
proof fn lemma_run_within<T>(stages: Seq<Stage<T>>, acts: Seq<Act<T>>, who: int, n: int)
    requires
        run(stages, acts),
        fresh(stages[0]),
        0 <= n <= acts.len(),
        0 <= who < stages[n].crew.len(),
        stages[n].crew[who] is Some,
    ensures
        stages[n].member(who).within(),
    decreases n,
{
    lemma_batch::<T>();
    if n > 0 {
        let act = acts[n - 1];
        let before = stages[n - 1];
        assert(step(before, act, stages[n]));
        if who < before.crew.len() && before.crew[who] is Some {
            lemma_run_within(stages, acts, who, n - 1);
        }
    }
}

proof fn lemma_written_by_signed<T>(tagged: Seq<(int, T)>, who: int, by: int, values: Seq<T>)
    ensures
        written_by(tagged + values.map_values(|value: T| (by, value)), who) == written_by(
            tagged,
            who,
        ) + (if by == who {
            values
        } else {
            Seq::empty()
        }),
    decreases values.len(),
{
    let tag = |value: T| (by, value);
    let all = tagged + values.map_values(tag);
    if values.len() == 0 {
        assert(all =~= tagged);
        assert(written_by(tagged, who) + Seq::<T>::empty() =~= written_by(tagged, who));
        assert(written_by(tagged, who) + values =~= written_by(tagged, who));
    } else {
        let less = values.drop_last();
        assert(all.drop_last() =~= tagged + less.map_values(tag));
        assert(all.last() == (by, values.last()));
        lemma_written_by_signed(tagged, who, by, less);
        if by == who {
            assert((written_by(tagged, who) + less).push(values.last()) =~= written_by(tagged, who)
                + values);
        }
    }
}

/// What a sender has passed on in a frame, followed by what it has not passed on
/// yet, is what it has sent in that frame, in order.
pub proof fn law_sent_is_passed_on<T>(
    stages: Seq<Stage<T>>,
    acts: Seq<Act<T>>,
    who: int,
    f: int,
    n: int,
)
    requires
        run(stages, acts),
        fresh(stages[0]),
        0 <= n <= acts.len(),
    ensures
        written_by(passed(stages, acts, f, n), who) + withheld(stages[n], who, f) == sent(
            stages,
            acts,
            who,
            f,
            n,
        ),
    decreases n,
{
    if n == 0 {
        assert(written_by(passed(stages, acts, f, 0), who) + withheld(stages[0], who, f)
            =~= Seq::empty());
    } else {
        law_sent_is_passed_on(stages, acts, who, f, n - 1);
        let before = stages[n - 1];
        let act = acts[n - 1];
        let tagged = passed(stages, acts, f, n - 1);
        assert(step(before, act, stages[n]));
        let gain = gained(before, act, f);
        let by = doer(act);
        lemma_written_by_signed(tagged, who, by, gain);
        let mine = written_by(tagged, who);
        let held = withheld(before, who, f);
        assert(mine + Seq::<T>::empty() =~= mine);
        assert((mine + held) + Seq::<T>::empty() =~= mine + held);
        match act {
            Act::Send(_, value) => {
                if by == who && before.member(who).frame() == f {
                    assert(mine + held.push(value) =~= (mine + held).push(value));
                    assert((mine + held.push(value)) + Seq::<T>::empty() =~= mine + held.push(
                        value,
                    ));
                } else {
                    assert(withheld(stages[n], who, f) == held);
                }
            },
            Act::Flush(_) | Act::Advance(_) | Act::Close(_) => {
                if by == who {
                    assert(withheld(stages[n], who, f) =~= Seq::empty());
                } else {
                    assert(withheld(stages[n], who, f) == held);
                }
            },
            _ => {
                assert(withheld(stages[n], who, f) =~= held);
            },
        }
    }
}

/// What a sender has sent and not passed on is the latest that it has sent, and of
/// values that take room less than a batch: less than 2048 bytes of them, and nothing
/// at all if a batch is one value, as it is for values of more than half its size.
pub proof fn law_unseen_are_few<T>(
    stages: Seq<Stage<T>>,
    acts: Seq<Act<T>>,
    who: int,
    f: int,
    n: int,
)
    requires
        run(stages, acts),
        fresh(stages[0]),
        0 <= n <= acts.len(),
        0 <= who < stages[n].crew.len(),
        stages[n].crew[who] is Some,
    ensures
        ({
            let unseen = withheld(stages[n], who, f);
            let seen = written_by(passed(stages, acts, f, n), who);
            let limit = stages[n].member(who).limit;
            &&& sent(stages, acts, who, f, n) == seen + unseen
            &&& unseen.len() < limit
            &&& size_of::<T>() > 0 ==> unseen.len() < batch::<T>()
            &&& 0 < size_of::<T>() <= 2048 ==> unseen.len() * size_of::<T>() < 2048
            &&& size_of::<T>() >= 1025 ==> unseen.len() == 0
        }),
{
    law_sent_is_passed_on(stages, acts, who, f, n);
    lemma_run_within(stages, acts, who, n);
    lemma_batch::<T>();
    law_batch_fills_the_room::<T>();
    let size = size_of::<T>() as int;
    let len = withheld(stages[n], who, f).len() as int;
    let most = batch::<T>() as int;
    if 0 < size <= 2048 {
        assert(len * size < 2048) by (nonlinear_arith)
            requires
                0 < size,
                0 <= len < most,
                most * size <= 2048,
        ;
    }
}

/// A value that completes a batch is passed on at once, together with those that its
/// sender had gathered before it, and no other value is: a sender that is short of a batch
/// gathers on, and nobody sees anything. Values that take no room are all gathered.
pub proof fn law_sending_waits_for_a_batch<T>(
    before: Stage<T>,
    who: int,
    value: T,
    after: Stage<T>,
)
    requires
        step(before, Act::Send(who, value), after),
    ensures
        ({
            let act = Act::Send(who, value);
            let gathered = before.crew[who]->0.buffered;
            let full = if size_of::<T>() == 0 {
                usize::MAX as int
            } else {
                batch::<T>() as int
            };
            &&& gathered.len() + 1 <= full
            &&& gathered.len() + 1 < full ==> {
                &&& after.hub == before.hub
                &&& after.crew[who]->0.buffered == gathered.push(value)
                &&& gained(before, act, before.crew[who]->0.pos.0) == Seq::<T>::empty()
            }
            &&& gathered.len() + 1 == full ==> {
                &&& after.crew[who]->0.buffered == Seq::<T>::empty()
                &&& gained(before, act, before.crew[who]->0.pos.0) == gathered.push(value)
            }
        }),
{
}

/// Once a frame is over, every value that was sent in it has been passed on, also
/// where nobody asked for it: sender by sender, in the order in which it was sent.
pub proof fn law_end_withholds_nothing<T>(
    stages: Seq<Stage<T>>,
    acts: Seq<Act<T>>,
    who: int,
    f: int,
    n: int,
)
    requires
        run(stages, acts),
        fresh(stages[0]),
        0 <= n <= acts.len(),
        stages[n].hub.over(f),
    ensures
        written_by(passed(stages, acts, f, n), who) == sent(stages, acts, who, f, n),
{
    law_sent_is_passed_on(stages, acts, who, f, n);
    law_senders_are_counted(stages, acts, n);
    let stage = stages[n];
    if 0 <= who < stage.crew.len() && stage.crew[who] is Some && stage.member(who).frame() == f {
        lemma_tally_member(stage.crew, who);
        assert(stage.hub.writers.count(f) == tally(stage.crew, f));
    }
    let all = written_by(passed(stages, acts, f, n), who);
    assert(all + Seq::<T>::empty() =~= all);
}

/// Once a sender has asked for it, or has left its frame or the channel, it withholds
/// nothing of what it sent: all of it has been passed on, in the order in which it was
/// sent.
pub proof fn law_flush_withholds_nothing<T>(
    stages: Seq<Stage<T>>,
    acts: Seq<Act<T>>,
    who: int,
    f: int,
    n: int,
)
    requires
        run(stages, acts),
        fresh(stages[0]),
        0 < n <= acts.len(),
        acts[n - 1] == Act::<T>::Flush(who) || acts[n - 1] == Act::<T>::Advance(who) || acts[n - 1]
            == Act::<T>::Close(who),
    ensures
        written_by(passed(stages, acts, f, n), who) == sent(stages, acts, who, f, n),
{
    law_sent_is_passed_on(stages, acts, who, f, n);
    assert(step(stages[n - 1], acts[n - 1], stages[n]));
    let all = written_by(passed(stages, acts, f, n), who);
    assert(withheld(stages[n], who, f) =~= Seq::empty());
    assert(all + Seq::<T>::empty() =~= all);
}

/// Where a sender stands after a step. It goes over to the next frame if it says so, and
/// goes away if it says so; nothing else moves it to another frame, and a clone starts in
/// the frame of its source with nothing sent.
pub proof fn law_senders_stand_where_they_went<T>(
    before: Stage<T>,
    act: Act<T>,
    after: Stage<T>,
    who: int,
)
    requires
        step(before, act, after),
        0 <= who < before.crew.len(),
        before.crew[who] is Some,
    ensures
        after.crew[who] is Some <==> act != Act::<T>::Close(who),
        act == Act::<T>::Advance(who) ==> after.crew[who]->0.pos.0 == before.crew[who]->0.pos.0 + 1,
        act != Act::<T>::Advance(who) && act != Act::<T>::Close(who) ==> after.crew[who]->0.pos.0
            == before.crew[who]->0.pos.0,
        act == Act::<T>::Clone(who) ==> {
            &&& after.crew.len() == before.crew.len() + 1
            &&& after.crew.last() is Some
            &&& after.crew.last()->0.pos.0 == before.crew[who]->0.pos.0
            &&& after.crew.last()->0.buffered.len() == 0
        },
        act !is Clone ==> after.crew.len() == before.crew.len(),
{
    match act {
        Act::Close(w) => {
            if w == who {
                assert(act == Act::<T>::Close(who));
            }
        },
        Act::Advance(w) => {
            if w == who {
                assert(act == Act::<T>::Advance(who));
            }
        },
        _ => {},
    }
}

proof fn lemma_tally_none<T>(crew: Seq<Option<Member<T>>>, f: int) -> (who: int)
    ensures
        tally(crew, f) > 0 ==> 0 <= who < crew.len() && crew[who] is Some && crew[who]->0.pos.0
            == f,
    decreases crew.len(),
{
    if crew.len() == 0 {
        0
    } else if crew.last() is Some && crew.last()->0.frame() == f {
        crew.len() - 1
    } else {
        lemma_tally_none(crew.drop_last(), f)
    }
}

/// A frame has come to its end if and only if every sender that is there has left it
/// behind: none stands in it or in a frame before it.
pub proof fn law_over_when_all_have_left<T>(
    stages: Seq<Stage<T>>,
    acts: Seq<Act<T>>,
    f: int,
    n: int,
)
    requires
        run(stages, acts),
        fresh(stages[0]),
        0 <= n <= acts.len(),
    ensures
        stages[n].hub.over(f) <==> forall|who: int|
            0 <= who < stages[n].crew.len() && (#[trigger] stages[n].crew[who]) is Some
                ==> stages[n].crew[who]->0.pos.0 > f,
{
    law_senders_are_counted(stages, acts, n);
    let crew = stages[n].crew;
    let hub = stages[n].hub;
    if hub.over(f) {
        assert forall|who: int| 0 <= who < crew.len() && (#[trigger] crew[who]) is Some implies
            crew[who]->0.pos.0 > f by {
            lemma_tally_member(crew, who);
            assert(hub.writers.count(crew[who]->0.pos.0) == tally(crew, crew[who]->0.pos.0));
        }
    }
    if forall|who: int|
        0 <= who < crew.len() && (#[trigger] crew[who]) is Some ==> crew[who]->0.pos.0 > f {
        assert forall|g: int| g <= f implies #[trigger] hub.writers.count(g) == 0 by {
            assert(hub.writers.count(g) == tally(crew, g));
            let who = lemma_tally_none(crew, g);
            if tally(crew, g) > 0 {
                assert(crew[who] is Some);
            }
        }
    }
}

/// A frame is there once somebody has gone over to it, and not before: the last frame is
/// followed by another after a step if and only if a sender or a receiver goes over from
/// it in that step.
pub proof fn law_frames_are_opened_by_moving<T>(before: Stage<T>, act: Act<T>, after: Stage<T>)
    requires
        before.hub.inv(),
        step(before, act, after),
    ensures
        ({
            let last = before.hub.frames.len() - 1;
            let opens = match act {
                Act::Advance(who) => before.crew[who]->0.pos.0 == last,
                Act::Read(_, Turn::Enter(p), _) => p.0 == last,
                _ => false,
            };
            after.hub.frames.len() == before.hub.frames.len() + (if opens {
                1int
            } else {
                0int
            })
        }),
{
    match act {
        Act::Send(who, _) | Act::Flush(who) | Act::Advance(who) | Act::Close(who) => {
            lemma_flushed(before.hub, before.member(who).pos, outgoing(before, act));
            assert(before.hub.has(before.member(who).pos));
        },
        Act::Read(_, Turn::Enter(p), _) => {
            assert(before.hub.has(p));
        },
        _ => {},
    }
}

/// What ends a frame: the last sender that stands in it or before it leaves it
/// behind.
pub open spec fn ends<T>(before: Stage<T>, act: Act<T>, f: int) -> bool {
    match act {
        Act::Advance(who) => before.member(who).frame() == f && vacated(
            before.hub.writers.remove(f),
            f,
        ),
        Act::Close(who) => before.member(who).frame() <= f && vacated(
            before.hub.writers.remove(before.member(who).frame()),
            f,
        ),
        _ => false,
    }
}

/// A frame is over after a step if and only if it was over before or the step ends
/// it.
pub proof fn law_what_ends_a_frame<T>(before: Stage<T>, act: Act<T>, after: Stage<T>, f: int)
    requires
        before.hub.inv(),
        step(before, act, after),
    ensures
        after.hub.over(f) <==> before.hub.over(f) || ends(before, act, f),
{
    lemma_step_writers(before, act, after);
    let old_writers = before.hub.writers;
    let new_writers = after.hub.writers;
    match act {
        Act::Advance(who) => {
            let frame = before.member(who).frame();
            assert(old_writers.count(frame) > 0);
            let rest = old_writers.remove(frame);
            assert forall|g: int| g != frame + 1 implies #[trigger] new_writers.count(g)
                == rest.count(g) by {}
            assert(new_writers.count(frame + 1) > 0);
            assert forall|g: int| g != frame implies #[trigger] rest.count(g) == old_writers.count(
                g,
            ) by {}
            if frame < f {
                assert(!vacated(new_writers, f));
            } else {
                assert(vacated(new_writers, f) ==> vacated(rest, f)) by {
                    if vacated(new_writers, f) {
                        assert forall|g: int| g <= f implies #[trigger] rest.count(g) == 0 by {
                            assert(new_writers.count(g) == 0);
                        }
                    }
                }
                assert(vacated(rest, f) ==> vacated(new_writers, f)) by {
                    if vacated(rest, f) {
                        assert forall|g: int| g <= f implies #[trigger] new_writers.count(g)
                            == 0 by {
                            assert(rest.count(g) == 0);
                        }
                    }
                }
                if frame > f {
                    assert(vacated(rest, f) <==> vacated(old_writers, f)) by {
                        lemma_vacated_same(rest, old_writers, f);
                    }
                }
            }
        },
        Act::Close(who) => {
            let frame = before.member(who).frame();
            assert(old_writers.count(frame) > 0);
            assert forall|g: int| g != frame implies #[trigger] new_writers.count(g)
                == old_writers.count(g) by {}
            if frame > f {
                lemma_vacated_same(new_writers, old_writers, f);
            }
        },
        Act::Clone(who) => {
            let frame = before.member(who).frame();
            assert(old_writers.count(frame) > 0);
            assert(new_writers.count(frame) > 0);
            assert forall|g: int| g != frame implies #[trigger] new_writers.count(g)
                == old_writers.count(g) by {}
            if frame > f {
                lemma_vacated_same(new_writers, old_writers, f);
            }
        },
        _ => {},
    }
}

proof fn lemma_vacated_same(a: Multiset<int>, b: Multiset<int>, f: int)
    requires
        forall|g: int| g <= f ==> #[trigger] a.count(g) == b.count(g),
    ensures
        vacated(a, f) <==> vacated(b, f),
{
    if vacated(a, f) {
        assert forall|g: int| g <= f implies #[trigger] b.count(g) == 0 by {
            assert(a.count(g) == 0);
        }
    }
    if vacated(b, f) {
        assert forall|g: int| g <= f implies #[trigger] a.count(g) == 0 by {
            assert(b.count(g) == 0);
        }
    }
}

/// How many frames there are after a step.
pub(crate) proof fn lemma_step_frames<T>(before: Stage<T>, act: Act<T>, after: Stage<T>)
    requires
        before.hub.inv(),
        step(before, act, after),
    ensures
        before.hub.frames.len() <= after.hub.frames.len(),
        after.hub.frames.len() > before.hub.frames.len() ==> !before.hub.over(
            before.hub.frames.len() - 1,
        ),
{
    match act {
        Act::Send(who, _) | Act::Flush(who) | Act::Advance(who) | Act::Close(who) => {
            let frame = before.member(who).frame();
            lemma_flushed(before.hub, before.member(who).pos, outgoing(before, act));
            assert(before.hub.writers.count(frame) > 0);
            assert(before.hub.writers.contains(frame));
        },
        Act::Read(_, Turn::Enter(p), _) => {
            if !before.hub.over(p.0) {
                let g = choose|g: int| g <= p.0 && #[trigger] before.hub.writers.count(g) != 0;
                assert(before.hub.has(p));
            }
        },
        _ => {},
    }
}

/// Whether a frame has come to its end, and whether one follows it then, is settled
/// for good: no run changes it.
pub proof fn law_end_is_final<T>(stages: Seq<Stage<T>>, acts: Seq<Act<T>>, f: int, n: int)
    requires
        run(stages, acts),
        0 <= f < stages[0].hub.frames.len(),
        stages[0].hub.over(f),
        0 <= n <= acts.len(),
    ensures
        stages[n].hub.over(f),
        stages[n].hub.has_next(f) == stages[0].hub.has_next(f),
    decreases n,
{
    if n > 0 {
        law_end_is_final(stages, acts, f, n - 1);
        lemma_run_inv(stages, acts, n - 1);
        let act = acts[n - 1];
        law_what_ends_a_frame(stages[n - 1], act, stages[n], f);
        lemma_step_frames(stages[n - 1], act, stages[n]);
        lemma_run_frames(stages, acts, n - 1);
    }
}

proof fn lemma_run_frames<T>(stages: Seq<Stage<T>>, acts: Seq<Act<T>>, n: int)
    requires
        run(stages, acts),
        0 <= n <= acts.len(),
    ensures
        stages[0].hub.frames.len() <= stages[n].hub.frames.len(),
    decreases n,
{
    if n > 0 {
        lemma_run_frames(stages, acts, n - 1);
        lemma_run_inv(stages, acts, n - 1);
        let act = acts[n - 1];
        lemma_step_frames(stages[n - 1], act, stages[n]);
    }
}

proof fn lemma_moved_signal<T>(hub: HubView<Seq<T>>, p: (int, int), q: (int, int), at: (int, int))
    requires
        hub.inv(),
        hub.has(at),
    ensures
        hub.moved(p, q).has(at),
        hub.moved(p, q).block(at).signal == hub.block(at).signal,
        hub.released(p).has(at),
        hub.released(p).block(at).signal == hub.block(at).signal,
{
    assert(hub.moved(p, q).frames[at.0].len() == hub.frames[at.0].len());
    assert(hub.released(p).frames[at.0].len() == hub.frames[at.0].len());
}

proof fn lemma_flushed_signal<T>(
    hub: HubView<Seq<T>>,
    p: (int, int),
    buffered: Seq<T>,
    at: (int, int),
)
    requires
        hub.inv(),
        hub.handles.contains(p),
        hub.has(at),
    ensures
        flushed(hub, p, buffered).has(at),
        flushed(hub, p, buffered).block(at).signal == hub.block(at).signal,
{
    if buffered.len() > 0 {
        let tail = (p.0, hub.last(p.0));
        let between = hub.written(p.0, buffered).woken(tail);
        hub.lemma_appended_inv(p, buffered);
        assert(between.frames[at.0].len() >= hub.frames[at.0].len());
        assert(between.block(at).signal == hub.block(at).signal);
        lemma_moved_signal(between, p, (p.0, tail.1 + 1), at);
    }
}

/// A signal stays with its block.
proof fn lemma_step_signal<T>(before: Stage<T>, act: Act<T>, after: Stage<T>, at: (int, int))
    requires
        before.hub.inv(),
        step(before, act, after),
        before.hub.has(at),
        before.hub.block(at).signal is Some,
    ensures
        after.hub.has(at),
        after.hub.block(at).signal == before.hub.block(at).signal,
{
    let hub = before.hub;
    let values = outgoing(before, act);
    match act {
        Act::Send(who, _) | Act::Flush(who) => {
            lemma_flushed_signal(hub, before.member(who).pos, values, at);
        },
        Act::Advance(who) => {
            let p = before.flushed_pos(who, values);
            let between = before.flushed(who, values);
            lemma_flushed(hub, before.member(who).pos, values);
            lemma_flushed_signal(hub, before.member(who).pos, values, at);
            let opened = between.opened(p.0, Seq::empty());
            between.lemma_opened_inv(p, Seq::empty());
            assert(opened.writers.contains(p.0));
            assert(opened.block(at).signal == between.block(at).signal);
            opened.lemma_promoted_inv(p.0);
            assert(opened.promoted(p.0).block(at).signal == opened.block(at).signal);
            lemma_moved_signal(opened.promoted(p.0), p, (p.0 + 1, 0), at);
        },
        Act::Close(who) => {
            let p = before.flushed_pos(who, values);
            let between = before.flushed(who, values);
            lemma_flushed(hub, before.member(who).pos, values);
            lemma_flushed_signal(hub, before.member(who).pos, values, at);
            between.lemma_departed_inv(p.0);
            assert(between.departed(p.0).block(at).signal == between.block(at).signal);
            lemma_moved_signal(between.departed(p.0), p, p, at);
        },
        Act::Read(_, turn, _) => {
            match turn {
                Turn::Step(p, q) => {
                    lemma_moved_signal(hub, p, q, at);
                },
                Turn::Take(p, q) => {
                    hub.lemma_emptied_inv(q);
                    assert(hub.emptied(q).block(at).signal == hub.block(at).signal);
                    assert(hub.emptied(q).frames[at.0].len() == hub.frames[at.0].len());
                    lemma_moved_signal(hub.emptied(q), p, q, at);
                },
                Turn::Enter(p) => {
                    hub.lemma_opened_inv(p, Seq::empty());
                    lemma_moved_signal(hub.opened(p.0, Seq::empty()), p, (p.0 + 1, 0), at);
                },
                Turn::Ask(p, _) => {
                    assert(after.hub.frames[at.0].len() == hub.frames[at.0].len());
                },
                Turn::Leave(p) => {
                    lemma_moved_signal(hub, p, p, at);
                },
                _ => {},
            }
        },
        _ => {},
    }
}

/// A signal is released by the first step after which there is something to see
/// for those who wait on it, and by no other: all along a run it has been released
/// if and only if something follows its block or the frame has come to its end.
/// Whoever asks at that block again gets the same signal.
pub proof fn law_signal_for_life<T>(
    stages: Seq<Stage<T>>,
    acts: Seq<Act<T>>,
    at: (int, int),
    signal: Signal,
    n: int,
)
    requires
        run(stages, acts),
        stages[0].hub.has(at),
        stages[0].hub.block(at).signal == Some(signal),
        0 <= n <= acts.len(),
    ensures
        stages[n].hub.has(at),
        stages[n].hub.block(at).signal == Some(signal),
        rung(stages[n].hub.fired, signal) <==> at.1 < stages[n].hub.last(at.0)
            || stages[n].hub.over(at.0),
        forall|after: HubView<Seq<T>>, other: Signal| #[trigger]
            stages[n].hub.signalled(at, after, other) ==> other == signal,
    decreases n,
{
    if n > 0 {
        law_signal_for_life(stages, acts, at, signal, n - 1);
        lemma_run_inv(stages, acts, n - 1);
        let act = acts[n - 1];
        lemma_step_signal(stages[n - 1], act, stages[n], at);
    }
    lemma_run_inv(stages, acts, n);
    stages[n].hub.law_signal_tells(at, signal);
}

/// What receiver `k` has read in the first `n` acts while it stood in frame `f`, in
/// order. `frames[i]` is the frame that it stood in before act `i`.
pub open spec fn read_in<T>(frames: Seq<int>, acts: Seq<Act<T>>, k: int, f: int, n: int) -> Seq<T>
    decreases n,
{
    if n <= 0 {
        Seq::empty()
    } else {
        let before = read_in(frames, acts, k, f, n - 1);
        match acts[n - 1] {
            Act::Read(who, _, Some(value)) if who == k && frames[n - 1] == f => before.push(value),
            _ => before,
        }
    }
}

/// What a receiver has left of frame `f` after `act`, given what it had left of it
/// before.
pub open spec fn settles<T>(
    stage: Stage<T>,
    frame: int,
    act: Act<T>,
    k: int,
    f: int,
    before: Seq<T>,
    after: Seq<T>,
) -> bool {
    match act {
        Act::Read(who, _, Some(value)) if who == k && frame == f => before.len() > 0 && value
            == before[0] && after == before.skip(1),
        _ => after == before + gained(stage, act, f),
    }
}

/// What a receiver has read of a frame, followed by what it has left of it, is what
/// was passed on there.
pub(crate) proof fn lemma_accounts<T>(
    stages: Seq<Stage<T>>,
    frames: Seq<int>,
    acts: Seq<Act<T>>,
    left: Seq<Seq<T>>,
    k: int,
    f: int,
    n: int,
)
    requires
        0 <= n <= acts.len(),
        left[0] == Seq::<T>::empty(),
        forall|i: int|
            #![trigger acts[i]]
            0 <= i < n ==> settles(stages[i], frames[i], acts[i], k, f, left[i], left[i + 1]),
    ensures
        read_in(frames, acts, k, f, n) + left[n] == contents(passed(stages, acts, f, n)),
    decreases n,
{
    if n == 0 {
        assert(read_in(frames, acts, k, f, 0) + left[0] =~= contents(passed(stages, acts, f, 0)));
    } else {
        lemma_accounts(stages, frames, acts, left, k, f, n - 1);
        let act = acts[n - 1];
        let gain = gained(stages[n - 1], act, f);
        let before = passed(stages, acts, f, n - 1);
        let read = read_in(frames, acts, k, f, n - 1);
        assert(contents(before + signed(act, gain)) =~= contents(before) + gain);
        assert(read + (left[n - 1] + gain) =~= (read + left[n - 1]) + gain);
        if left[n - 1].len() > 0 {
            let first = left[n - 1][0];
            assert(read.push(first) + left[n - 1].skip(1) =~= read + left[n - 1]);
        }
        assert(contents(before) + Seq::<T>::empty() =~= contents(before));
    }
}

/// Everything that was passed on in a frame was sent there, by the sender that it
/// is put down to.
pub proof fn law_passed_on_was_sent<T>(
    stages: Seq<Stage<T>>,
    acts: Seq<Act<T>>,
    f: int,
    n: int,
    i: int,
)
    requires
        run(stages, acts),
        fresh(stages[0]),
        0 <= n <= acts.len(),
        0 <= i < passed(stages, acts, f, n).len(),
    ensures
        ({
            let entry = passed(stages, acts, f, n)[i];
            sent(stages, acts, entry.0, f, n).contains(entry.1)
        }),
{
    let tagged = passed(stages, acts, f, n);
    let entry = tagged[i];
    law_sent_is_passed_on(stages, acts, entry.0, f, n);
    lemma_written_by_has(tagged, i);
    let mine = written_by(tagged, entry.0);
    let j = choose|j: int| 0 <= j < mine.len() && mine[j] == entry.1;
    assert(sent(stages, acts, entry.0, f, n)[j] == entry.1);
}

proof fn lemma_written_by_has<T>(tagged: Seq<(int, T)>, i: int)
    requires
        0 <= i < tagged.len(),
    ensures
        written_by(tagged, tagged[i].0).contains(tagged[i].1),
    decreases tagged.len(),
{
    let who = tagged[i].0;
    let less = written_by(tagged.drop_last(), who);
    if i < tagged.len() - 1 {
        lemma_written_by_has(tagged.drop_last(), i);
        let j = choose|j: int| 0 <= j < less.len() && less[j] == tagged[i].1;
        assert(written_by(tagged, who)[j] == tagged[i].1);
    } else {
        assert(written_by(tagged, who)[less.len() as int] == tagged[i].1);
    }
}

/// The frame in which an act adds something, if it does.
pub(crate) open spec fn site<T>(before: Stage<T>, act: Act<T>) -> int {
    match act {
        Act::Send(who, _) | Act::Flush(who) | Act::Advance(who) | Act::Close(who) => before.member(
            who,
        ).frame(),
        _ => 0,
    }
}

/// What a step shows to those who read the hub.
pub(crate) proof fn lemma_step_grown<T>(before: Stage<T>, act: Act<T>, after: Stage<T>)
    requires
        before.hub.inv(),
        step(before, act, after),
        !(act matches Act::Read(_, Turn::Take(_, _), _)),
    ensures
        0 <= site(before, act) < before.hub.frames.len(),
        grown(before.hub, after.hub, site(before, act), gained(before, act, site(before, act))),
{
    let hub = before.hub;
    let f = site(before, act);
    let gain = gained(before, act, f);
    match act {
        Act::Send(who, _) | Act::Flush(who) | Act::Advance(who) | Act::Close(who) => {
            let m = before.member(who);
            lemma_flushed(hub, m.pos, gain);
            let between = before.flushed(who, gain);
            let p = before.flushed_pos(who, gain);
            if gain.len() > 0 {
                lemma_appended_grown(hub, m.pos, gain);
            } else {
                assert(gain =~= Seq::empty());
                lemma_same_data_grown(hub, hub, f);
            }
            if act is Advance {
                lemma_advanced_grown(between, p);
                lemma_grown_twice(hub, between, after.hub, f, gain);
            }
            if act is Close {
                lemma_retired_grown(between, p);
                lemma_grown_twice(hub, between, after.hub, f, gain);
            }
        },
        Act::Clone(who) => {
            let m = before.member(who);
            let joined = hub.joined(m.frame());
            hub.lemma_joined_inv(m.frame());
            lemma_same_data_grown(hub, joined, f);
            lemma_held_grown(joined, m.pos, f);
            lemma_grown_twice(hub, joined, after.hub, f, Seq::empty());
        },
        Act::Read(_, turn, _) => {
            match turn {
                Turn::Stay => {
                    lemma_same_data_grown(hub, hub, f);
                },
                Turn::Step(p, q) => {
                    lemma_moved_grown(hub, p, q, f);
                },
                Turn::Take(_, _) => {},
                Turn::Enter(p) => {
                    let opened = hub.opened(p.0, Seq::empty());
                    hub.lemma_opened_inv(p, Seq::empty());
                    lemma_opened_grown(hub, p.0, f);
                    lemma_moved_grown(opened, p, (p.0 + 1, 0), f);
                    lemma_grown_twice(hub, opened, after.hub, f, Seq::empty());
                },
                Turn::Ask(p, signal) => {
                    lemma_signalled_grown(hub, p, after.hub, signal, f);
                },
                Turn::Join(p) => {
                    lemma_held_grown(hub, p, f);
                },
                Turn::Leave(p) => {
                    lemma_released_grown(hub, p, f);
                },
            }
        },
    }
}

} // verus!
