//! Waiting for whichever of several events comes first.
//!
//! A [`Select`] gives out handles. Whoever triggers a handle puts it on the list
//! of its select and, if somebody sleeps on that list, wakes them: a thread, or
//! a handle of another select. A select that is closed makes room for another.
use atom::{Atom, GetNextMut};
use vstd::prelude::*;

verus! {

/// What a handle stands for, and the list of those triggered before it.
pub struct Listener {
    next: Option<Box<Listener>>,
    select: usize,
    id: usize,
}

/// The list of handles that were triggered and not picked up yet.
#[verifier::external_body]
pub struct Stack {
    cell: Atom<Box<Listener>>,
}

/// The select and the number of each handle in a list, first to last.
pub closed spec fn listed(list: Option<Box<Listener>>) -> Seq<(usize, usize)>
    decreases list,
{
    match list {
        Some(listener) => seq![(listener.select, listener.id)] + listed(listener.next),
        None => Seq::empty(),
    }
}

/// The select and the number of each handle on a stack, top to bottom.
pub uninterp spec fn stacked(stack: Stack) -> Seq<(usize, usize)>;

impl Listener {
    /// The list of those triggered before this one.
    pub closed spec fn below(&self) -> Option<Box<Listener>> {
        self.next
    }

    /// The select and the number of the handle that this listener stands for.
    pub closed spec fn handle(&self) -> (usize, usize) {
        (self.select, self.id)
    }
}

impl GetNextMut for Box<Listener> {
    type NextPtr = Option<Box<Listener>>;

    /// The place in a listener where the list of those below it is kept.
    /// Whatever is put there is all that changes of the listener.
    fn get_next(&mut self) -> (next: &mut Option<Box<Listener>>)
        ensures
            *next == old(self).below(),
            final(self).below() == *final(next),
            final(self).handle() == old(self).handle(),
    {
        &mut self.next
    }
}

impl Stack {
    /// `atom::Atom::empty`: a stack with nothing on it.
    #[verifier::external_body]
    fn empty() -> (stack: Stack)
        ensures
            stacked(stack) == Seq::<(usize, usize)>::empty(),
    {
        Stack { cell: Atom::empty() }
    }

    /// `atom::Atom::replace_and_set_next`: puts a listener on top of the stack
    /// and tells whether there was nothing below it.
    #[verifier::external_body]
    fn replace_and_set_next(&mut self, listener: Box<Listener>) -> (first: bool)
        ensures
            first == (stacked(*old(self)).len() == 0),
            stacked(*final(self)) == seq![(listener.select, listener.id)] + stacked(*old(self)),
    {
        self.cell.replace_and_set_next(listener)
    }

    /// `atom::Atom::take`: takes the whole stack, top first.
    #[verifier::external_body]
    fn take(&mut self) -> (list: Option<Box<Listener>>)
        ensures
            listed(list) == stacked(*old(self)),
            stacked(*final(self)) == Seq::<(usize, usize)>::empty(),
    {
        self.cell.take()
    }
}

/// Stands for one event that a select waits for.
pub struct Handle(Box<Listener>);

/// Who is to be woken.
pub enum Wake {
    /// The sleeper of another select, by way of one of its handles.
    Select(Handle),
    /// The thread that goes by this number.
    Thread(usize),
}

/// What one select shares with its handles.
struct Inner {
    head: Stack,
    wake: Option<Wake>,
    // Handles with a lower number belong to a select that was here before.
    since: usize,
    // Whether the select is gone.
    closed: bool,
}

/// What selects share with their handles.
pub struct Switchboard {
    inners: Vec<Inner>,
    // The places that no select needs any more.
    free: Vec<usize>,
    // The number of the next handle.
    count: usize,
}

/// Waits for its handles.
pub struct Select {
    index: usize,
    woken: Option<Box<Listener>>,
}

/// A handle: the place of its select, and its number.
pub type HandleView = (usize, usize);

/// Who is to be woken.
pub enum WakeView {
    Select(HandleView),
    Thread(usize),
}

/// One select: the handles that were triggered, latest first, who sleeps until
/// there is one, the number from which on handles are its own, and whether it is
/// closed.
pub struct InnerView {
    pub ready: Seq<HandleView>,
    pub wake: Option<WakeView>,
    pub since: nat,
    pub closed: bool,
}

/// All selects, the places that can be used again, and the number of the next
/// handle.
pub struct BoardView {
    pub selects: Seq<InnerView>,
    pub free: Seq<usize>,
    pub count: nat,
}

impl View for Handle {
    type V = HandleView;

    closed spec fn view(&self) -> HandleView {
        (self.0.select, self.0.id)
    }
}

impl View for Wake {
    type V = WakeView;

    open spec fn view(&self) -> WakeView {
        match *self {
            Wake::Select(handle) => WakeView::Select(handle@),
            Wake::Thread(thread) => WakeView::Thread(thread),
        }
    }
}

impl View for Inner {
    type V = InnerView;

    closed spec fn view(&self) -> InnerView {
        InnerView {
            ready: stacked(self.head),
            wake: match self.wake {
                Some(wake) => Some(wake@),
                None => None,
            },
            since: self.since as nat,
            closed: self.closed,
        }
    }
}

impl View for Switchboard {
    type V = BoardView;

    closed spec fn view(&self) -> BoardView {
        BoardView {
            selects: Seq::new(self.inners@.len(), |i: int| self.inners@[i]@),
            free: self.free@,
            count: self.count as nat,
        }
    }
}

/// How many selects somebody sleeps on.
pub open spec fn sleepers(selects: Seq<InnerView>) -> nat
    decreases selects.len(),
{
    if selects.len() == 0 {
        0
    } else {
        sleepers(selects.drop_last()) + (if selects.last().wake is Some {
            1nat
        } else {
            0nat
        })
    }
}

/// Replacing one select changes the number of sleepers by that one.
pub proof fn lemma_sleepers(selects: Seq<InnerView>, i: int, inner: InnerView)
    requires
        0 <= i < selects.len(),
    ensures
        sleepers(selects.update(i, inner)) == sleepers(selects) + (if inner.wake is Some {
            1int
        } else {
            0int
        }) - (if selects[i].wake is Some {
            1int
        } else {
            0int
        }),
    decreases selects.len(),
{
    let after = selects.update(i, inner);
    if i == selects.len() - 1 {
        assert(after.drop_last() =~= selects.drop_last());
    } else {
        assert(after.drop_last() =~= selects.drop_last().update(i, inner));
        lemma_sleepers(selects.drop_last(), i, inner);
    }
}

impl BoardView {
    /// Whether `handle` belongs to a select that is or was on this board.
    pub open spec fn knows(self, handle: HandleView) -> bool {
        handle.0 < self.selects.len() && handle.1 < self.count
    }

    /// Whether the select of `handle` is gone and its place has been used again.
    pub open spec fn stale(self, handle: HandleView) -> bool {
        handle.0 >= self.selects.len() || handle.1 < self.selects[handle.0 as int].since
    }

    /// A list of handles that all belong to select `i`.
    pub open spec fn owns(self, i: int, list: Seq<HandleView>) -> bool {
        forall|k: int|
            0 <= k < list.len() ==> (#[trigger] list[k]).0 == i && self.knows(list[k])
                && !self.stale(list[k])
    }

    /// What holds of select `i`: each handle on its list is its own, nobody sleeps on
    /// a list with something on it, and a closed select has no list.
    pub open spec fn sound(self, i: int) -> bool {
        &&& self.owns(i, self.selects[i].ready)
        &&& self.selects[i].since <= self.count
        &&& self.selects[i].wake is Some || self.selects[i].closed
            ==> self.selects[i].ready.len() == 0
        &&& (self.selects[i].wake matches Some(WakeView::Select(handle)) ==> self.knows(handle))
        &&& self.selects[i].closed && self.selects[i].wake is None ==> self.free.contains(
            i as usize,
        ) && i <= usize::MAX
    }

    /// What every operation keeps. A place can be used again, once, when its select
    /// is closed and nobody sleeps on it, and not before.
    pub open spec fn inv(self) -> bool {
        &&& forall|i: int|
            #![trigger self.selects[i]]
            0 <= i < self.selects.len() ==> self.sound(i)
        &&& forall|k: int|
            #![trigger self.free[k]]
            0 <= k < self.free.len() ==> {
                &&& self.free[k] < self.selects.len()
                &&& self.selects[self.free[k] as int].closed
                &&& self.selects[self.free[k] as int].wake is None
            }
        &&& self.free.no_duplicates()
    }

    /// The board with select `i` replaced.
    pub open spec fn with_select(self, i: int, inner: InnerView) -> BoardView {
        BoardView { selects: self.selects.update(i, inner), ..self }
    }

    /// Who is woken when `handle` is triggered: whoever sleeps on the list of its
    /// select, if the handle is the first on it.
    pub open spec fn roused(self, handle: HandleView) -> Option<WakeView> {
        if self.stale(handle) || self.selects[handle.0 as int].ready.len() > 0 {
            None
        } else {
            self.selects[handle.0 as int].wake
        }
    }

    /// The board once `handle` has been put on top of the list of its select. If it
    /// is the first there, nobody sleeps on the list any more. A closed select has no
    /// list; its place is free once nobody sleeps there.
    pub open spec fn topped(self, handle: HandleView) -> BoardView {
        let i = handle.0 as int;
        let inner = self.selects[i];
        if self.stale(handle) {
            self
        } else if !inner.closed {
            self.with_select(
                i,
                InnerView {
                    ready: seq![handle] + inner.ready,
                    wake: if inner.ready.len() == 0 {
                        None
                    } else {
                        inner.wake
                    },
                    ..inner
                },
            )
        } else if inner.wake is Some {
            BoardView {
                free: self.free.push(handle.0),
                ..self.with_select(i, InnerView { wake: None, ..inner })
            }
        } else {
            self
        }
    }

    /// The board once `handle` has been triggered, and the thread that is to be
    /// woken.
    pub open spec fn triggered(self, handle: HandleView) -> (BoardView, Option<usize>)
        decreases sleepers(self.selects),
        when self.inv()
    {
        let after = self.topped(handle);
        proof {
            self.lemma_topped(handle);
        }
        match self.roused(handle) {
            Some(WakeView::Select(next)) => after.triggered(next),
            Some(WakeView::Thread(thread)) => (after, Some(thread)),
            None => (after, None),
        }
    }

    /// The handles that go on a list when `handle` is triggered, in order.
    pub open spec fn listing(self, handle: HandleView) -> Seq<HandleView>
        decreases sleepers(self.selects),
        when self.inv()
    {
        let own = if self.stale(handle) || self.selects[handle.0 as int].closed {
            Seq::empty()
        } else {
            seq![handle]
        };
        proof {
            self.lemma_topped(handle);
        }
        match self.roused(handle) {
            Some(WakeView::Select(next)) => own + self.topped(handle).listing(next),
            _ => own,
        }
    }

    /// Putting a handle on its list keeps what every operation keeps.
    pub proof fn lemma_topped(self, handle: HandleView)
        requires
            self.inv(),
        ensures
            self.knows(handle) ==> self.topped(handle).inv(),
            self.topped(handle).selects.len() == self.selects.len(),
            self.topped(handle).count == self.count,
            forall|h: HandleView| self.topped(handle).stale(h) <==> self.stale(h),
            self.roused(handle) is Some ==> sleepers(self.topped(handle).selects) < sleepers(
                self.selects,
            ),
            self.roused(handle) matches Some(WakeView::Select(next)) ==> self.knows(next),
    {
        let i = handle.0 as int;
        let after = self.topped(handle);
        if !self.stale(handle) {
            let inner = self.selects[i];
            assert(self.sound(i));
            lemma_sleepers(self.selects, i, after.selects[i]);
            assert(after.selects =~= self.selects.update(i, after.selects[i]));
            if self.knows(handle) {
                if inner.closed && inner.wake is Some {
                    assert(!self.free.contains(handle.0)) by {
                        if self.free.contains(handle.0) {
                            let k = choose|k: int|
                                0 <= k < self.free.len() && self.free[k] == handle.0;
                            let _ = self.free[k];
                        }
                    }
                    assert(after.free[self.free.len() as int] == handle.0);
                }
                assert forall|j: int|
                    #![trigger after.selects[j]]
                    0 <= j < after.selects.len() implies after.sound(j) by {
                    assert(self.sound(j));
                    lemma_pushed_has(self.free, handle.0, j as usize);
                }
                assert forall|k: int|
                    #![trigger after.free[k]]
                    0 <= k < after.free.len() implies {
                    &&& after.free[k] < after.selects.len()
                    &&& after.selects[after.free[k] as int].closed
                    &&& after.selects[after.free[k] as int].wake is None
                } by {
                    if k < self.free.len() {
                        let _ = self.free[k];
                    }
                }
            }
        }
    }

    /// The board once `wake` has been carried out, and the thread that is to be
    /// woken.
    pub open spec fn woken(self, wake: WakeView) -> (BoardView, Option<usize>) {
        match wake {
            WakeView::Select(handle) => self.triggered(handle),
            WakeView::Thread(thread) => (self, Some(thread)),
        }
    }

    /// Triggering adds no select and no handle, and leaves no handle without its
    /// select.
    pub proof fn lemma_triggered_keeps(self, handle: HandleView)
        requires
            self.inv(),
            self.knows(handle),
        ensures
            self.triggered(handle).0.inv(),
            self.triggered(handle).0.selects.len() == self.selects.len(),
            self.triggered(handle).0.count == self.count,
            forall|i: int|
                #![trigger self.triggered(handle).0.selects[i]]
                0 <= i < self.selects.len() ==> {
                    &&& self.triggered(handle).0.selects[i].since == self.selects[i].since
                    &&& self.triggered(handle).0.selects[i].closed == self.selects[i].closed
                },
        decreases sleepers(self.selects),
    {
        self.lemma_topped(handle);
        let after = self.topped(handle);
        assert(forall|i: int|
            #![trigger after.selects[i]]
            0 <= i < self.selects.len() ==> after.selects[i].since == self.selects[i].since
                && after.selects[i].closed == self.selects[i].closed);
        if let Some(WakeView::Select(next)) = self.roused(handle) {
            after.lemma_triggered_keeps(next);
        }
    }
}

proof fn lemma_pushed_has(free: Seq<usize>, last: usize, i: usize)
    ensures
        free.contains(i) ==> free.push(last).contains(i),
        free.push(last).contains(last),
{
    assert(free.push(last)[free.len() as int] == last);
    if free.contains(i) {
        let k = choose|k: int| 0 <= k < free.len() && free[k] == i;
        assert(free.push(last)[k] == i);
    }
}

impl Handle {
    /// The number of this handle. No other handle has it.
    pub fn id(&self) -> (id: usize)
        ensures
            id == self@.1,
    {
        self.0.id
    }

    /// Puts this handle on the list of its select and wakes whoever sleeps on
    /// it. If that is a thread, its number is returned: it is to be unparked.
    pub fn trigger(self, board: &mut Switchboard) -> (thread: Option<usize>)
        requires
            old(board)@.inv(),
            old(board)@.knows(self@),
        ensures
            final(board)@.inv(),
            (final(board)@, thread) == old(board)@.triggered(self@),
            // Who sleeps on the select is woken, and the handle is on the list.
            ({
                let i = self@.0 as int;
                let inner = old(board)@.selects[i];
                let after = final(board)@.selects[i];
                self@.1 >= inner.since ==> {
                    &&& after.wake is None
                    &&& !inner.closed ==> after.ready.contains(self@)
                    &&& inner.wake matches Some(WakeView::Thread(sleeper)) ==> thread == Some(
                        sleeper,
                    )
                    &&& inner.wake is None ==> thread is None
                }
            }),
        decreases sleepers(old(board)@.selects), 0int,
    {
        let ghost before = board@;
        let ghost handle = self@;
        proof {
            before.lemma_topped(handle);
            assert(before.sound(handle.0 as int));
            if handle.1 >= before.selects[handle.0 as int].since {
                before.law_triggered_is_listed(handle);
                before.law_no_sleeper_is_lost(handle, handle.0 as int);
            }
        }
        let i: usize = self.0.select;
        if self.0.id < board.inners[i].since {
            return None;
        }
        let wake = if board.inners[i].closed {
            let wake = board.inners[i].wake.take();
            if wake.is_some() {
                board.free.push(i);
            }
            wake
        } else if board.inners[i].head.replace_and_set_next(self.0) {
            board.inners[i].wake.take()
        } else {
            None
        };
        proof {
            assert(board@.selects =~= before.topped(handle).selects);
            assert(board@ == before.topped(handle));
            assert(wake is Some <==> before.roused(handle) is Some);
            assert(wake is Some ==> before.roused(handle) == Some(wake->0@));
        }
        match wake {
            Some(wake) => wake.trigger(board),
            None => None,
        }
    }
}

impl Wake {
    /// A wake-up for the thread that goes by number `thread`.
    pub fn thread(thread: usize) -> (wake: Wake)
        ensures
            wake@ == WakeView::Thread(thread),
    {
        Wake::Thread(thread)
    }

    /// Carries out the wake-up. If it comes to a thread, its number is returned:
    /// it is to be unparked.
    pub fn trigger(self, board: &mut Switchboard) -> (thread: Option<usize>)
        requires
            old(board)@.inv(),
            self@ matches WakeView::Select(handle) ==> old(board)@.knows(handle),
        ensures
            final(board)@.inv(),
            (final(board)@, thread) == old(board)@.woken(self@),
            match self@ {
                WakeView::Thread(sleeper) => {
                    &&& thread == Some(sleeper)
                    &&& final(board)@ == old(board)@
                },
                WakeView::Select(handle) => {
                    let inner = old(board)@.selects[handle.0 as int];
                    let after = final(board)@.selects[handle.0 as int];
                    handle.1 >= inner.since && !inner.closed ==> after.ready.contains(handle)
                },
            },
        decreases sleepers(old(board)@.selects), 1int,
    {
        match self {
            Wake::Select(handle) => handle.trigger(board),
            Wake::Thread(thread) => Some(thread),
        }
    }
}

impl Switchboard {
    /// A board without selects.
    pub fn new() -> (board: Switchboard)
        ensures
            board@ == (BoardView { selects: Seq::empty(), free: Seq::empty(), count: 0 }),
            board@.inv(),
    {
        let board = Switchboard { inners: Vec::new(), free: Vec::new(), count: 0 };
        assert(board@.selects =~= Seq::empty());
        assert(board@.free =~= Seq::empty());
        board
    }
}

impl Select {
    /// The place of this select on its board.
    pub closed spec fn index(&self) -> int {
        self.index as int
    }

    /// The handles that were picked up from the list and not handed out yet.
    pub closed spec fn fetched(&self) -> Seq<HandleView> {
        listed(self.woken)
    }

    /// Whether this select belongs to `board`.
    pub open spec fn stands_in(&self, board: BoardView) -> bool {
        &&& 0 <= self.index() < board.selects.len()
        &&& !board.selects[self.index()].closed
        &&& board.owns(self.index(), self.fetched())
    }

    /// The handles that are handed out next, first to last: those that were
    /// picked up before, or else the list as it is.
    pub open spec fn queue(&self, board: BoardView) -> Seq<HandleView> {
        if self.fetched().len() > 0 {
            self.fetched()
        } else {
            board.selects[self.index()].ready
        }
    }

    /// The board once this select has picked up the list, if it has handed out
    /// everything that it picked up before.
    pub open spec fn fetched_board(&self, board: BoardView) -> BoardView {
        if self.fetched().len() > 0 {
            board
        } else {
            board.with_select(
                self.index(),
                InnerView { ready: Seq::empty(), ..board.selects[self.index()] },
            )
        }
    }

    /// The board once `wake` is to be carried out when there is a handle to hand out.
    pub open spec fn asleep(&self, board: BoardView, wake: WakeView) -> BoardView {
        board.with_select(
            self.index(),
            InnerView {
                ready: Seq::empty(),
                wake: Some(wake),
                ..board.selects[self.index()]
            },
        )
    }

    /// A select that nothing was triggered for. It takes a place that is free, if
    /// there is one.
    pub fn new(board: &mut Switchboard) -> (select: Select)
        requires
            old(board)@.inv(),
        ensures
            final(board)@.inv(),
            ({
                let before = old(board)@;
                let inner = InnerView {
                    ready: Seq::empty(),
                    wake: None,
                    since: before.count,
                    closed: false,
                };
                if before.free.len() > 0 {
                    &&& select.index() == before.free.last()
                    &&& final(board)@ == (BoardView {
                        free: before.free.drop_last(),
                        ..before.with_select(select.index(), inner)
                    })
                } else {
                    &&& select.index() == before.selects.len()
                    &&& final(board)@ == (BoardView {
                        selects: before.selects.push(inner),
                        ..before
                    })
                }
            }),
            select.fetched() == Seq::<HandleView>::empty(),
            select.stands_in(final(board)@),
    {
        let ghost before = board@;
        let inner = Inner { head: Stack::empty(), wake: None, since: board.count, closed: false };
        let ghost view = inner@;
        assert(view.ready =~= Seq::empty());
        let index: usize = match board.free.pop() {
            Some(index) => {
                proof {
                    assert(before.free[before.free.len() - 1] == index);
                }
                board.inners[index] = inner;
                index
            },
            None => {
                board.inners.push(inner);
                board.inners.len() - 1
            },
        };
        proof {
            let after = board@;
            if before.free.len() > 0 {
                assert(after.selects =~= before.selects.update(index as int, view));
                assert(after.free =~= before.free.drop_last());
            } else {
                assert(after.selects =~= before.selects.push(view));
                assert(after.free =~= before.free);
            }
            assert forall|i: int|
                #![trigger after.selects[i]]
                0 <= i < after.selects.len() implies after.sound(i) by {
                if i != index {
                    assert(before.sound(i));
                    if before.selects[i].closed && before.selects[i].wake is None {
                        let k = choose|k: int|
                            0 <= k < before.free.len() && before.free[k] == i as usize;
                        assert(before.free[k] != index);
                        assert(after.free[k] == i as usize);
                    }
                }
            }
            assert forall|k: int|
                #![trigger after.free[k]]
                0 <= k < after.free.len() implies {
                &&& after.free[k] < after.selects.len()
                &&& after.selects[after.free[k] as int].closed
                &&& after.selects[after.free[k] as int].wake is None
            } by {
                let _ = before.free[k];
            }
        }
        Select { index, woken: None }
    }

    /// Goes away, together with what it has not handed out. Whoever sleeps on it is
    /// still woken by its first handle that is triggered. Its place can be used again
    /// when nobody sleeps on it.
    pub fn close(self, board: &mut Switchboard)
        requires
            old(board)@.inv(),
            self.stands_in(old(board)@),
        ensures
            final(board)@.inv(),
            ({
                let before = old(board)@;
                let inner = before.selects[self.index()];
                final(board)@ == (BoardView {
                    free: if inner.wake is None {
                        before.free.push(self.index() as usize)
                    } else {
                        before.free
                    },
                    ..before.with_select(
                        self.index(),
                        InnerView { ready: Seq::empty(), closed: true, ..inner },
                    )
                })
            }),
    {
        let ghost before = board@;
        let i: usize = self.index;
        proof {
            assert(before.sound(i as int));
        }
        board.inners[i].head.take();
        board.inners[i].closed = true;
        if board.inners[i].wake.is_none() {
            board.free.push(i);
        }
        proof {
            let after = board@;
            let inner = InnerView {
                ready: Seq::empty(),
                closed: true,
                ..before.selects[i as int]
            };
            assert(after.selects =~= before.selects.update(i as int, inner));
            assert(!before.free.contains(i)) by {
                if before.free.contains(i) {
                    let k = choose|k: int| 0 <= k < before.free.len() && before.free[k] == i;
                    let _ = before.free[k];
                }
            }
            assert forall|j: int|
                #![trigger after.selects[j]]
                0 <= j < after.selects.len() implies after.sound(j) by {
                assert(before.sound(j));
                lemma_pushed_has(before.free, i, j as usize);
            }
            assert forall|k: int|
                #![trigger after.free[k]]
                0 <= k < after.free.len() implies {
                &&& after.free[k] < after.selects.len()
                &&& after.selects[after.free[k] as int].closed
                &&& after.selects[after.free[k] as int].wake is None
            } by {
                if k < before.free.len() {
                    let _ = before.free[k];
                }
            }
        }
    }

    /// A new handle of this select.
    pub fn handle(&self, board: &mut Switchboard) -> (handle: Handle)
        requires
            old(board)@.inv(),
            self.stands_in(old(board)@),
            old(board)@.count < usize::MAX,
        ensures
            final(board)@.inv(),
            final(board)@ == (BoardView { count: old(board)@.count + 1, ..old(board)@ }),
            handle@.0 == self.index(),
            handle@.1 == old(board)@.count,
            !final(board)@.stale(handle@),
            final(board)@.knows(handle@),
            self.stands_in(final(board)@),
    {
        let id: usize = board.count;
        board.count = id + 1;
        proof {
            let before = old(board)@;
            assert(board@.selects =~= before.selects);
            assert(before.sound(self.index()));
            assert forall|i: int|
                #![trigger board@.selects[i]]
                0 <= i < board@.selects.len() implies board@.sound(i) by {
                assert(before.sound(i));
            }
        }
        Handle(Box::new(Listener { next: None, select: self.index, id }))
    }

    /// Picks up the list if everything that was picked up before has been handed
    /// out, and tells whether there is something to hand out.
    pub fn fetch_head(&mut self, board: &mut Switchboard) -> (some: bool)
        requires
            old(board)@.inv(),
            old(self).stands_in(old(board)@),
        ensures
            final(board)@.inv(),
            final(self).stands_in(final(board)@),
            final(self).index() == old(self).index(),
            final(self).fetched() == old(self).queue(old(board)@),
            final(board)@ == old(self).fetched_board(old(board)@),
            some == (final(self).fetched().len() > 0),
            some == (outstanding(old(board)@, *old(self)).len() > 0),
            outstanding(final(board)@, *final(self)) == outstanding(old(board)@, *old(self)),
            does(old(board)@, *old(self), Deed::Fetch, final(board)@, *final(self)),
    {
        let ghost before = board@;
        if self.woken.is_some() {
            assert(self.fetched().len() > 0);
            assert(does(before, *self, Deed::Fetch, board@, *self));
            return true;
        }
        proof {
            assert(before.sound(self.index()));
        }
        self.woken = board.inners[self.index].head.take();
        proof {
            let i = self.index as int;
            let inner = InnerView { ready: Seq::empty(), ..before.selects[i] };
            assert(board@.selects =~= before.selects.update(i, inner));
            assert forall|j: int|
                #![trigger board@.selects[j]]
                0 <= j < board@.selects.len() implies board@.sound(j) by {
                assert(before.sound(j));
            }
            lemma_same_free(before, board@);
            assert(outstanding(board@, *self) =~= outstanding(before, *old(self)));
            assert(does(before, *old(self), Deed::Fetch, board@, *self));
        }
        self.woken.is_some()
    }

    /// Has `wake` carried out as soon as there is a handle to hand out. If there
    /// is one already this happens at once; if it comes to a thread then, its
    /// number is returned: it is to be unparked.
    pub fn on_ready(&mut self, board: &mut Switchboard, wake: Wake) -> (thread: Option<usize>)
        requires
            old(board)@.inv(),
            old(self).stands_in(old(board)@),
            wake@ matches WakeView::Select(handle) ==> old(board)@.knows(handle),
        ensures
            final(board)@.inv(),
            final(self).stands_in(final(board)@),
            final(self).index() == old(self).index(),
            final(self).fetched() == old(self).queue(old(board)@),
            old(self).queue(old(board)@).len() > 0 ==> (final(board)@, thread) == old(
                self,
            ).fetched_board(old(board)@).woken(wake@),
            old(self).queue(old(board)@).len() == 0 ==> {
                &&& thread is None
                &&& final(board)@ == old(self).asleep(old(board)@, wake@)
            },
            does(old(board)@, *old(self), Deed::Sleep(wake@), final(board)@, *final(self)),
            // If there is something to hand out, the wake-up is carried out at once.
            outstanding(old(board)@, *old(self)).len() > 0 ==> match wake@ {
                WakeView::Thread(sleeper) => thread == Some(sleeper),
                WakeView::Select(handle) => {
                    let inner = old(board)@.selects[handle.0 as int];
                    let after = final(board)@.selects[handle.0 as int];
                    handle.1 >= inner.since && !inner.closed ==> after.ready.contains(handle)
                },
            },
            // If not, whoever was registered last is who sleeps on the select.
            outstanding(old(board)@, *old(self)).len() == 0 ==> {
                &&& thread is None
                &&& final(board)@.selects[old(self).index()].wake == Some(wake@)
            },
    {
        let ghost before = board@;
        if self.fetch_head(board) {
            proof {
                if let WakeView::Select(handle) = wake@ {
                    board@.lemma_triggered_keeps(handle);
                    let _ = board@.triggered(handle).0.selects[self.index()];
                }
            }
            wake.trigger(board)
        } else {
            let ghost fetched = board@;
            board.inners[self.index].wake = Some(wake);
            proof {
                let i = self.index as int;
                let inner = InnerView {
                    ready: Seq::empty(),
                    wake: Some(wake@),
                    ..before.selects[i]
                };
                assert(self.fetched() =~= Seq::empty());
                assert(fetched.selects[i].ready =~= Seq::empty());
                assert(board.inners@[i]@ == inner);
                assert(board@.selects =~= fetched.selects.update(i, inner));
                assert(board@.selects =~= before.selects.update(i, inner));
                assert forall|j: int|
                    #![trigger board@.selects[j]]
                    0 <= j < board@.selects.len() implies board@.sound(j) by {
                    assert(fetched.sound(j));
                }
                lemma_same_free(fetched, board@);
            }
            None
        }
    }

    /// The next handle that was triggered, if there is one.
    pub fn ready(&mut self, board: &mut Switchboard) -> (handle: Option<Handle>)
        requires
            old(board)@.inv(),
            old(self).stands_in(old(board)@),
        ensures
            final(board)@.inv(),
            final(self).stands_in(final(board)@),
            final(self).index() == old(self).index(),
            final(board)@ == old(self).fetched_board(old(board)@),
            match handle {
                Some(handle) => {
                    &&& old(self).queue(old(board)@).len() > 0
                    &&& handle@ == old(self).queue(old(board)@)[0]
                    &&& final(self).fetched() == old(self).queue(old(board)@).skip(1)
                },
                None => {
                    &&& old(self).queue(old(board)@).len() == 0
                    &&& final(self).fetched() == Seq::<HandleView>::empty()
                },
            },
            // The first of what is outstanding is handed out, and the rest stays.
            match handle {
                Some(handle) => {
                    &&& outstanding(old(board)@, *old(self)) == seq![handle@] + outstanding(
                        final(board)@,
                        *final(self),
                    )
                    &&& final(board)@.knows(handle@)
                },
                None => {
                    &&& old(self).fetched().len() == 0
                    &&& old(board)@.selects[old(self).index()].ready.len() == 0
                    &&& outstanding(final(board)@, *final(self)).len() == 0
                },
            },
            does(
                old(board)@,
                *old(self),
                Deed::Ready(shown(handle)),
                final(board)@,
                *final(self),
            ),
    {
        self.fetch_head(board);
        let ghost queue = self.fetched();
        let ghost list = board@.selects[self.index()].ready;
        match self.woken.take() {
            Some(mut listener) => {
                self.woken = listener.next.take();
                assert(self.fetched() =~= queue.skip(1));
                assert(queue + list =~= seq![queue[0]] + (queue.skip(1) + list));
                Some(Handle(listener))
            },
            None => None,
        }
    }

    /// The next handle that was triggered. If there is none, the thread that
    /// goes by number `thread` is registered to be woken: it parks, and then
    /// asks for what is `ready`.
    pub fn next(&mut self, board: &mut Switchboard, thread: usize) -> (handle: Option<Handle>)
        requires
            old(board)@.inv(),
            old(self).stands_in(old(board)@),
        ensures
            final(board)@.inv(),
            final(self).stands_in(final(board)@),
            final(self).index() == old(self).index(),
            match handle {
                Some(handle) => {
                    &&& old(self).queue(old(board)@).len() > 0
                    &&& handle@ == old(self).queue(old(board)@)[0]
                    &&& final(self).fetched() == old(self).queue(old(board)@).skip(1)
                    &&& final(board)@ == old(self).fetched_board(old(board)@)
                },
                None => {
                    &&& old(self).queue(old(board)@).len() == 0
                    &&& final(self).fetched() == Seq::<HandleView>::empty()
                    &&& final(board)@ == old(self).asleep(
                        old(board)@,
                        WakeView::Thread(thread),
                    )
                },
            },
            // The first of what is outstanding is handed out, and the rest stays. If
            // there is nothing, the thread is who sleeps on the select.
            match handle {
                Some(handle) => {
                    &&& outstanding(old(board)@, *old(self)) == seq![handle@] + outstanding(
                        final(board)@,
                        *final(self),
                    )
                    &&& final(board)@.knows(handle@)
                },
                None => {
                    &&& old(self).fetched().len() == 0
                    &&& old(board)@.selects[old(self).index()].ready.len() == 0
                    &&& final(board)@.selects[old(self).index()].wake == Some(
                        WakeView::Thread(thread),
                    )
                },
            },
            does(
                old(board)@,
                *old(self),
                match handle {
                    Some(handle) => Deed::Ready(Some(handle@)),
                    None => Deed::Sleep(WakeView::Thread(thread)),
                },
                final(board)@,
                *final(self),
            ),
    {
        let ghost before = board@;
        if let Some(handle) = self.ready(board) {
            return Some(handle);
        }
        let ghost fetched = board@;
        self.on_ready(board, Wake::thread(thread));
        proof {
            let i = self.index as int;
            assert(fetched.selects[i].ready =~= Seq::empty());
            assert(board@.selects =~= old(self).asleep(before, WakeView::Thread(thread)).selects);
            assert(self.fetched() =~= old(self).queue(before));
        }
        None
    }
}

impl Select {
    /// Picking up the list keeps what every operation keeps.
    proof fn lemma_fetched(&self, board: BoardView)
        requires
            board.inv(),
            self.stands_in(board),
        ensures
            self.fetched_board(board).inv(),
            forall|h: HandleView| board.knows(h) ==> self.fetched_board(board).knows(h),
    {
        let after = self.fetched_board(board);
        if self.fetched().len() == 0 {
            assert forall|j: int|
                #![trigger after.selects[j]]
                0 <= j < after.selects.len() implies after.sound(j) by {
                assert(board.sound(j));
            }
            lemma_same_free(board, after);
        }
    }
}

proof fn lemma_same_free(before: BoardView, after: BoardView)
    requires
        before.inv(),
        after.free == before.free,
        after.selects.len() == before.selects.len(),
        forall|i: int|
            #![trigger after.selects[i]]
            0 <= i < after.selects.len() ==> after.sound(i),
        forall|i: int|
            #![trigger after.selects[i]]
            0 <= i < after.selects.len() && before.selects[i].closed ==> after.selects[i].closed
                && after.selects[i].wake == before.selects[i].wake,
    ensures
        after.inv(),
{
    assert forall|k: int|
        #![trigger after.free[k]]
        0 <= k < after.free.len() implies {
        &&& after.free[k] < after.selects.len()
        &&& after.selects[after.free[k] as int].closed
        &&& after.selects[after.free[k] as int].wake is None
    } by {
        let _ = before.free[k];
    }
}

impl BoardView {
    /// A handle that is triggered is on the list of its select afterwards, unless the
    /// select is closed, and nobody sleeps on that list any more.
    pub proof fn law_triggered_is_listed(self, handle: HandleView)
        requires
            self.inv(),
            self.knows(handle),
            !self.stale(handle),
        ensures
            self.triggered(handle).0.selects[handle.0 as int].wake is None,
            !self.selects[handle.0 as int].closed ==> self.triggered(
                handle,
            ).0.selects[handle.0 as int].ready.contains(handle),
    {
        let i = handle.0 as int;
        let ready = seq![handle] + self.selects[i].ready;
        let after = self.topped(handle);
        assert(self.sound(i));
        self.lemma_topped(handle);
        assert(ready[0] == handle);
        if let Some(WakeView::Select(next)) = self.roused(handle) {
            after.law_lists_only_grow(next, i);
            let grown = after.triggered(next).0.selects[i].ready;
            let below = grown.len() - after.selects[i].ready.len();
            if !self.selects[i].closed {
                assert(grown[below] == grown.skip(below)[0]);
            }
        }
    }

    /// Nobody who sleeps is lost. Whoever slept on select `i` before a trigger sleeps on
    /// it still, or has been woken: a thread is the one that is to be unparked, and a
    /// handle of another select is on the list of that select, unless it is closed. On
    /// the select of the handle nobody sleeps any more.
    pub proof fn law_no_sleeper_is_lost(self, handle: HandleView, i: int)
        requires
            self.inv(),
            handle.0 < self.selects.len(),
            handle.1 < self.count,
            0 <= i < self.selects.len(),
        ensures
            ({
                let (after, thread) = self.triggered(handle);
                let live = handle.1 >= self.selects[handle.0 as int].since;
                &&& i == handle.0 && live ==> after.selects[i].wake is None
                &&& i == handle.0 && live && self.selects[i].wake is None ==> thread is None
                &&& !live ==> after == self && thread is None
                &&& after.selects[i].wake == self.selects[i].wake || {
                    &&& after.selects[i].wake is None
                    &&& match self.selects[i].wake {
                        Some(WakeView::Thread(sleeper)) => thread == Some(sleeper),
                        Some(WakeView::Select(next)) => {
                            let other = self.selects[next.0 as int];
                            next.1 >= other.since && !other.closed
                                ==> after.selects[next.0 as int].ready.contains(next)
                        },
                        None => true,
                    }
                }
            }),
        decreases sleepers(self.selects),
    {
        let j = handle.0 as int;
        let mid = self.topped(handle);
        self.lemma_topped(handle);
        assert(self.sound(j));
        assert(self.sound(i));
        if handle.1 >= self.selects[j].since {
            self.law_triggered_is_listed(handle);
            if let Some(WakeView::Select(next)) = self.roused(handle) {
                mid.law_no_sleeper_is_lost(next, i);
                if i == j {
                    if next.1 >= self.selects[next.0 as int].since {
                        mid.law_triggered_is_listed(next);
                    }
                }
            }
        }
    }

    /// Who is woken has slept: if a trigger comes to a thread, that thread was
    /// registered on some select, and is not any more.
    pub proof fn law_who_is_woken_slept(self, handle: HandleView) -> (i: int)
        requires
            self.inv(),
            handle.0 < self.selects.len(),
            handle.1 < self.count,
        ensures
            self.triggered(handle).1 matches Some(thread) ==> {
                &&& 0 <= i < self.selects.len()
                &&& self.selects[i].wake == Some(WakeView::Thread(thread))
                &&& self.triggered(handle).0.selects[i].wake is None
            },
        decreases sleepers(self.selects),
    {
        let j = handle.0 as int;
        let mid = self.topped(handle);
        self.lemma_topped(handle);
        assert(self.sound(j));
        if let Some(WakeView::Select(next)) = self.roused(handle) {
            mid.law_who_is_woken_slept(next)
        } else {
            j
        }
    }

    /// A wake-up runs through a line of selects. Take handles of different selects, each
    /// but the first of which is what sleeps on the select before it. Triggering the
    /// first puts every one of them, such as the one at `k`, on top of the list of its
    /// select, if that is open, and nobody sleeps there any more. What sleeps on the last
    /// select decides how it ends: a thread is the one that is to be unparked, a handle
    /// whose select is gone does nothing, and one of a select in the line is put on top of
    /// the list there. Nothing happens to any other select, such as the one at `i`.
    pub proof fn law_wake_ups_run_through(self, line: Seq<HandleView>, k: int, i: int)
        requires
            self.inv(),
            0 <= k < line.len(),
            0 <= i < self.selects.len(),
            forall|m: int|
                #![trigger line[m]]
                0 <= m < line.len() ==> {
                    &&& line[m].0 < self.selects.len()
                    &&& line[m].1 < self.count
                    &&& line[m].1 >= self.selects[line[m].0 as int].since
                },
            forall|m: int, n: int|
                #![trigger line[m], line[n]]
                0 <= m < n < line.len() ==> line[m].0 != line[n].0,
            forall|m: int|
                #![trigger line[m]]
                0 < m < line.len() ==> self.selects[line[m - 1].0 as int].wake == Some(
                    WakeView::Select(line[m]),
                ),
            self.selects[line.last().0 as int].wake matches Some(WakeView::Select(next)) ==> {
                ||| next.1 < self.selects[next.0 as int].since
                ||| exists|m: int| 0 <= m < line.len() && (#[trigger] line[m]).0 == next.0
            },
        ensures
            ({
                let (after, thread) = self.triggered(line[0]);
                let end = self.selects[line.last().0 as int].wake;
                let at = line[k].0 as int;
                let inner = self.selects[at];
                let again = match end {
                    Some(WakeView::Select(next)) => if next.0 == at && next.1 >= inner.since {
                        seq![next]
                    } else {
                        Seq::empty()
                    },
                    _ => Seq::empty(),
                };
                &&& thread == match end {
                    Some(WakeView::Thread(sleeper)) => Some(sleeper),
                    _ => None,
                }
                &&& after.selects[at].wake is None
                &&& after.selects[at].since == inner.since
                &&& after.selects[at].closed == inner.closed
                &&& inner.closed ==> after.selects[at].ready.len() == 0
                &&& !inner.closed ==> after.selects[at].ready == again + seq![line[k]] + inner.ready
                &&& (forall|m: int| 0 <= m < line.len() ==> (#[trigger] line[m]).0 != i)
                    ==> after.selects[i] == self.selects[i]
                &&& after.selects.len() == self.selects.len()
                &&& after.count == self.count
            }),
        decreases sleepers(self.selects),
    {
        let first = line[0];
        let j = first.0 as int;
        let mid = self.topped(first);
        let last = line.last();
        let end = self.selects[last.0 as int].wake;
        self.lemma_topped(first);
        assert(self.sound(j));
        assert(self.sound(last.0 as int));
        assert(line[line.len() - 1] == last);
        let rest = line.skip(1);
        let back = match end {
            Some(WakeView::Select(next)) => next.0 == j && next.1 >= self.selects[j].since,
            _ => false,
        };
        let tail = if back {
            rest.push(end->0->Select_0)
        } else {
            rest
        };
        let none = Seq::<HandleView>::empty();
        let one = seq![line[k]];
        assert(none + one =~= one);
        if tail.len() > 0 {
            if line.len() > 1 {
                assert(tail[0] == line[1]);
            }
            assert(self.selects[j].wake == Some(WakeView::Select(tail[0])));
            assert(self.roused(first) == Some(WakeView::Select(tail[0])));
            assert forall|m: int| #![trigger tail[m]] 0 <= m < tail.len() implies {
                &&& tail[m].0 < mid.selects.len()
                &&& tail[m].1 < mid.count
                &&& tail[m].1 >= mid.selects[tail[m].0 as int].since
                &&& m > 0 ==> mid.selects[tail[m - 1].0 as int].wake == Some(
                    WakeView::Select(tail[m]),
                )
                &&& m < rest.len() ==> tail[m] == line[m + 1]
            } by {
                if m < rest.len() {
                    assert(tail[m] == line[m + 1]);
                }
                if m > 0 {
                    assert(tail[m - 1] == line[m]);
                }
            }
            assert forall|m: int, n: int|
                #![trigger tail[m], tail[n]]
                0 <= m < n < tail.len() implies tail[m].0 != tail[n].0 by {
                assert(tail[m] == line[m + 1]);
                if n < rest.len() {
                    assert(tail[n] == line[n + 1]);
                }
            }
            assert(tail.last() == if back {
                end->0->Select_0
            } else {
                last
            });
            if !back {
                if let Some(WakeView::Select(next)) = end {
                    if next.1 >= self.selects[next.0 as int].since {
                        let m = choose|m: int|
                            0 <= m < line.len() && (#[trigger] line[m]).0 == next.0;
                        assert(tail[m - 1] == line[m]);
                    }
                }
            }
            if k > 0 {
                assert(tail[k - 1] == line[k]);
                mid.law_wake_ups_run_through(tail, k - 1, i);
            } else if back {
                mid.law_wake_ups_run_through(tail, rest.len() as int, i);
            } else {
                mid.law_wake_ups_run_through(tail, 0, j);
                mid.law_wake_ups_run_through(tail, 0, i);
            }
        } else if let Some(WakeView::Select(next)) = end {
            assert(mid.triggered(next) == (mid, None::<usize>));
        }
    }

    /// Triggering takes nothing off any list: what was there stays below what is
    /// put on top. Nobody is put to sleep by it.
    pub proof fn law_lists_only_grow(self, handle: HandleView, i: int)
        requires
            self.inv(),
            self.knows(handle),
            0 <= i < self.selects.len(),
        ensures
            ({
                let before = self.selects[i].ready;
                let after = self.triggered(handle).0.selects[i].ready;
                &&& after.len() >= before.len()
                &&& after.skip(after.len() - before.len()) == before
            }),
            self.selects[i].wake is None ==> self.triggered(handle).0.selects[i].wake is None,
        decreases sleepers(self.selects),
    {
        let before = self.selects[i].ready;
        let after = self.topped(handle);
        let middle = after.selects[i].ready;
        self.lemma_topped(handle);
        assert(before.skip(0) =~= before);
        assert(middle.skip(middle.len() - before.len()) =~= before);
        if let Some(WakeView::Select(next)) = self.roused(handle) {
            after.law_lists_only_grow(next, i);
            let end = after.triggered(next).0.selects[i].ready;
            assert(end.skip(end.len() - before.len()) =~= end.skip(
                end.len() - middle.len(),
            ).skip(middle.len() - before.len()));
        }
    }

    /// The number that the next handle gets is on no list.
    pub proof fn law_new_handles_are_new(self, i: int, k: int)
        requires
            self.inv(),
            0 <= i < self.selects.len(),
            0 <= k < self.selects[i].ready.len(),
        ensures
            self.selects[i].ready[k].1 != self.count,
    {
        assert(self.sound(i));
        assert(self.owns(i, self.selects[i].ready));
    }
}

impl BoardView {
    /// Carrying out a wake-up for a thread comes to that thread and to nothing else. One
    /// for a handle is the same as triggering the handle: it is on the list of its
    /// select afterwards, if that is open, whether or not somebody sleeps there.
    pub proof fn law_wake_ups_are_carried_out(self, wake: WakeView)
        requires
            self.inv(),
            wake matches WakeView::Select(handle) ==> handle.0 < self.selects.len() && handle.1
                < self.count,
        ensures
            match wake {
                WakeView::Thread(thread) => self.woken(wake) == (self, Some(thread)),
                WakeView::Select(handle) => {
                    let i = handle.0 as int;
                    &&& self.woken(wake) == self.triggered(handle)
                    &&& handle.1 >= self.selects[i].since && !self.selects[i].closed ==> self.woken(
                        wake,
                    ).0.selects[i].ready.contains(handle)
                },
            },
    {
        if let WakeView::Select(handle) = wake {
            if handle.1 >= self.selects[handle.0 as int].since {
                self.law_triggered_is_listed(handle);
            }
        }
    }

    /// A handle is known if it has the number of one that was given out, and is stale if
    /// it has a number from before its select was made.
    pub proof fn law_who_is_known(self, handle: HandleView)
        requires
            handle.0 < self.selects.len(),
        ensures
            self.knows(handle) <==> handle.1 < self.count,
            self.stale(handle) <==> handle.1 < self.selects[handle.0 as int].since,
    {
    }
}

impl Select {
    /// What a select has to hand out is what is outstanding, in order: what it picks up,
    /// followed by what it leaves on its list. It picks up nothing only if nothing is
    /// outstanding, leaves nothing on its list if it had picked up nothing before, and
    /// does nothing if it had. Nothing else on the board changes.
    pub proof fn law_nothing_is_held_back(&self, board: BoardView)
        requires
            0 <= self.index() < board.selects.len(),
        ensures
            ({
                let i = self.index();
                let list = board.selects[i].ready;
                let queue = self.queue(board);
                let after = self.fetched_board(board);
                &&& queue + after.selects[i].ready == self.fetched() + list
                &&& queue.len() == 0 ==> self.fetched().len() == 0 && list.len() == 0
                &&& self.fetched().len() == 0 ==> after.selects[i].ready.len() == 0
                &&& self.fetched().len() > 0 ==> after == board
                &&& after.selects[i].wake == board.selects[i].wake
                &&& after.selects[i].since == board.selects[i].since
                &&& after.selects[i].closed == board.selects[i].closed
                &&& after.selects.len() == board.selects.len()
                &&& forall|j: int|
                    #![trigger after.selects[j]]
                    0 <= j < board.selects.len() && j != i ==> after.selects[j] == board.selects[j]
                &&& after.free == board.free
                &&& after.count == board.count
            }),
    {
        let list = board.selects[self.index()].ready;
        let none = Seq::<HandleView>::empty();
        assert(list + none =~= list);
        assert(none + list =~= list);
        assert(self.fetched().len() == 0 ==> self.fetched() =~= none);
    }

    /// Who was registered last is who sleeps on a select, whoever was there before.
    /// Nothing else on the board changes, and the first of its handles that is triggered
    /// wakes that sleeper: a thread is the one that is to be unparked, and a handle of
    /// another select is on the list there, if that is open.
    pub proof fn law_latest_sleeper_is_woken(
        &self,
        board: BoardView,
        wake: WakeView,
        handle: HandleView,
    )
        requires
            board.inv(),
            self.stands_in(board),
            board.selects[self.index()].ready.len() == 0,
            wake matches WakeView::Select(next) ==> next.0 < board.selects.len() && next.1
                < board.count,
            handle.0 == self.index(),
            board.selects[self.index()].since <= handle.1 < board.count,
        ensures
            ({
                let i = self.index();
                let after = self.asleep(board, wake);
                &&& after.inv()
                &&& after.selects[i].wake == Some(wake)
                &&& after.selects[i].ready.len() == 0
                &&& after.selects[i].since == board.selects[i].since
                &&& after.selects[i].closed == board.selects[i].closed
                &&& after.selects.len() == board.selects.len()
                &&& forall|j: int|
                    #![trigger after.selects[j]]
                    0 <= j < board.selects.len() && j != i ==> after.selects[j] == board.selects[j]
                &&& after.free == board.free
                &&& after.count == board.count
                &&& match wake {
                    WakeView::Thread(thread) => after.triggered(handle).1 == Some(thread),
                    WakeView::Select(next) => {
                        let other = board.selects[next.0 as int];
                        next.1 >= other.since && !other.closed ==> after.triggered(
                            handle,
                        ).0.selects[next.0 as int].ready.contains(next)
                    },
                }
            }),
    {
        let i = self.index();
        let after = self.asleep(board, wake);
        assert forall|j: int|
            #![trigger after.selects[j]]
            0 <= j < after.selects.len() implies after.sound(j) by {
            assert(board.sound(j));
        }
        lemma_same_free(board, after);
        after.law_no_sleeper_is_lost(handle, i);
    }
}

/// What a deed does, told by what there is to see before and after it. A trigger and a
/// wake-up put their handle on the list of its select, if that is open. A request for
/// what is ready hands out the first of what is outstanding and leaves the rest, and
/// hands out nothing only if nothing is outstanding. A select that is told whom to wake
/// has that carried out at once if something is outstanding, and else remembers this
/// one, whoever it was before.
pub proof fn law_deeds_are_done(b: BoardView, s: Select, deed: Deed, c: BoardView, t: Select)
    requires
        does(b, s, deed, c, t),
    ensures
        ({
            let i = s.index();
            let before = s.fetched() + b.selects[i].ready;
            let after = t.fetched() + c.selects[i].ready;
            let lists = |handle: HandleView|
                b.selects[handle.0 as int].since <= handle.1
                    && !b.selects[handle.0 as int].closed
                    ==> c.selects[handle.0 as int].ready.contains(handle);
            match deed {
                Deed::Trigger(handle) | Deed::Wake(WakeView::Select(handle)) => lists(handle),
                Deed::Wake(WakeView::Thread(_)) => c == b,
                Deed::Fetch => after == before && (t.fetched().len() == 0 ==> before.len() == 0),
                Deed::Ready(Some(handle)) => before == seq![handle] + after,
                Deed::Ready(None) => before.len() == 0 && after.len() == 0,
                Deed::Sleep(wake) => {
                    &&& t.fetched().len() == 0 <==> before.len() == 0
                    &&& before.len() == 0 ==> c.selects[i].wake == Some(wake)
                    &&& before.len() > 0 ==> match wake {
                        WakeView::Select(handle) => lists(handle),
                        WakeView::Thread(_) => c.selects[i].wake == b.selects[i].wake,
                    }
                },
                Deed::Elsewhere => after == before,
            }
        }),
        forall|handle: HandleView|
            handle.0 < b.selects.len() && handle.1 < b.count ==> deed is Elsewhere || c.knows(
                handle,
            ),
{
    let i = s.index();
    let before = s.fetched() + b.selects[i].ready;
    let after = t.fetched() + c.selects[i].ready;
    let middle = s.fetched_board(b);
    s.law_nothing_is_held_back(b);
    s.lemma_fetched(b);
    match deed {
        Deed::Trigger(handle) | Deed::Wake(WakeView::Select(handle)) => {
            b.lemma_triggered_keeps(handle);
            b.law_wake_ups_are_carried_out(WakeView::Select(handle));
        },
        Deed::Sleep(WakeView::Select(handle)) => {
            if s.queue(b).len() > 0 {
                middle.lemma_triggered_keeps(handle);
                middle.law_wake_ups_are_carried_out(WakeView::Select(handle));
            }
        },
        Deed::Ready(Some(handle)) => {
            let queue = s.queue(b);
            assert(queue =~= seq![handle] + queue.skip(1));
            assert(before =~= seq![handle] + after);
        },
        _ => {},
    }
}

/// Those of `list` that belong to select `i`.
pub open spec fn belonging(list: Seq<HandleView>, i: int) -> Seq<HandleView> {
    list.filter(|handle: HandleView| handle.0 == i)
}

/// What there is to see of a handle, if there is one.
pub open spec fn shown(handle: Option<Handle>) -> Option<HandleView> {
    match handle {
        Some(handle) => Some(handle@),
        None => None,
    }
}

/// What happens to a select.
pub enum Deed {
    /// A handle is triggered, its own or another.
    Trigger(HandleView),
    /// A wake-up is carried out.
    Wake(WakeView),
    /// It picks up its list.
    Fetch,
    /// It is asked for what is ready, and hands out a handle or has none.
    Ready(Option<HandleView>),
    /// It is told whom to wake, which happens at once if there is something to hand
    /// out.
    Sleep(WakeView),
    /// Something that does not concern it.
    Elsewhere,
}

/// What `deed` makes of the board and of a select, which is `s` before it and `t`
/// after it.
pub open spec fn does(b: BoardView, s: Select, deed: Deed, c: BoardView, t: Select) -> bool {
    &&& b.inv()
    &&& s.stands_in(b)
    &&& t.stands_in(c)
    &&& t.index() == s.index()
    &&& match deed {
        Deed::Trigger(handle) => {
            &&& b.knows(handle)
            &&& c == b.triggered(handle).0
            &&& t == s
        },
        Deed::Wake(wake) => {
            &&& wake matches WakeView::Select(handle) ==> b.knows(handle)
            &&& c == b.woken(wake).0
            &&& t == s
        },
        Deed::Fetch => c == s.fetched_board(b) && t.fetched() == s.queue(b),
        Deed::Ready(Some(handle)) => {
            &&& s.queue(b).len() > 0
            &&& handle == s.queue(b)[0]
            &&& c == s.fetched_board(b)
            &&& t.fetched() == s.queue(b).skip(1)
        },
        Deed::Ready(None) => {
            &&& s.queue(b).len() == 0
            &&& c == s.fetched_board(b)
            &&& t.fetched() == Seq::<HandleView>::empty()
        },
        Deed::Sleep(wake) => {
            &&& wake matches WakeView::Select(handle) ==> b.knows(handle)
            &&& t.fetched() == s.queue(b)
            &&& if s.queue(b).len() > 0 {
                c == s.fetched_board(b).woken(wake).0
            } else {
                c == s.asleep(b, wake)
            }
        },
        Deed::Elsewhere => c.selects[s.index()] == b.selects[s.index()] && t == s,
    }
}

/// The handles of a select that were triggered and not handed out.
pub open spec fn outstanding(board: BoardView, select: Select) -> Seq<HandleView> {
    select.fetched() + board.selects[select.index()].ready
}

/// The handles that were handed out by the first `n` deeds, in order.
pub open spec fn returned(deeds: Seq<Deed>, n: int) -> Seq<HandleView>
    decreases n,
{
    if n <= 0 {
        Seq::empty()
    } else {
        match deeds[n - 1] {
            Deed::Ready(Some(handle)) => returned(deeds, n - 1).push(handle),
            _ => returned(deeds, n - 1),
        }
    }
}

/// The handles of select `i` that the first `n` deeds have triggered, in order: by
/// name, by a wake-up, or because they were to be triggered when another was. The
/// deeds are those of the select `selects`.
pub open spec fn triggers(
    boards: Seq<BoardView>,
    selects: Seq<Select>,
    deeds: Seq<Deed>,
    i: int,
    n: int,
) -> Seq<HandleView>
    decreases n,
{
    if n <= 0 {
        Seq::empty()
    } else {
        let before = triggers(boards, selects, deeds, i, n - 1);
        let b = boards[n - 1];
        let s = selects[n - 1];
        match deeds[n - 1] {
            Deed::Trigger(handle) => before + belonging(b.listing(handle), i),
            Deed::Wake(WakeView::Select(handle)) => before + belonging(b.listing(handle), i),
            Deed::Sleep(WakeView::Select(handle)) => if outstanding(b, s).len() > 0 {
                before + belonging(s.fetched_board(b).listing(handle), i)
            } else {
                before
            },
            _ => before,
        }
    }
}

proof fn lemma_bag(a: Seq<HandleView>, b: Seq<HandleView>)
    ensures
        (a + b).to_multiset() == a.to_multiset().add(b.to_multiset()),
{
    vstd::seq_lib::lemma_multiset_commutative(a, b);
}

proof fn lemma_belonging_one(handle: HandleView, i: int)
    ensures
        belonging(seq![handle], i) == (if handle.0 == i {
            seq![handle]
        } else {
            Seq::empty()
        }),
        belonging(Seq::empty(), i) == Seq::<HandleView>::empty(),
{
    reveal(Seq::filter);
    let one = seq![handle];
    assert(one.drop_last() =~= Seq::empty());
    assert(belonging(Seq::empty(), i) =~= Seq::empty());
    assert(belonging(one.drop_last(), i) =~= Seq::empty());
    assert(belonging(one, i) =~= (if handle.0 == i {
        seq![handle]
    } else {
        Seq::empty()
    }));
}

/// What triggering a handle adds to the list of select `i`.
proof fn lemma_listing(board: BoardView, handle: HandleView, i: int)
    requires
        board.inv(),
        board.knows(handle),
        0 <= i < board.selects.len(),
    ensures
        ({
            let before = board.selects[i].ready.to_multiset();
            let after = board.triggered(handle).0.selects[i].ready.to_multiset();
            after == before.add(belonging(board.listing(handle), i).to_multiset())
        }),
    decreases sleepers(board.selects),
{
    board.lemma_topped(handle);
    let after = board.topped(handle);
    let own = if board.stale(handle) || board.selects[handle.0 as int].closed {
        Seq::empty()
    } else {
        seq![handle]
    };
    let ready = board.selects[i].ready;
    lemma_belonging_one(handle, i);
    lemma_bag(own, ready);
    assert(Seq::<HandleView>::empty() + ready =~= ready);
    assert(after.selects[i].ready == belonging(own, i) + ready);
    lemma_bag(belonging(own, i), ready);
    let first = belonging(own, i).to_multiset();
    if let Some(WakeView::Select(next)) = board.roused(handle) {
        lemma_listing(after, next, i);
        let rest = after.listing(next);
        Seq::filter_distributes_over_add(own, rest, |h: HandleView| h.0 == i);
        assert(belonging(own + rest, i) == belonging(own, i) + belonging(rest, i));
        lemma_bag(belonging(own, i), belonging(rest, i));
        let second = belonging(rest, i).to_multiset();
        assert(first.add(ready.to_multiset()).add(second) =~= ready.to_multiset().add(
            first.add(second),
        ));
    } else {
        assert(first.add(ready.to_multiset()) =~= ready.to_multiset().add(first));
    }
}

/// Each trigger comes back from exactly one later request for what is ready. Over any
/// number of deeds, the handles that were handed out and those that are outstanding
/// are, one for one, those that were outstanding at first and those that were
/// triggered since.
pub proof fn law_triggers_come_back(
    boards: Seq<BoardView>,
    selects: Seq<Select>,
    deeds: Seq<Deed>,
    n: int,
)
    requires
        boards.len() == deeds.len() + 1,
        selects.len() == deeds.len() + 1,
        forall|k: int|
            #![trigger deeds[k]]
            0 <= k < deeds.len() ==> does(
                boards[k],
                selects[k],
                deeds[k],
                boards[k + 1],
                selects[k + 1],
            ),
        0 <= n <= deeds.len(),
    ensures
        selects[n].index() == selects[0].index(),
        returned(deeds, n).to_multiset().add(outstanding(boards[n], selects[n]).to_multiset())
            == outstanding(boards[0], selects[0]).to_multiset().add(
            triggers(boards, selects, deeds, selects[0].index(), n).to_multiset(),
        ),
    decreases n,
{
    let i = selects[0].index();
    let start = outstanding(boards[0], selects[0]).to_multiset();
    if n == 0 {
        Seq::<HandleView>::empty().to_multiset_ensures();
        assert(returned(deeds, 0).to_multiset().add(start) =~= start.add(
            triggers(boards, selects, deeds, i, 0).to_multiset(),
        ));
    } else {
        law_triggers_come_back(boards, selects, deeds, n - 1);
        let deed = deeds[n - 1];
        let b = boards[n - 1];
        let s = selects[n - 1];
        let c = boards[n];
        let t = selects[n];
        let back = returned(deeds, n - 1);
        let rung = triggers(boards, selects, deeds, i, n - 1);
        let before = outstanding(b, s);
        let after = outstanding(c, t);
        assert(does(b, s, deed, c, t));
        assert(b.sound(i));
        lemma_bag(s.fetched(), b.selects[i].ready);
        lemma_bag(t.fetched(), c.selects[i].ready);
        match deed {
            Deed::Trigger(handle) | Deed::Wake(WakeView::Select(handle)) => {
                lemma_listing(b, handle, i);
                let new = belonging(b.listing(handle), i);
                lemma_bag(rung, new);
                assert(back.to_multiset().add(after.to_multiset()) =~= back.to_multiset().add(
                    before.to_multiset(),
                ).add(new.to_multiset()));
                assert(start.add(rung.to_multiset().add(new.to_multiset())) =~= start.add(
                    rung.to_multiset(),
                ).add(new.to_multiset()));
            },
            Deed::Wake(WakeView::Thread(_)) => {},
            Deed::Fetch => {
                assert(after =~= before);
            },
            Deed::Ready(Some(handle)) => {
                assert(before =~= seq![handle] + after);
                assert(returned(deeds, n) =~= back + seq![handle]);
                lemma_bag(back, seq![handle]);
                lemma_bag(seq![handle], after);
                assert(returned(deeds, n).to_multiset().add(after.to_multiset())
                    =~= back.to_multiset().add(before.to_multiset()));
            },
            Deed::Ready(None) => {
                assert(after =~= before);
            },
            Deed::Sleep(wake) => {
                let middle = s.fetched_board(b);
                s.lemma_fetched(b);
                lemma_bag(t.fetched(), middle.selects[i].ready);
                assert(before =~= t.fetched() + middle.selects[i].ready);
                if s.queue(b).len() == 0 {
                    assert(after =~= before);
                } else if let WakeView::Select(handle) = wake {
                    lemma_listing(middle, handle, i);
                    let new = belonging(middle.listing(handle), i);
                    lemma_bag(rung, new);
                    assert(back.to_multiset().add(after.to_multiset()) =~= back.to_multiset().add(
                        before.to_multiset(),
                    ).add(new.to_multiset()));
                    assert(start.add(rung.to_multiset().add(new.to_multiset())) =~= start.add(
                        rung.to_multiset(),
                    ).add(new.to_multiset()));
                }
            },
            Deed::Elsewhere => {},
        }
    }
}

} // verus!
