//! Handles for stopping runs, which the threads of a front end share.
//!
//! A run is watched by one thread and stopped by another, so both hold a handle to the same
//! canceller. The cancellers are kept in one place, under one lock of the caller, and a handle
//! says which of them is meant: the copies of a handle stand for the same canceller, and handles
//! that were handed out apart for different ones.

use vstd::prelude::*;

use crate::exec::Canceller;

verus! {

/// What a canceller knows.
pub struct CancelState {
    /// Whether a stop has been asked for.
    pub requested: bool,
    /// The process group of the running command; zero while nothing runs.
    pub group: i32,
}

/// A canceller that nobody has used.
pub open spec fn unused() -> CancelState {
    CancelState { requested: false, group: 0 }
}

/// The process group to kill when a stop is asked for, if a command runs.
pub open spec fn to_kill(state: CancelState) -> Option<i32> {
    if state.group == 0 {
        None
    } else {
        Some(state.group)
    }
}

/// Something that is done to cancellers.
pub enum Act {
    /// Another one is handed out.
    Add,
    /// A stop is asked for.
    Cancel(int),
    /// A command was started, with this process group.
    Start(int, i32),
    /// The command was polled, and has ended or not.
    Poll(int, bool),
    /// The command is killed and reaped.
    Forget(int),
}

/// Cancellers of which one has changed.
pub open spec fn changed(now: Seq<CancelState>, i: int, state: CancelState) -> Seq<CancelState> {
    if 0 <= i < now.len() {
        now.update(i, state)
    } else {
        now
    }
}

/// Cancellers after something was done to them.
pub open spec fn after(now: Seq<CancelState>, act: Act) -> Seq<CancelState> {
    match act {
        Act::Add => now.push(unused()),
        Act::Cancel(i) => changed(now, i, CancelState { requested: true, ..now[i] }),
        Act::Start(i, group) => changed(now, i, CancelState { group, ..now[i] }),
        Act::Poll(i, ended) => if ended {
            changed(now, i, CancelState { group: 0, ..now[i] })
        } else {
            now
        },
        Act::Forget(i) => changed(now, i, CancelState { group: 0, ..now[i] }),
    }
}

/// Cancellers after all of `acts`.
pub open spec fn performed(now: Seq<CancelState>, acts: Seq<Act>) -> Seq<CancelState>
    decreases acts.len(),
{
    if acts.len() == 0 {
        now
    } else {
        after(performed(now, acts.drop_last()), acts.last())
    }
}

/// A handle to a canceller. Its copies are handles to the same one.
#[derive(Debug, Clone, Copy, PartialEq, Eq, Structural)]
pub struct CancelHandle {
    place: usize,
}

impl View for CancelHandle {
    type V = int;

    closed spec fn view(&self) -> int {
        self.place as int
    }
}

/// The cancellers that were handed out.
#[derive(Debug)]
pub struct Cancellers {
    cancellers: Vec<Canceller>,
}

impl View for Cancellers {
    type V = Seq<CancelState>;

    closed spec fn view(&self) -> Seq<CancelState> {
        self.cancellers@.map_values(|c: Canceller| c.state())
    }
}

impl Cancellers {
    /// Whether a handle was handed out here.
    pub open spec fn holds(&self, handle: CancelHandle) -> bool {
        0 <= handle@ < self@.len()
    }

    /// No canceller has been handed out.
    pub fn new() -> (cancellers: Cancellers)
        ensures
            cancellers@ == Seq::<CancelState>::empty(),
    {
        let cancellers = Cancellers { cancellers: Vec::new() };
        assert(cancellers@ =~= Seq::empty());
        cancellers
    }

    /// Hands out a canceller that nobody has used.
    pub fn add_canceller(&mut self) -> (handle: CancelHandle)
        ensures
            handle@ == old(self)@.len(),
            final(self)@ == after(old(self)@, Act::Add),
    {
        let place = self.cancellers.len();
        self.cancellers.push(Canceller::new());
        assert(self@ =~= after(old(self)@, Act::Add));
        CancelHandle { place }
    }

    /// Whether a handle was handed out here.
    pub fn has(&self, handle: CancelHandle) -> (has: bool)
        ensures
            has == self.holds(handle),
    {
        handle.place < self.cancellers.len()
    }

    /// Asks the command of a handle to stop. Hands out the process group to kill, if one is
    /// running.
    pub fn cancel(&mut self, handle: CancelHandle) -> (kill: Option<i32>)
        requires
            old(self).holds(handle),
        ensures
            kill == to_kill(old(self)@[handle@]),
            final(self)@ == after(old(self)@, Act::Cancel(handle@)),
    {
        let kill = self.cancellers[handle.place].cancel();
        assert(self@ =~= after(old(self)@, Act::Cancel(handle@)));
        kill
    }

    /// Whether a stop has been asked for.
    pub fn is_cancelled(&self, handle: CancelHandle) -> (cancelled: bool)
        requires
            self.holds(handle),
        ensures
            cancelled == self@[handle@].requested,
    {
        self.cancellers[handle.place].is_cancelled()
    }

    /// The process group of the running command; zero while nothing runs.
    pub fn group(&self, handle: CancelHandle) -> (group: i32)
        requires
            self.holds(handle),
        ensures
            group == self@[handle@].group,
    {
        self.cancellers[handle.place].group()
    }

    /// Remembers the process group of a command that was started.
    pub fn set_group(&mut self, handle: CancelHandle, pid: i32)
        requires
            old(self).holds(handle),
        ensures
            final(self)@ == after(old(self)@, Act::Start(handle@, pid)),
    {
        self.cancellers[handle.place].set_group(pid);
        assert(self@ =~= after(old(self)@, Act::Start(handle@, pid)));
    }

    /// Polls the command, and forgets its group as soon as it has ended.
    pub fn poll_with_group<T, E, F: FnOnce() -> Result<Option<T>, E>>(
        &mut self,
        handle: CancelHandle,
        poll: F,
    ) -> (status: Result<Option<T>, E>)
        requires
            old(self).holds(handle),
            call_requires(poll, ()),
        ensures
            call_ensures(poll, (), status),
            final(self)@ == after(
                old(self)@,
                Act::Poll(handle@, status is Ok && status->Ok_0 is Some),
            ),
    {
        let status = self.cancellers[handle.place].poll_with_group(poll);
        assert(self@ =~= after(
            old(self)@,
            Act::Poll(handle@, status is Ok && status->Ok_0 is Some),
        ));
        status
    }

    /// Forgets the process group of a command that is killed and reaped now.
    pub fn forget(&mut self, handle: CancelHandle)
        requires
            old(self).holds(handle),
        ensures
            final(self)@ == after(old(self)@, Act::Forget(handle@)),
    {
        self.cancellers[handle.place].forget();
        assert(self@ =~= after(old(self)@, Act::Forget(handle@)));
    }
}

impl Default for Cancellers {
    fn default() -> (cancellers: Cancellers)
        ensures
            cancellers@ == Seq::<CancelState>::empty(),
    {
        Cancellers::new()
    }
}

/// A stop that was asked for is never taken back, whatever is done afterwards.
pub proof fn law_cancelled_stays_cancelled(now: Seq<CancelState>, i: int, acts: Seq<Act>)
    requires
        0 <= i < now.len(),
        now[i].requested,
    ensures
        now.len() <= performed(now, acts).len(),
        performed(now, acts)[i].requested,
    decreases acts.len(),
{
    if acts.len() > 0 {
        law_cancelled_stays_cancelled(now, i, acts.drop_last());
    }
}

/// Only a stop that is asked for through its own handles cancels a canceller.
pub proof fn law_only_its_own_stop_cancels(now: Seq<CancelState>, i: int, acts: Seq<Act>)
    requires
        0 <= i < now.len(),
        !now[i].requested,
        forall|j: int| 0 <= j < acts.len() ==> #[trigger] acts[j] != Act::Cancel(i),
    ensures
        now.len() <= performed(now, acts).len(),
        !performed(now, acts)[i].requested,
    decreases acts.len(),
{
    if acts.len() > 0 {
        let before = acts.drop_last();
        assert forall|j: int| 0 <= j < before.len() implies #[trigger] before[j] != Act::Cancel(
            i,
        ) by {
            assert(before[j] == acts[j]);
        }
        law_only_its_own_stop_cancels(now, i, before);
        assert(acts[acts.len() - 1] != Act::Cancel(i));
    }
}

/// A stop that is asked for through one handle is seen through all its copies, then and after
/// whatever is done later, runs and further stops among it. A canceller that was handed out apart
/// and that nobody has stopped does not see it. The process group to kill is the one that is
/// registered at that moment, if one is, and it stays registered.
pub proof fn law_stop_is_shared(
    now: Seq<CancelState>,
    handle: CancelHandle,
    copy: CancelHandle,
    other: CancelHandle,
    acts: Seq<Act>,
)
    requires
        0 <= handle@ < now.len(),
        0 <= other@ < now.len(),
        copy == handle,
        other@ != handle@,
        !now[other@].requested,
        forall|j: int| 0 <= j < acts.len() ==> #[trigger] acts[j] != Act::Cancel(other@),
    ensures
        ({
            let stopped = after(now, Act::Cancel(handle@));
            let later = performed(stopped, acts);
            &&& stopped[handle@].requested && stopped[copy@].requested
            &&& later[handle@].requested && later[copy@].requested
            &&& !stopped[other@].requested
            &&& !later[other@].requested
            &&& stopped[handle@].group == now[handle@].group
            &&& stopped[other@] == now[other@]
            &&& to_kill(now[handle@]) is None <==> now[handle@].group == 0
            &&& to_kill(now[handle@]) matches Some(group) ==> group == now[handle@].group
        }),
{
    let stopped = after(now, Act::Cancel(handle@));
    law_cancelled_stays_cancelled(stopped, handle@, acts);
    law_only_its_own_stop_cancels(stopped, other@, acts);
}

/// A canceller that is handed out is new, and has nothing to do with those before it.
pub proof fn law_new_canceller_is_unused(now: Seq<CancelState>, i: int)
    requires
        0 <= i < now.len(),
    ensures
        after(now, Act::Add)[now.len() as int] == unused(),
        after(now, Act::Add)[i] == now[i],
        now.len() != i,
{
}

} // verus!
