//! The service state machine that gates the request path against
//! synchronisation and reorganisations: an admission barrier with a
//! bounded parking queue, an in-flight counter, and the atomic sync
//! position.

use vstd::prelude::*;

verus! {

/// How many parked requests the resume queue holds before the oldest
/// is expelled.
pub const RESUME_QUEUE_SIZE: usize = 2048;

/// The current state of the service.
#[derive(Copy, Clone, PartialEq, Eq, Structural, Debug)]
pub enum State {
    Syncing,
    Active,
    ReOrgPending,
    ReOrg,
}

/// An obstruction to a request: reject at once while syncing, or park
/// under a ticket that is later resolved with admit or
/// reject-overflow.
pub enum Barrier {
    /// Request arrived during syncing, reject immediately
    Syncing,
    /// Request arrived during re-org; the ticket is resolved when the
    /// reorganisation ends, or expelled on queue overflow.
    ReOrging(u64),
}

/// The verdicts a gated request can end with.
#[derive(Copy, Clone, PartialEq, Eq, Structural, Debug)]
pub enum BarrierError {
    Syncing,
    ReOrgOverflow,
}

/// Mathematical model of the state manager.
pub ghost struct GateModel {
    pub state: State,
    /// Parked tickets, oldest first.
    pub queue: Seq<u64>,
    /// The number of admitted requests not yet completed.
    pub active: nat,
    /// One past the highest height whose block has been persisted.
    pub position: u32,
    /// The ticket the next parked request receives.
    pub next_ticket: u64,
}

/// The service state manager.
pub struct StateMananger {
    state: State,
    resume_queue: Vec<u64>,
    active_counter: usize,
    sync_position: u32,
    next_ticket: u64,
}

impl View for StateMananger {
    type V = GateModel;

    closed spec fn view(&self) -> GateModel {
        GateModel {
            state: self.state,
            queue: self.resume_queue@,
            active: self.active_counter as nat,
            position: self.sync_position,
            next_ticket: self.next_ticket,
        }
    }
}

/// The next value of a wrapping 64-bit ticket counter.
pub open spec fn wrap_inc64(x: u64) -> u64 {
    if x == u64::MAX {
        0
    } else {
        (x + 1) as u64
    }
}

/// The next value of the wrapping 32-bit sync position.
pub open spec fn wrap_inc32(x: u32) -> u32 {
    if x == u32::MAX {
        0
    } else {
        (x + 1) as u32
    }
}

/// The manager's invariant: the parking queue is bounded, the
/// in-flight counter fits, and a reorganisation only runs with no
/// request in flight.
pub open spec fn gate_inv(m: GateModel) -> bool {
    &&& m.queue.len() <= RESUME_QUEUE_SIZE as nat
    &&& m.active <= usize::MAX as nat
    &&& m.state == State::ReOrg ==> m.active == 0
}

/// The model after an admission attempt: admitted requests raise the
/// counter, parked ones enter the queue, expelling the oldest ticket
/// when it is full.
pub open spec fn gate_after_try(m: GateModel) -> GateModel {
    match m.state {
        State::Syncing => m,
        State::Active => GateModel { active: m.active + 1, ..m },
        _ => GateModel {
            queue: if m.queue.len() < RESUME_QUEUE_SIZE as nat {
                m.queue.push(m.next_ticket)
            } else {
                m.queue.drop_first().push(m.next_ticket)
            },
            next_ticket: wrap_inc64(m.next_ticket),
            ..m
        },
    }
}

/// The model after a completion signal: the counter falls, and the
/// last completion under a pending reorganisation starts it.
pub open spec fn gate_after_signal(m: GateModel) -> GateModel {
    match m.state {
        State::Active => if m.active > 0 {
            GateModel { active: (m.active - 1) as nat, ..m }
        } else {
            m
        },
        State::ReOrgPending => if m.active == 1 {
            GateModel { state: State::ReOrg, active: 0, ..m }
        } else if m.active > 0 {
            GateModel { active: (m.active - 1) as nat, ..m }
        } else {
            m
        },
        _ => m,
    }
}

impl Default for StateMananger {
    /// A manager in the initial syncing state.
    fn default() -> (r: StateMananger)
        ensures
            r@.state == State::Syncing,
            r@.queue == Seq::<u64>::empty(),
            r@.active == 0,
            r@.position == 0,
            gate_inv(r@),
    {
        let r = StateMananger {
            state: State::Syncing,
            resume_queue: Vec::new(),
            active_counter: 0,
            sync_position: 0,
            next_ticket: 0,
        };
        r
    }
}

impl StateMananger {
    /// The current state.
    pub fn state(&self) -> (r: State)
        ensures
            r == self@.state,
    {
        self.state
    }

    /// Check whether the service can admit a request now. Returns the
    /// obstruction, if any, and the ticket expelled with
    /// reject-overflow when parking overflowed the queue.
    pub fn try_barrier(&mut self) -> (r: (Option<Barrier>, Option<u64>))
        requires
            gate_inv(old(self)@),
            old(self)@.active < usize::MAX as nat,
        ensures
            gate_inv(final(self)@),
            final(self)@ == gate_after_try(old(self)@),
            match old(self)@.state {
                State::Syncing => r.0 matches Some(Barrier::Syncing) && r.1 is None,
                State::Active => r.0 is None && r.1 is None,
                _ => {
                    &&& r.0 matches Some(Barrier::ReOrging(t)) && t == old(self)@.next_ticket
                    &&& if old(self)@.queue.len() < RESUME_QUEUE_SIZE as nat {
                        r.1 is None
                    } else {
                        r.1 matches Some(e) && e == old(self)@.queue[0]
                    }
                },
            },
    {
        match self.state {
            State::Syncing => (Some(Barrier::Syncing), None),
            State::Active => {
                self.active_counter = self.active_counter + 1;
                (None, None)
            },
            _ => {
                let ticket = self.next_ticket;
                self.next_ticket = self.next_ticket.wrapping_add(1);
                assert(self.next_ticket == wrap_inc64(ticket));
                let expelled: Option<u64>;
                if self.resume_queue.len() < RESUME_QUEUE_SIZE {
                    expelled = None;
                } else {
                    let oldest = self.resume_queue.remove(0);
                    expelled = Some(oldest);
                }
                self.resume_queue.push(ticket);
                (Some(Barrier::ReOrging(ticket)), expelled)
            },
        }
    }

    /// Signal that an admitted request has completed. The last
    /// completion under a pending reorganisation starts the
    /// reorganisation.
    pub fn signal_completion(&mut self)
        requires
            gate_inv(old(self)@),
        ensures
            gate_inv(final(self)@),
            final(self)@ == gate_after_signal(old(self)@),
    {
        match self.state {
            State::Active => {
                if self.active_counter > 0 {
                    self.active_counter = self.active_counter - 1;
                }
            },
            State::ReOrgPending => {
                if self.active_counter == 1 {
                    self.active_counter = 0;
                    self.state = State::ReOrg;
                } else if self.active_counter > 0 {
                    self.active_counter = self.active_counter - 1;
                }
            },
            _ => {
                // Requests cannot complete while syncing or
                // reorganising.
            },
        }
    }

    /// Move to a new state along the service's transition diagram.
    /// Ending a reorganisation releases every parked ticket, oldest
    /// first, each to be resolved with admit.
    pub fn transition(&mut self, new_state: State) -> (released: Vec<u64>)
        requires
            gate_inv(old(self)@),
            match (old(self)@.state, new_state) {
                (State::Syncing, State::Active) => true,
                (State::Active, State::ReOrgPending) => true,
                (State::ReOrgPending, State::ReOrg) => old(self)@.active == 0,
                (State::ReOrg, State::Active) => true,
                _ => false,
            },
        ensures
            gate_inv(final(self)@),
            final(self)@.state == new_state,
            final(self)@.active == old(self)@.active,
            final(self)@.position == old(self)@.position,
            final(self)@.next_ticket == old(self)@.next_ticket,
            if old(self)@.state == State::ReOrg && new_state == State::Active {
                released@ == old(self)@.queue && final(self)@.queue == Seq::<u64>::empty()
            } else {
                released@.len() == 0 && final(self)@.queue == old(self)@.queue
            },
    {
        let mut released: Vec<u64> = Vec::new();
        let is_release = match (self.state, new_state) {
            (State::ReOrg, State::Active) => true,
            _ => false,
        };
        if is_release {
            let ghost q = self.resume_queue@;
            while self.resume_queue.len() > 0
                invariant
                    released@ + self.resume_queue@ == q,
                    self@.state == old(self)@.state,
                    self@.active == old(self)@.active,
                    self@.position == old(self)@.position,
                    self@.next_ticket == old(self)@.next_ticket,
                decreases self.resume_queue@.len(),
            {
                let t = self.resume_queue.remove(0);
                released.push(t);
                assert(released@ + self.resume_queue@ =~= q);
            }
            assert(released@ =~= q);
        }
        self.state = new_state;
        released
    }

    /// Advance the in-memory sync position by one block, returning
    /// the previous value.
    pub fn increment_sync_position(&mut self) -> (r: u32)
        requires
            gate_inv(old(self)@),
        ensures
            gate_inv(final(self)@),
            r == old(self)@.position,
            final(self)@ == (GateModel { position: wrap_inc32(old(self)@.position), ..old(self)@ }),
    {
        let r = self.sync_position;
        self.sync_position = self.sync_position.wrapping_add(1);
        assert(self.sync_position == wrap_inc32(r));
        r
    }

    /// Set the in-memory sync position.
    pub fn set_sync_position(&mut self, position: u32)
        requires
            gate_inv(old(self)@),
        ensures
            gate_inv(final(self)@),
            final(self)@ == (GateModel { position: position, ..old(self)@ }),
    {
        self.sync_position = position;
    }

    /// The in-memory sync position.
    pub fn sync_position(&self) -> (r: u32)
        ensures
            r == self@.position,
    {
        self.sync_position
    }
}

/// Resolve a gated request: no obstruction admits it, a syncing
/// verdict rejects it as retryable, and a parked ticket follows the
/// verdict it was resolved with — admit, or reject-overflow when it
/// was expelled.
pub fn barrier_outcome(barrier: Option<Barrier>, resumed_admit: bool) -> (r: Result<
    (),
    BarrierError,
>)
    ensures
        match barrier {
            None => r is Ok,
            Some(Barrier::Syncing) => r matches Err(BarrierError::Syncing),
            Some(Barrier::ReOrging(_)) => if resumed_admit {
                r is Ok
            } else {
                r matches Err(BarrierError::ReOrgOverflow)
            },
        },
{
    match barrier {
        None => Ok(()),
        Some(Barrier::Syncing) => Err(BarrierError::Syncing),
        Some(Barrier::ReOrging(_)) => if resumed_admit {
            Ok(())
        } else {
            Err(BarrierError::ReOrgOverflow)
        },
    }
}

// ---------------------------------------------------------------------
// Admission safety over whole interleavings
// ---------------------------------------------------------------------

/// One admission-path event.
pub ghost enum GateEvent {
    TryBarrier,
    SignalCompletion,
}

/// The model after a sequence of admission-path events.
pub open spec fn run_gate(m: GateModel, evs: Seq<GateEvent>) -> GateModel
    decreases evs.len(),
{
    if evs.len() == 0 {
        m
    } else {
        let next = match evs.first() {
            GateEvent::TryBarrier => gate_after_try(m),
            GateEvent::SignalCompletion => gate_after_signal(m),
        };
        run_gate(next, evs.drop_first())
    }
}

/// Admission safety: under any interleaving of admission attempts and
/// completion signals the in-flight counter stays non-negative — it
/// is a count that is never decremented below zero — and a pending
/// reorganisation becomes a running one only once the counter has
/// reached zero, so a reorganisation never runs with a request in
/// flight.
#[verifier::rlimit(100)]
pub proof fn lemma_admission_safety(m: GateModel, evs: Seq<GateEvent>)
    requires
        gate_inv(m),
        m.active + evs.len() <= usize::MAX as nat,
    ensures
        gate_inv(run_gate(m, evs)),
        run_gate(m, evs).state == State::ReOrg && m.state != State::ReOrg ==> exists|k: int|
            0 <= k < evs.len() && #[trigger] run_gate(m, evs.take(k)).state == State::ReOrgPending
                && run_gate(m, evs.take(k)).active == 1 && run_gate(m, evs.take(k + 1)).state
                == State::ReOrg,
    decreases evs.len(),
{
    if evs.len() > 0 {
        let next = match evs.first() {
            GateEvent::TryBarrier => gate_after_try(m),
            GateEvent::SignalCompletion => gate_after_signal(m),
        };
        assert(gate_inv(next));
        lemma_admission_safety(next, evs.drop_first());
        let t = evs.drop_first();
        if run_gate(m, evs).state == State::ReOrg && m.state != State::ReOrg {
            assert(evs.take(0) =~= Seq::<GateEvent>::empty());
            if next.state == State::ReOrg {
                // The first event is the crossing.
                assert(m.state == State::ReOrgPending && m.active == 1 && evs.first()
                    matches GateEvent::SignalCompletion);
                assert(evs.take(1) =~= seq![evs.first()]);
                assert(evs.take(1).first() == evs.first());
                assert(evs.take(1).drop_first() =~= Seq::<GateEvent>::empty());
                assert(run_gate(next, Seq::<GateEvent>::empty()) == next);
                assert(run_gate(m, evs.take(1)) == next);
                assert(run_gate(m, evs.take(0int)).state == State::ReOrgPending && run_gate(
                    m,
                    evs.take(0int),
                ).active == 1 && run_gate(m, evs.take(0int + 1)).state == State::ReOrg);
            } else {
                let k = choose|k: int|
                    0 <= k < t.len() && #[trigger] run_gate(next, t.take(k)).state
                        == State::ReOrgPending && run_gate(next, t.take(k)).active == 1
                        && run_gate(next, t.take(k + 1)).state == State::ReOrg;
                assert(evs.take(k + 1).drop_first() =~= t.take(k));
                assert(evs.take(k + 2).drop_first() =~= t.take(k + 1));
                assert(run_gate(m, evs.take(k + 1)) == run_gate(next, t.take(k)));
                assert(run_gate(m, evs.take(k + 2)) == run_gate(next, t.take(k + 1)));
                assert(run_gate(m, evs.take(k + 1)).state == State::ReOrgPending && run_gate(
                    m,
                    evs.take(k + 1),
                ).active == 1 && run_gate(m, evs.take((k + 1) + 1)).state == State::ReOrg);
            }
        }
    }
}

} // verus!
