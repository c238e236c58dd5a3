use std::collections::VecDeque;
use vstd::prelude::*;

use crate::message_channel::{create_channel, MessageReceiver, MessageSender};
use crate::protocol::{
    delivered, flag_phase, lemma_initialize_once, lemma_nothing_after_terminal, lemma_prefix_push,
    lemma_record_call, phase_of, Advanced, Phase, StateCall,
};
use crate::state::{AsVariant, DeliveryStatus, State, StateType, Transition};

verus! {

pub type StateMachineId = String;

/// A cloneable handle through which inbound messages reach one machine.
#[verifier::reject_recursive_types(M)]
pub struct StateMachineHandle<M> {
    tx: MessageSender<M>,
}

impl<M> StateMachineHandle<M> {
    pub fn clone(&self) -> (r: Self) {
        StateMachineHandle { tx: self.tx.clone() }
    }

    /// Puts `message` into the machine's inbound mailbox; `Err(())` when the
    /// mailbox was busy at that instant.
    pub fn send(&self, message: M) -> (r: Result<(), ()>) {
        self.tx.try_send(message)
    }
}

#[derive(Debug, PartialEq, Eq, Structural)]
pub enum StepResult {
    Running,
    Terminated,
}

/// Why a step stopped early.
#[derive(Debug, PartialEq, Eq, Structural)]
pub enum StepErrorKind {
    /// The active state declined a delivered message.
    UnexpectedMessage,
    /// The active state reported a failure from `deliver` or `advance`.
    StateError,
}

#[derive(Debug, PartialEq)]
pub struct StateMachineError {
    pub kind: StepErrorKind,
    pub message: String,
}

/// Delivering `q` to `s` oldest first, stopping after the first message that
/// is not taken: the state reached, how many messages were consumed, and the
/// outcome of the last delivery (`Delivered` when every message was taken).
pub open spec fn run_deliveries<Types: StateType, S: State<Types>>(s: S, q: Seq<Types::In>) -> (
    S,
    nat,
    DeliveryStatus<Types::In, String>,
)
    decreases q.len(),
{
    if q.len() == 0 {
        (s, 0, DeliveryStatus::Delivered)
    } else {
        let (s1, st) = s.spec_deliver(q[0]);
        match st {
            DeliveryStatus::Delivered => {
                let rest = run_deliveries::<Types, S>(s1, q.drop_first());
                (rest.0, rest.1 + 1, rest.2)
            },
            _ => (s1, 1, st),
        }
    }
}

/// One machine: its active state, its inbound queue and mailboxes.
#[verifier::reject_recursive_types(Types)]
#[verifier::reject_recursive_types(S)]
pub struct StateMachine<Types: StateType, S: State<Types>> {
    state_machine_id: String,
    state: S,
    message_queue: VecDeque<Types::In>,
    is_state_initialized: bool,
    is_terminated: bool,
    // Receives messages for states
    inbound_message_channel: MessageReceiver<Types::In>,
    // Sends messages from states
    outbound_message_channel: MessageSender<Types::Out>,
    // Outbound messages that the mailbox could not take yet, oldest first
    unsent: VecDeque<Types::Out>,
    calls: Ghost<Seq<StateCall<Types::In>>>,
    received: Ghost<Seq<Types::In>>,
    emitted: Ghost<Seq<Types::Out>>,
    sent: Ghost<Seq<Types::Out>>,
}

impl<Types: StateType, S: State<Types>> StateMachine<Types, S> {
    pub closed spec fn spec_id(&self) -> Seq<char> {
        self.state_machine_id@
    }

    /// The active state.
    pub closed spec fn current(&self) -> S {
        self.state
    }

    /// Inbound messages taken from the mailbox and not yet delivered.
    pub closed spec fn queue(&self) -> Seq<Types::In> {
        self.message_queue@
    }

    pub closed spec fn initialized(&self) -> bool {
        self.is_state_initialized
    }

    pub closed spec fn terminated(&self) -> bool {
        self.is_terminated
    }

    /// What one `step` does, from `before` to `self`, returning `r`.
    pub open spec fn stepped_from(&self, before: &Self, r: Result<StepResult, StateMachineError>) -> bool {
        &&& self.spec_id() == before.spec_id()
        &&& before.calls().is_prefix_of(self.calls())
        &&& before.received().is_prefix_of(self.received())
        &&& before.emitted().is_prefix_of(self.emitted())
        &&& before.terminated() ==> r == Ok::<StepResult, StateMachineError>(StepResult::Terminated)
            && *self == *before
        &&& !before.terminated() ==> self.calls().len() > before.calls().len()
        &&& !before.terminated() && !before.initialized()
            ==> self.calls()[before.calls().len() as int] == StateCall::<Types::In>::Initialize
        &&& (r matches Ok(StepResult::Terminated) <==> self.terminated())
        &&& r is Ok ==> self.queue().len() == 0
        &&& !before.terminated() ==> (r matches Ok(StepResult::Running) <==> (self.calls().last()
            == StateCall::<Types::In>::Advance(Advanced::Same) || self.calls().last()
            == StateCall::<Types::In>::Advance(Advanced::Next)))
        &&& !before.terminated() ==> (r matches Ok(StepResult::Terminated) <==> self.calls().last()
            == StateCall::<Types::In>::Advance(Advanced::Terminal))
        &&& !before.initialized() && !before.terminated() ==> self.emitted() == before.emitted()
            + before.current().spec_initialize()
        &&& before.initialized() || before.terminated() ==> self.emitted() == before.emitted()
        &&& !before.terminated() ==> ({
                let pending = before.queue() + self.arrived(before);
                let run = run_deliveries::<Types, S>(before.current(), pending);
                &&& !(run.2 is Delivered) ==> {
                    &&& r is Err
                    &&& self.current() == run.0
                    &&& self.queue() == pending.skip(run.1 as int)
                    &&& self.initialized()
                    &&& run.2 is Unexpected ==> (r matches Err(e) && e.kind == StepErrorKind::UnexpectedMessage)
                    &&& run.2 matches DeliveryStatus::Error(d) ==> (r matches Err(e) && e.kind
                        == StepErrorKind::StateError && e.message == d)
                }
                &&& run.2 is Delivered ==> {
                    &&& self.queue().len() == 0
                    &&& match run.0.spec_advance() {
                        Err(d) => (r matches Err(e) && e.kind == StepErrorKind::StateError && e.message == d)
                            && self.current() == run.0 && self.initialized() && !self.terminated(),
                        Ok(Transition::Same) => r == Ok::<StepResult, StateMachineError>(StepResult::Running)
                            && self.current() == run.0 && self.initialized(),
                        Ok(Transition::Next(s2)) => r == Ok::<StepResult, StateMachineError>(
                            StepResult::Running,
                        ) && self.current() == s2 && !self.initialized(),
                        Ok(Transition::Terminal) => r == Ok::<StepResult, StateMachineError>(
                            StepResult::Terminated,
                        ) && self.current() == run.0 && self.terminated(),
                    }
                }
            })
        &&& !before.terminated() ==> (r is Err <==> (self.calls().last() matches StateCall::Deliver(_, false)
            || self.calls().last() == StateCall::<Types::In>::Advance(Advanced::Failed)))
    }

    /// What `enqueue(message)` does, from `before` to `self`.
    pub open spec fn enqueued_from(&self, before: &Self, message: Types::In) -> bool {
        &&& self.spec_id() == before.spec_id()
        &&& self.current() == before.current()
        &&& self.initialized() == before.initialized()
        &&& self.terminated() == before.terminated()
        &&& self.calls() == before.calls()
        &&& self.emitted() == before.emitted()
        &&& before.received().is_prefix_of(self.received())
        &&& before.terminated() ==> *self == *before
        &&& !before.terminated() ==> self.received().len() > 0 && self.received().last() == message
            && self.queue().last() == message
    }

    /// What was received since `before`, in order.
    pub open spec fn arrived(&self, before: &Self) -> Seq<Types::In> {
        self.received().skip(before.received().len() as int)
    }

    /// The sending end of the outbound mailbox.
    pub closed spec fn outbound(&self) -> MessageSender<Types::Out> {
        self.outbound_message_channel
    }

    /// Every call made against the machine's states, in order.
    pub closed spec fn calls(&self) -> Seq<StateCall<Types::In>> {
        self.calls@
    }

    /// Every inbound message taken from the mailbox, in order.
    pub closed spec fn received(&self) -> Seq<Types::In> {
        self.received@
    }

    /// Every outbound message produced by `initialize`, in order.
    pub closed spec fn emitted(&self) -> Seq<Types::Out> {
        self.emitted@
    }

    /// The outbound messages handed to the outbound mailbox, in order.
    pub closed spec fn sent(&self) -> Seq<Types::Out> {
        self.sent@
    }

    /// The outbound messages still waiting for the mailbox, oldest first.
    pub closed spec fn unsent(&self) -> Seq<Types::Out> {
        self.unsent@
    }

    /// The calls made so far follow the protocol and agree with the flags;
    /// messages are delivered in the order they were received; outbound
    /// messages go out in the order they were produced.
    pub open spec fn wf(&self) -> bool {
        &&& phase_of(self.calls()) == flag_phase(self.initialized(), self.terminated())
        &&& delivered(self.calls()) + self.queue() == self.received()
        &&& self.sent() + self.unsent() == self.emitted()
        &&& self.terminated() ==> self.queue().len() == 0
    }

    /// Creates a machine with the given initial state. Returns it with a
    /// handle that sends inbound messages to it.
    pub fn new(
        state_machine_id: String,
        outbound_message_channel: MessageSender<Types::Out>,
        state: S,
    ) -> (r: (StateMachine<Types, S>, StateMachineHandle<Types::In>))
        ensures
            r.0.wf(),
            r.0.spec_id() == state_machine_id@,
            r.0.current() == state,
            r.0.outbound() == outbound_message_channel,
            r.0.queue().len() == 0,
            !r.0.initialized(),
            !r.0.terminated(),
            r.0.calls().len() == 0,
            r.0.received().len() == 0,
            r.0.emitted().len() == 0,
    {
        let (tx, inbound_message_channel) = create_channel::<Types::In>();
        let machine = StateMachine {
            state_machine_id,
            state,
            message_queue: VecDeque::new(),
            is_state_initialized: false,
            is_terminated: false,
            inbound_message_channel,
            outbound_message_channel,
            unsent: VecDeque::new(),
            calls: Ghost(Seq::empty()),
            received: Ghost(Seq::empty()),
            emitted: Ghost(Seq::empty()),
            sent: Ghost(Seq::empty()),
        };
        proof {
            assert(machine.queue() + Seq::<Types::In>::empty() =~= machine.queue());
            assert(machine.sent() + machine.unsent() =~= machine.emitted());
        }
        (machine, StateMachineHandle { tx })
    }

    pub fn id(&self) -> (r: &String)
        ensures
            r@ == self.spec_id(),
    {
        &self.state_machine_id
    }

    /// Whether an `advance` of this machine returned Terminal.
    pub fn is_terminated(&self) -> (r: bool)
        ensures
            r == self.terminated(),
    {
        self.is_terminated
    }

    /// The active state.
    pub fn state(&self) -> (r: &S)
        ensures
            *r == self.current(),
    {
        &self.state
    }

    /// The active state seen as kind `T`, if it is of that kind.
    pub fn downcast_state<T>(&self) -> (r: Option<&T>)
        where
            S: AsVariant<T>,
        ensures
            r == self.current().spec_variant(),
    {
        self.state.as_variant()
    }
    /// Hands waiting outbound messages to the outbound mailbox, oldest first,
    /// until none is left or the mailbox is busy.
    fn flush_outbound(&mut self)
        requires
            old(self).wf(),
        ensures
            final(self).wf(),
            final(self).spec_id() == old(self).spec_id(),
            final(self).current() == old(self).current(),
            final(self).queue() == old(self).queue(),
            final(self).initialized() == old(self).initialized(),
            final(self).terminated() == old(self).terminated(),
            final(self).calls() == old(self).calls(),
            final(self).received() == old(self).received(),
            final(self).emitted() == old(self).emitted(),
    {
        let mut busy = false;
        while !busy && self.unsent.len() > 0
            invariant
                self.wf(),
                self.spec_id() == old(self).spec_id(),
                self.current() == old(self).current(),
                self.queue() == old(self).queue(),
                self.initialized() == old(self).initialized(),
                self.terminated() == old(self).terminated(),
                self.calls() == old(self).calls(),
                self.received() == old(self).received(),
                self.emitted() == old(self).emitted(),
            decreases self.unsent@.len() + if busy { 0int } else { 1int },
        {
            match self.unsent.pop_front() {
                Some(m) => {
                    let ghost gm = m;
                    match self.outbound_message_channel.try_send_back(m) {
                        Ok(()) => {
                            self.sent = Ghost(self.sent@.push(gm));
                            proof {
                                assert(self.sent() + self.unsent() =~= self.emitted());
                            }
                        },
                        Err(back) => {
                            self.unsent.push_front(back);
                            busy = true;
                            proof {
                                assert(self.sent() + self.unsent() =~= self.emitted());
                            }
                        },
                    }
                },
                None => {
                    busy = true;
                },
            }
        }
    }

    /// Moves what the inbound mailbox holds to the back of the queue.
    fn receive_inbound(&mut self)
        requires
            old(self).wf(),
            !old(self).terminated(),
        ensures
            final(self).wf(),
            final(self).spec_id() == old(self).spec_id(),
            final(self).current() == old(self).current(),
            old(self).queue().is_prefix_of(final(self).queue()),
            old(self).received().is_prefix_of(final(self).received()),
            final(self).queue() == old(self).queue() + final(self).arrived(old(self)),
            final(self).initialized() == old(self).initialized(),
            !final(self).terminated(),
            final(self).calls() == old(self).calls(),
            final(self).emitted() == old(self).emitted(),
            final(self).sent() == old(self).sent(),
    {
        let mut incoming = self.inbound_message_channel.receive_all();
        while incoming.len() > 0
            invariant
                self.wf(),
                self.spec_id() == old(self).spec_id(),
                self.current() == old(self).current(),
                old(self).queue().is_prefix_of(self.queue()),
                old(self).received().is_prefix_of(self.received()),
                self.queue() == old(self).queue() + self.arrived(old(self)),
                self.initialized() == old(self).initialized(),
                !self.terminated(),
                self.calls() == old(self).calls(),
                self.emitted() == old(self).emitted(),
                self.sent() == old(self).sent(),
            decreases incoming@.len(),
        {
            let m = incoming.remove(0);
            let ghost gm = m;
            let ghost prev_q = self.message_queue@;
            let ghost prev_r = self.received@;
            self.message_queue.push_back(m);
            self.received = Ghost(self.received@.push(gm));
            proof {
                assert(delivered(self.calls()) + self.queue() =~= self.received());
                lemma_prefix_push(old(self).queue(), prev_q, gm);
                lemma_prefix_push(old(self).received(), prev_r, gm);
                assert(self.arrived(old(self)) =~= prev_r.skip(old(self).received().len() as int).push(gm));
                assert(self.queue() =~= old(self).queue() + self.arrived(old(self)));
            }
        }
    }

    /// Delivers the queued messages to the active state, oldest first,
    /// stopping at the first one that the state declines or fails on.
    fn deliver_queued(&mut self) -> (r: Result<(), StateMachineError>)
        requires
            old(self).wf(),
            old(self).initialized(),
            !old(self).terminated(),
        ensures
            final(self).wf(),
            final(self).spec_id() == old(self).spec_id(),
            final(self).initialized(),
            !final(self).terminated(),
            old(self).calls().is_prefix_of(final(self).calls()),
            final(self).received() == old(self).received(),
            final(self).emitted() == old(self).emitted(),
            final(self).sent() == old(self).sent(),
            r is Ok ==> final(self).queue().len() == 0,
            r is Ok ==> old(self).calls().len() == final(self).calls().len()
                || final(self).calls().last() matches StateCall::Deliver(_, true),
            r is Err ==> final(self).calls().last() matches StateCall::Deliver(_, false),
            r is Err ==> final(self).calls().len() > old(self).calls().len(),
            ({
                let run = run_deliveries::<Types, S>(old(self).current(), old(self).queue());
                &&& final(self).current() == run.0
                &&& final(self).queue() == old(self).queue().skip(run.1 as int)
                &&& (r is Ok <==> run.2 is Delivered)
                &&& run.2 is Unexpected ==> (r matches Err(e) && e.kind == StepErrorKind::UnexpectedMessage)
                &&& run.2 matches DeliveryStatus::Error(d) ==> (r matches Err(e) && e.kind
                    == StepErrorKind::StateError && e.message == d)
            }),
    {
        let ghost run = run_deliveries::<Types, S>(old(self).current(), old(self).queue());
        while self.message_queue.len() > 0
            invariant
                self.wf(),
                self.spec_id() == old(self).spec_id(),
                self.initialized(),
                !self.terminated(),
                old(self).calls().is_prefix_of(self.calls()),
                self.received() == old(self).received(),
                self.emitted() == old(self).emitted(),
                self.sent() == old(self).sent(),
                old(self).calls().len() == self.calls().len()
                    || self.calls().last() matches StateCall::Deliver(_, true),
                run == run_deliveries::<Types, S>(old(self).current(), old(self).queue()),
                self.queue().len() <= old(self).queue().len(),
                self.queue() == old(self).queue().skip(old(self).queue().len() - self.queue().len()),
                run.1 >= old(self).queue().len() - self.queue().len(),
                ({
                    let now = run_deliveries::<Types, S>(self.current(), self.queue());
                    now.0 == run.0 && now.1 + (old(self).queue().len() - self.queue().len()) == run.1
                        && now.2 == run.2
                }),
            decreases self.message_queue@.len(),
        {
            let ghost prev_state = self.state;
            let ghost prev_queue = self.message_queue@;
            let m = match self.message_queue.pop_front() {
                Some(m) => m,
                None => {
                    return Ok(());
                },
            };
            let ghost gm = m;
            let ghost before = self.calls@;
            proof {
                assert(self.queue() =~= prev_queue.drop_first());
                assert(prev_queue.drop_first() =~= old(self).queue().skip(
                    old(self).queue().len() - prev_queue.len() + 1,
                ));
            }
            let status = self.state.deliver(m);
            let accepted = match status {
                DeliveryStatus::Delivered => true,
                _ => false,
            };
            self.calls = Ghost(self.calls@.push(StateCall::Deliver(gm, accepted)));
            proof {
                lemma_record_call(before, StateCall::Deliver(gm, accepted));
                lemma_prefix_push(old(self).calls(), before, StateCall::Deliver(gm, accepted));
                assert(delivered(self.calls()) + self.queue() =~= self.received());
            }
            match status {
                DeliveryStatus::Delivered => {},
                DeliveryStatus::Unexpected(_) => {
                    return Err(StateMachineError {
                        kind: StepErrorKind::UnexpectedMessage,
                        message: "unexpected message".to_string(),
                    });
                },
                DeliveryStatus::Error(e) => {
                    return Err(StateMachineError { kind: StepErrorKind::StateError, message: e });
                },
            }
        }
        Ok(())
    }

    /// Puts `message` at the back of the queue, after whatever the inbound
    /// mailbox holds. A terminated machine takes no more messages.
    pub fn enqueue(&mut self, message: Types::In)
        requires
            old(self).wf(),
        ensures
            final(self).wf(),
            final(self).enqueued_from(old(self), message),
    {
        if self.is_terminated {
            return;
        }
        self.receive_inbound();
        let ghost gm = message;
        self.message_queue.push_back(message);
        self.received = Ghost(self.received@.push(gm));
        proof {
            assert(delivered(self.calls()) + self.queue() =~= self.received());
            lemma_prefix_push(old(self).received(), self.received().drop_last(), gm);
            assert(self.received().drop_last().push(gm) =~= self.received());
        }
    }

    /// Drives the machine one step: initializes a fresh state, takes what the
    /// inbound mailbox holds, delivers the queue oldest first, then asks the
    /// state to advance. A terminated machine is left as it is.
    pub fn step(&mut self) -> (r: Result<StepResult, StateMachineError>)
        requires
            old(self).wf(),
        ensures
            final(self).wf(),
            final(self).stepped_from(old(self), r),
    {
        if self.is_terminated {
            return Ok(StepResult::Terminated);
        }
        if !self.is_state_initialized {
            let mut messages = self.state.initialize();
            let ghost announced = messages@;
            let ghost before = self.calls@;
            self.calls = Ghost(self.calls@.push(StateCall::Initialize));
            self.is_state_initialized = true;
            proof {
                lemma_record_call(before, StateCall::Initialize);
                assert(old(self).calls().is_prefix_of(self.calls()));
            }
            while messages.len() > 0
                invariant
                    self.wf(),
                    self.spec_id() == old(self).spec_id(),
                    self.initialized(),
                    !self.terminated(),
                    self.calls() == before.push(StateCall::Initialize),
                    self.received() == old(self).received(),
                    self.queue() == old(self).queue(),
                    old(self).emitted().is_prefix_of(self.emitted()),
                    self.emitted() + messages@ == old(self).emitted() + announced,
                    self.current() == old(self).current(),
                decreases messages@.len(),
            {
                let m = messages.remove(0);
                let ghost gm = m;
                self.unsent.push_back(m);
                self.emitted = Ghost(self.emitted@.push(gm));
                proof {
                    assert(self.sent() + self.unsent() =~= self.emitted());
                    assert(self.emitted() + messages@ =~= old(self).emitted() + announced);
                }
            }
        }
        proof {
            if !old(self).initialized() {
                assert(self.emitted() =~= old(self).emitted() + old(self).current().spec_initialize());
            }
        }
        self.flush_outbound();
        self.receive_inbound();
        let ghost mid = *self;
        proof {
            assert(mid.arrived(old(self)) == self.arrived(old(self)));
        }
        let delivery = self.deliver_queued();
        match delivery {
            Ok(()) => {},
            Err(e) => {
                return Err(e);
            },
        }
        let ghost before = self.calls@;
        match self.state.advance() {
            Err(e) => {
                self.calls = Ghost(self.calls@.push(StateCall::Advance(Advanced::Failed)));
                proof {
                    lemma_record_call(before, StateCall::Advance(Advanced::Failed));
                    lemma_prefix_push(old(self).calls(), before, StateCall::Advance(Advanced::Failed));
                }
                Err(StateMachineError { kind: StepErrorKind::StateError, message: e })
            },
            Ok(Transition::Same) => {
                self.calls = Ghost(self.calls@.push(StateCall::Advance(Advanced::Same)));
                proof {
                    lemma_record_call(before, StateCall::Advance(Advanced::Same));
                    lemma_prefix_push(old(self).calls(), before, StateCall::Advance(Advanced::Same));
                }
                Ok(StepResult::Running)
            },
            Ok(Transition::Next(next)) => {
                self.state = next;
                self.is_state_initialized = false;
                self.calls = Ghost(self.calls@.push(StateCall::Advance(Advanced::Next)));
                proof {
                    lemma_record_call(before, StateCall::Advance(Advanced::Next));
                    lemma_prefix_push(old(self).calls(), before, StateCall::Advance(Advanced::Next));
                }
                Ok(StepResult::Running)
            },
            Ok(Transition::Terminal) => {
                self.is_terminated = true;
                self.calls = Ghost(self.calls@.push(StateCall::Advance(Advanced::Terminal)));
                proof {
                    lemma_record_call(before, StateCall::Advance(Advanced::Terminal));
                    lemma_prefix_push(old(self).calls(), before, StateCall::Advance(Advanced::Terminal));
                }
                Ok(StepResult::Terminated)
            },
        }
    }
}

/// Initialization happens once per activation and before any delivery: in
/// a machine's calls, each delivery follows an `initialize` call with no
/// transition to a new state in between, and two `initialize` calls have
/// such a transition between them.
pub proof fn lemma_machine_initializes_once<Types: StateType, S: State<Types>>(m: &StateMachine<Types, S>)
    requires
        m.wf(),
    ensures
        forall|k: int|
            0 <= k < m.calls().len() && #[trigger] m.calls()[k] is Deliver ==> exists|j: int|
                0 <= j < k && #[trigger] m.calls()[j] == StateCall::<Types::In>::Initialize && forall|l: int|
                    j < l < k ==> #[trigger] m.calls()[l] != StateCall::<Types::In>::Advance(Advanced::Next),
        forall|j: int, k: int|
            0 <= j < k < m.calls().len() && #[trigger] m.calls()[j] == StateCall::<Types::In>::Initialize
                && #[trigger] m.calls()[k] == StateCall::<Types::In>::Initialize ==> exists|l: int|
                j < l < k && #[trigger] m.calls()[l] == StateCall::<Types::In>::Advance(Advanced::Next),
{
    lemma_initialize_once(m.calls());
}

/// Messages are delivered in the order they were taken in: what was
/// delivered, followed by what is still queued, is exactly what arrived.
pub proof fn lemma_machine_delivers_in_order<Types: StateType, S: State<Types>>(m: &StateMachine<Types, S>)
    requires
        m.wf(),
    ensures
        delivered(m.calls()).is_prefix_of(m.received()),
        m.received().skip(delivered(m.calls()).len() as int) == m.queue(),
{
    assert(delivered(m.calls()) =~= m.received().subrange(0, delivered(m.calls()).len() as int));
    assert(m.received().skip(delivered(m.calls()).len() as int) =~= m.queue());
}

/// A machine is terminated exactly when its last call was an `advance` that
/// returned Terminal, and no call ever follows such an outcome.
pub proof fn lemma_machine_terminal_is_last<Types: StateType, S: State<Types>>(m: &StateMachine<Types, S>)
    requires
        m.wf(),
    ensures
        m.terminated() <==> m.calls().len() > 0 && m.calls().last() == StateCall::<Types::In>::Advance(
            Advanced::Terminal,
        ),
        forall|k: int|
            0 <= k < m.calls().len() && #[trigger] m.calls()[k] == StateCall::<Types::In>::Advance(
                Advanced::Terminal,
            ) ==> k == m.calls().len() - 1,
{
    let calls = m.calls();
    assert forall|k: int|
        0 <= k < calls.len() && #[trigger] calls[k] == StateCall::<Types::In>::Advance(
            Advanced::Terminal,
        ) implies k == calls.len() - 1 by {
        lemma_nothing_after_terminal(calls, k);
    }
    if calls.len() == 0 {
        assert(phase_of(calls) == Phase::Fresh);
    }
}

} // verus!
