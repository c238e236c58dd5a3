use std::collections::VecDeque;
use vstd::prelude::*;

use crate::message_channel::{create_channel, MessageReceiver};
use crate::state::{State, StateMachineMessage, StateType};
use crate::state_machine::{StateMachine, StateMachineError, StateMachineHandle, StateMachineId, StepResult};

verus! {

/// The character of a decimal digit (`d < 10`).
pub open spec fn digit_char(d: nat) -> char {
    seq!['0', '1', '2', '3', '4', '5', '6', '7', '8', '9'][d as int]
}

/// The decimal digits of `n`, most significant first, with no leading zero.
pub open spec fn decimal_text(n: nat) -> Seq<char>
    decreases n,
{
    if n < 10 {
        seq![digit_char(n)]
    } else {
        decimal_text(n / 10).push(digit_char(n % 10))
    }
}

proof fn lemma_digit_char_injective(a: nat, b: nat)
    requires
        a < 10,
        b < 10,
        digit_char(a) == digit_char(b),
    ensures
        a == b,
{
    let t = seq!['0', '1', '2', '3', '4', '5', '6', '7', '8', '9'];
    assert(t[0] == '0' && t[1] == '1' && t[2] == '2' && t[3] == '3' && t[4] == '4');
    assert(t[5] == '5' && t[6] == '6' && t[7] == '7' && t[8] == '8' && t[9] == '9');
}

/// Distinct numbers have distinct decimal texts.
pub proof fn lemma_decimal_text_injective(a: nat, b: nat)
    requires
        decimal_text(a) == decimal_text(b),
    ensures
        a == b,
    decreases a,
{
    if a < 10 && b < 10 {
        assert(decimal_text(a)[0] == digit_char(a));
        lemma_digit_char_injective(a, b);
    } else if a >= 10 && b >= 10 {
        let (ta, tb) = (decimal_text(a), decimal_text(b));
        assert(ta.last() == digit_char(a % 10));
        assert(tb.last() == digit_char(b % 10));
        lemma_digit_char_injective(a % 10, b % 10);
        assert(ta.drop_last() =~= decimal_text(a / 10));
        assert(tb.drop_last() =~= decimal_text(b / 10));
        lemma_decimal_text_injective(a / 10, b / 10);
    } else {
        lemma_decimal_text_len(a);
        lemma_decimal_text_len(b);
    }
}

proof fn lemma_decimal_text_len(n: nat)
    ensures
        n < 10 ==> decimal_text(n).len() == 1,
        n >= 10 ==> decimal_text(n).len() >= 2,
    decreases n,
{
    if n >= 10 {
        lemma_decimal_text_len(n / 10);
    }
}

/// Relies on `ToString::to_string` for `u64`, which writes an integer's
/// `Display` form: its decimal digits with no sign and no leading zero.
#[verifier::external_body]
fn id_text(n: u64) -> (r: String)
    ensures
        r@ == decimal_text(n as nat),
{
    n.to_string()
}

/// Owns machines, routes inbound messages to them and dispatches what they
/// send out.
pub trait StateMachineOrchestrator<Types: StateType, S: State<Types>> {
    /// The orchestrator's own invariant.
    spec fn inv(&self) -> bool;

    /// Whether one more machine can get a fresh identifier.
    spec fn has_room(&self) -> bool;

    /// What `create_machine(state)` did, from `before` to `self`, returning
    /// the identifier `id`.
    spec fn created(&self, before: &Self, state: S, id: Seq<char>) -> bool;

    /// What `handle_message(message)` did, from `before` to `self`, with
    /// `key` the identifier that `message` names.
    spec fn handled(&self, before: &Self, key: Seq<char>, message: Types::In) -> bool;

    /// What `step_machine` did for the machine named `key`.
    spec fn stepped(&self, before: &Self, key: Seq<char>) -> bool;

    fn create_machine(&mut self, state: S) -> (r: (StateMachineId, StateMachineHandle<Types::In>))
        requires
            old(self).inv(),
            old(self).has_room(),
        ensures
            final(self).inv(),
            final(self).created(old(self), state, r.0@),
    ;

    fn handle_message(&mut self, message: Types::In)
        requires
            old(self).inv(),
        ensures
            final(self).inv(),
            final(self).handled(old(self), message.spec_key(), message),
    ;

    fn step_machine(&mut self, machine_id: &String)
        requires
            old(self).inv(),
        ensures
            final(self).inv(),
            final(self).stepped(old(self), machine_id@),
    ;
}

/// One registered machine, the handle that feeds it and its outbound mailbox.
pub type Entry<Types, S> = (
    StateMachine<Types, S>,
    StateMachineHandle<<Types as StateType>::In>,
    MessageReceiver<<Types as StateType>::Out>,
);

#[verifier::reject_recursive_types(Types)]
#[verifier::reject_recursive_types(S)]
#[verifier::reject_recursive_types(H)]
pub struct SimpleMachineOrchestrator<Types: StateType, S: State<Types>, H: Fn(Types::Out)> {
    next_id: u64,
    machines: Vec<Entry<Types, S>>,
    commands: VecDeque<Types::Out>,
    command_handler: H,
    collected: Ghost<Seq<Types::Out>>,
    dispatched: Ghost<Seq<Types::Out>>,
}

impl<Types: StateType, S: State<Types>, H: Fn(Types::Out)> SimpleMachineOrchestrator<Types, S, H> {
    /// Number of registered machines.
    pub open spec fn len(&self) -> nat {
        self.machines().len()
    }

    /// The registered machines, in registration order.
    pub closed spec fn machines(&self) -> Seq<StateMachine<Types, S>> {
        self.machines@.map_values(|e: Entry<Types, S>| e.0)
    }

    pub closed spec fn handler(&self) -> H {
        self.command_handler
    }

    /// Every outbound message taken from the machines' mailboxes, in order.
    pub closed spec fn collected(&self) -> Seq<Types::Out> {
        self.collected@
    }

    /// Every outbound message handed to the command handler, in order.
    pub closed spec fn dispatched(&self) -> Seq<Types::Out> {
        self.dispatched@
    }

    /// Outbound messages taken but not yet dispatched.
    pub closed spec fn pending(&self) -> Seq<Types::Out> {
        self.commands@
    }

    pub closed spec fn next_id(&self) -> u64 {
        self.next_id
    }

    pub open spec fn has_id(&self, key: Seq<char>) -> bool {
        exists|i: int| 0 <= i < self.len() && self.machines()[i].spec_id() == key
    }

    /// Machine `i` is named by the decimal text of `i`; every machine is
    /// well formed; the handler takes any command; what was taken from the
    /// mailboxes and not dispatched is pending, in order.
    pub open spec fn wf_pending(&self) -> bool {
        &&& self.next_id() == self.len()
        &&& forall|i: int| 0 <= i < self.len() ==> #[trigger] self.machines()[i].wf()
        &&& forall|i: int|
            0 <= i < self.len() ==> #[trigger] self.machines()[i].spec_id() == decimal_text(i as nat)
        &&& forall|c: Types::Out| #[trigger] self.handler().requires((c,))
        &&& self.dispatched() + self.pending() == self.collected()
    }

    /// The invariant between calls: as `wf_pending`, with nothing pending, so
    /// that every command taken has reached the handler.
    pub open spec fn wf(&self) -> bool {
        &&& self.wf_pending()
        &&& self.pending().len() == 0
    }

    /// What `create_machine(state)` did, from `before` to `self`, returning the
    /// identifier `id`.
    pub open spec fn created_call(&self, before: &Self, state: S, id: Seq<char>) -> bool {
        &&& self.len() == before.len() + 1
        &&& self.handler() == before.handler()
        &&& forall|j: int| 0 <= j < before.len() ==> #[trigger] self.machines()[j] == before.machines()[j]
        &&& id == decimal_text(before.next_id() as nat)
        &&& self.machines()[before.len() as int].spec_id() == id
        &&& self.machines()[before.len() as int].current() == state
        &&& !self.machines()[before.len() as int].initialized()
        &&& !self.machines()[before.len() as int].terminated()
        &&& self.machines()[before.len() as int].calls().len() == 0
        &&& self.machines()[before.len() as int].received().len() == 0
        &&& self.dispatched() == before.dispatched()
        &&& self.collected() == before.collected()
    }

    /// What routing `message` under `key` and dispatching did, from `before`
    /// to `self`.
    pub open spec fn handled_call(&self, before: &Self, key: Seq<char>, message: Types::In) -> bool {
        &&& self.next_id() == before.next_id()
        &&& self.handler() == before.handler()
        &&& self.routed(before, key, message)
        &&& before.collected().is_prefix_of(self.collected())
        &&& self.dispatched() == self.collected()
    }

    /// What stepping the machine named `key` and dispatching did, from
    /// `before` to `self`.
    pub open spec fn stepped_call(&self, before: &Self, key: Seq<char>) -> bool {
        &&& self.len() == before.len()
        &&& self.next_id() == before.next_id()
        &&& self.handler() == before.handler()
        &&& forall|j: int|
            0 <= j < before.len() && before.machines()[j].spec_id() != key
                ==> #[trigger] self.machines()[j] == before.machines()[j]
        &&& !before.has_id(key) ==> self.same_machines(before)
            && self.dispatched() == before.dispatched()
            && self.collected() == before.collected()
        &&& before.has_id(key) ==> exists|i: int|
            0 <= i < before.len() && #[trigger] before.machines()[i].spec_id() == key
                && exists|r: Result<StepResult, StateMachineError>|
                #[trigger] self.machines()[i].stepped_from(&before.machines()[i], r)
        &&& before.collected().is_prefix_of(self.collected())
        &&& self.dispatched() == self.collected()
    }

    /// Machine `j` went through exactly one step since `before`.
    pub open spec fn stepped_at(&self, before: &Self, j: int) -> bool {
        exists|r: Result<StepResult, StateMachineError>|
            #[trigger] self.machines()[j].stepped_from(&before.machines()[j], r)
    }

    /// Machines at the same positions, each unchanged.
    pub open spec fn same_machines(&self, other: &Self) -> bool {
        &&& self.len() == other.len()
        &&& forall|j: int| 0 <= j < self.len() ==> #[trigger] self.machines()[j] == other.machines()[j]
    }

    /// No two registered machines share an identifier, so routing by
    /// identifier reaches at most one machine.
    pub proof fn lemma_ids_distinct(&self)
        requires
            self.wf(),
        ensures
            forall|i: int, j: int|
                0 <= i < self.len() && 0 <= j < self.len() && i != j ==> #[trigger] self.machines()[i].spec_id()
                    != #[trigger] self.machines()[j].spec_id(),
    {
        assert forall|i: int, j: int|
            0 <= i < self.len() && 0 <= j < self.len() && i != j implies #[trigger] self.machines()[i].spec_id()
                != #[trigger] self.machines()[j].spec_id() by {
            if self.machines()[i].spec_id() == self.machines()[j].spec_id() {
                lemma_decimal_text_injective(i as nat, j as nat);
            }
        }
    }

    /// An orchestrator with no machines that hands each outbound message to
    /// `command_handler`.
    pub fn new(command_handler: H) -> (r: Self)
        requires
            forall|c: Types::Out| #[trigger] command_handler.requires((c,)),
        ensures
            r.wf(),
            r.len() == 0,
            r.handler() == command_handler,
            r.pending().len() == 0,
            r.dispatched().len() == 0,
    {
        let r = SimpleMachineOrchestrator {
            next_id: 0,
            machines: Vec::new(),
            commands: VecDeque::new(),
            command_handler,
            collected: Ghost(Seq::empty()),
            dispatched: Ghost(Seq::empty()),
        };
        proof {
            assert(r.dispatched() + r.pending() =~= r.collected());
        }
        r
    }
    /// Position of the first machine named `key`.
    fn find(&self, key: &String) -> (r: Option<usize>)
        ensures
            r matches Some(i) ==> i < self.len() && self.machines()[i as int].spec_id() == key@,
            r is None ==> !self.has_id(key@),
    {
        let mut i: usize = 0;
        while i < self.machines.len()
            invariant
                i <= self.len(),
                forall|j: int| 0 <= j < i ==> #[trigger] self.machines()[j].spec_id() != key@,
            decreases self.len() - i,
        {
            if self.machines[i].0.id().eq(key) {
                return Some(i);
            }
            i = i + 1;
        }
        None
    }

    /// Gives machine `i` the message, if any, steps it and takes what its
    /// outbound mailbox holds into the pending commands.
    fn step_entry(&mut self, i: usize, message: Option<Types::In>)
        requires
            old(self).wf_pending(),
            i < old(self).len(),
        ensures
            final(self).wf_pending(),
            final(self).len() == old(self).len(),
            final(self).handler() == old(self).handler(),
            forall|j: int|
                0 <= j < old(self).len() && j != i ==> #[trigger] final(self).machines()[j] == old(self).machines()[j],
            final(self).machines()[i as int].spec_id() == old(self).machines()[i as int].spec_id(),
            old(self).machines()[i as int].calls().is_prefix_of(final(self).machines()[i as int].calls()),
            !old(self).machines()[i as int].terminated() ==> final(self).machines()[i as int].calls().len()
                > old(self).machines()[i as int].calls().len(),
            message is Some && !old(self).machines()[i as int].terminated() ==> final(self).machines()[i as int].received().contains(message->Some_0),
            message is None ==> exists|r: Result<StepResult, StateMachineError>|
                #[trigger] final(self).machines()[i as int].stepped_from(&old(self).machines()[i as int], r),
            message is Some ==> exists|e: StateMachine<Types, S>, r: Result<StepResult, StateMachineError>|
                #[trigger] e.enqueued_from(&old(self).machines()[i as int], message->Some_0)
                    && #[trigger] final(self).machines()[i as int].stepped_from(&e, r),
            final(self).dispatched() == old(self).dispatched(),
            old(self).collected().is_prefix_of(final(self).collected()),
    {
        let ghost before = self.machines@;
        proof {
            assert(old(self).machines()[i as int].wf());
        }
        let mut entry = self.machines.remove(i);
        match message {
            Some(m) => {
                entry.0.enqueue(m);
            },
            None => {},
        }
        let ghost enqueued = entry.0;
        let stepped = entry.0.step();
        let ghost outcome = stepped;
        proof {
            if message is Some && !before[i as int].0.terminated() {
                let n = enqueued.received().len() - 1;
                assert(entry.0.received()[n] == enqueued.received()[n]);
            }
        }
        let mut taken = entry.2.receive_all();
        self.machines.insert(i, entry);
        proof {
            assert(self.machines@ =~= before.update(i as int, entry));
            assert(self.machines() =~= old(self).machines().update(i as int, entry.0));
            assert(self.machines()[i as int].stepped_from(&enqueued, outcome));
            if message is None {
                assert(enqueued == old(self).machines()[i as int]);
            }
            assert(old(self).machines()[i as int].spec_id() == decimal_text(i as nat));
            assert(self.handler() == old(self).handler());
            assert(forall|j: int| 0 <= j < self.len() && j != i ==> self.machines()[j] == old(self).machines()[j]);
        }
        let ghost mid = *self;
        while taken.len() > 0
            invariant
                self.wf_pending(),
                self.same_machines(&mid),
                self.handler() == old(self).handler(),
                self.dispatched() == old(self).dispatched(),
                old(self).collected().is_prefix_of(self.collected()),
            decreases taken@.len(),
        {
            let c = taken.remove(0);
            let ghost gc = c;
            self.commands.push_back(c);
            self.collected = Ghost(self.collected@.push(gc));
            proof {
                assert(self.dispatched() + self.pending() =~= self.collected());
                assert(old(self).collected() =~= self.collected().subrange(0, old(self).collected().len() as int));
            }
        }
        proof {
            assert(self.machines()[i as int] == mid.machines()[i as int]);
            assert(self.machines()[i as int].stepped_from(&enqueued, outcome));
        }
    }

    /// Hands every pending command to the handler, oldest first.
    fn dispatch_pending(&mut self)
        requires
            old(self).wf_pending(),
        ensures
            final(self).wf(),
            final(self).same_machines(old(self)),
            final(self).collected() == old(self).collected(),
            final(self).dispatched() == old(self).dispatched() + old(self).pending(),
            final(self).handler() == old(self).handler(),
            final(self).next_id() == old(self).next_id(),
    {
        while self.commands.len() > 0
            invariant
                self.wf_pending(),
                self.same_machines(old(self)),
                self.handler() == old(self).handler(),
                self.next_id() == old(self).next_id(),
                self.collected() == old(self).collected(),
            decreases self.commands@.len(),
        {
            match self.commands.pop_front() {
                Some(c) => {
                    let ghost gc = c;
                    self.dispatched = Ghost(self.dispatched@.push(gc));
                    proof {
                        assert(self.dispatched() + self.pending() =~= self.collected());
                        assert(self.handler().requires((gc,)));
                    }
                    (self.command_handler)(c);

                },
                None => {},
            }
        }
        proof {
            assert(self.dispatched() =~= self.collected());
            assert(self.collected() =~= old(self).dispatched() + old(self).pending());
        }
    }

    /// Registers a machine in `state` under the next decimal identifier.
    /// Returns that identifier and a handle that sends messages to it.
    pub fn create_machine(&mut self, state: S) -> (r: (StateMachineId, StateMachineHandle<Types::In>))
        requires
            old(self).wf(),
            old(self).next_id() < u64::MAX,
        ensures
            final(self).wf(),
            final(self).created_call(old(self), state, r.0@),
    {
        let machine_id = id_text(self.next_id);
        let (tx, rx) = create_channel::<Types::Out>();
        let (machine, inbound_channel) = StateMachine::new(machine_id.clone(), tx, state);
        let handle = inbound_channel.clone();
        let ghost added = machine;
        self.machines.push((machine, inbound_channel, rx));
        self.next_id = self.next_id + 1;
        proof {
            assert(self.machines() =~= old(self).machines().push(added));
            assert(self.handler() == old(self).handler());
        }
        (machine_id, handle)
    }

    /// What routing `message` under `key` did, from `before` to `self`: only
    /// machines named `key` may change; with no such machine nothing changed
    /// and nothing was dispatched; otherwise one of them took the message,
    /// unless it had terminated.
    pub open spec fn routed(&self, before: &Self, key: Seq<char>, message: Types::In) -> bool {
        &&& self.len() == before.len()
        &&& forall|j: int|
            0 <= j < before.len() && before.machines()[j].spec_id() != key ==> #[trigger] self.machines()[j]
                == before.machines()[j]
        &&& !before.has_id(key) ==> self.same_machines(before) && self.dispatched() == before.dispatched()
            && self.collected() == before.collected()
        &&& before.has_id(key) ==> exists|i: int|
            0 <= i < before.len() && #[trigger] before.machines()[i].spec_id() == key && (
            before.machines()[i].terminated() || self.machines()[i].received().contains(message)) && exists|
                e: StateMachine<Types, S>,
                r: Result<StepResult, StateMachineError>,
            |
                #[trigger] e.enqueued_from(&before.machines()[i], message)
                    && #[trigger] self.machines()[i].stepped_from(&e, r)
    }

    /// Gives `message` to the machine named `key`, steps that machine and
    /// dispatches what it sent out. With no machine of that name the message
    /// is dropped.
    pub fn route_message(&mut self, key: &String, message: Types::In)
        requires
            old(self).wf(),
        ensures
            final(self).wf(),
            final(self).next_id() == old(self).next_id(),
            final(self).handler() == old(self).handler(),
            final(self).routed(old(self), key@, message),
            old(self).collected().is_prefix_of(final(self).collected()),
            final(self).dispatched() == final(self).collected(),
    {
        match self.find(key) {
            None => {
                self.dispatch_pending();
            },
            Some(i) => {
                let ghost m = message;
                self.step_entry(i, Some(message));
                let ghost mid = *self;
                self.dispatch_pending();
                proof {
                    assert(old(self).machines()[i as int].spec_id() == key@);
                    assert(self.machines()[i as int] == mid.machines()[i as int]);
                    let (e, r) = choose|e: StateMachine<Types, S>, r: Result<StepResult, StateMachineError>|
                        #[trigger] e.enqueued_from(&old(self).machines()[i as int], m)
                            && #[trigger] mid.machines()[i as int].stepped_from(&e, r);
                    assert(self.machines()[i as int].stepped_from(&e, r));
                }
            },
        }
        proof {
            assert(self.dispatched() =~= self.collected());
        }
    }

    /// Routes `message` by the identifier it names, as `route_message` does.
    pub fn handle_message(&mut self, message: Types::In)
        requires
            old(self).wf(),
        ensures
            final(self).wf(),
            final(self).handled_call(old(self), message.spec_key(), message),
    {
        let key = message.id().clone();
        self.route_message(&key, message);
    }

    /// Steps the machine named `machine_id`, if there is one, and dispatches
    /// what it sent out.
    pub fn step_machine(&mut self, machine_id: &String)
        requires
            old(self).wf(),
        ensures
            final(self).wf(),
            final(self).stepped_call(old(self), machine_id@),
    {
        match self.find(machine_id) {
            None => {
                self.dispatch_pending();
            },
            Some(i) => {
                self.step_entry(i, None);
                let ghost mid = *self;
                self.dispatch_pending();
                proof {
                    assert(self.machines()[i as int] == mid.machines()[i as int]);
                    let r = choose|r: Result<StepResult, StateMachineError>|
                        #[trigger] mid.machines()[i as int].stepped_from(&old(self).machines()[i as int], r);
                    assert(self.machines()[i as int].stepped_from(&old(self).machines()[i as int], r));
                }
            },
        }
        proof {
            assert(self.dispatched() =~= self.collected());
        }
    }

    /// The machine named `id`, if one is registered.
    pub fn get_state_machine(&self, id: &StateMachineId) -> (r: Option<&StateMachine<Types, S>>)
        ensures
            r is None <==> !self.has_id(id@),
            r matches Some(m) ==> m.spec_id() == id@ && exists|i: int|
                0 <= i < self.len() && #[trigger] self.machines()[i] == *m,
    {
        match self.find(id) {
            None => None,
            Some(i) => {
                Some(&self.machines[i].0)
            },
        }
    }

    /// Steps every machine once, in registration order, then dispatches
    /// everything they sent out.
    pub fn step_all_machines(&mut self)
        requires
            old(self).wf(),
        ensures
            final(self).wf(),
            final(self).len() == old(self).len(),
            final(self).next_id() == old(self).next_id(),
            final(self).handler() == old(self).handler(),
            forall|j: int| 0 <= j < old(self).len() ==> #[trigger] final(self).stepped_at(old(self), j),
            old(self).len() == 0 ==> final(self).dispatched() == old(self).dispatched(),
            old(self).collected().is_prefix_of(final(self).collected()),
            final(self).dispatched() == final(self).collected(),
    {
        let mut i: usize = 0;
        while i < self.machines.len()
            invariant
                self.wf_pending(),
                i <= self.len(),
                self.len() == old(self).len(),
                self.next_id() == old(self).next_id(),
                self.handler() == old(self).handler(),
                self.dispatched() == old(self).dispatched(),
                old(self).collected().is_prefix_of(self.collected()),
                old(self).len() == 0 ==> self.collected() == old(self).collected(),
                forall|j: int| i <= j < self.len() ==> #[trigger] self.machines()[j] == old(self).machines()[j],
                forall|j: int| 0 <= j < i ==> #[trigger] self.stepped_at(old(self), j),
            decreases self.len() - i,
        {
            let ghost mid = *self;
            self.step_entry(i, None);
            proof {
                assert(mid.collected().is_prefix_of(self.collected()));
                assert(old(self).collected() =~= self.collected().subrange(0, old(self).collected().len() as int));
                assert forall|j: int| 0 <= j < i + 1 implies #[trigger] self.stepped_at(old(self), j) by {
                    if j < i {
                        assert(self.machines()[j] == mid.machines()[j]);
                        assert(mid.stepped_at(old(self), j));
                    } else {
                        assert(mid.machines()[j] == old(self).machines()[j]);
                    }
                }
                assert(mid.machines()[i as int] == old(self).machines()[i as int]);
            }
            i = i + 1;
        }
        let ghost pre = *self;
        self.dispatch_pending();
        proof {
            assert forall|j: int| 0 <= j < old(self).len() implies #[trigger] self.stepped_at(old(self), j) by {
                assert(self.machines()[j] == pre.machines()[j]);
                assert(pre.stepped_at(old(self), j));
            }
        }
        proof {
            assert(self.dispatched() =~= self.collected());
        }
    }
}

impl<Types: StateType, S: State<Types>, H: Fn(Types::Out)> StateMachineOrchestrator<
    Types,
    S,
> for SimpleMachineOrchestrator<Types, S, H> {
    open spec fn inv(&self) -> bool {
        self.wf()
    }

    open spec fn has_room(&self) -> bool {
        self.next_id() < u64::MAX
    }

    open spec fn created(&self, before: &Self, state: S, id: Seq<char>) -> bool {
        self.created_call(before, state, id)
    }

    open spec fn handled(&self, before: &Self, key: Seq<char>, message: Types::In) -> bool {
        self.handled_call(before, key, message)
    }

    open spec fn stepped(&self, before: &Self, key: Seq<char>) -> bool {
        self.stepped_call(before, key)
    }

    fn create_machine(&mut self, state: S) -> (r: (StateMachineId, StateMachineHandle<Types::In>)) {
        SimpleMachineOrchestrator::create_machine(self, state)
    }

    fn handle_message(&mut self, message: Types::In) {
        SimpleMachineOrchestrator::handle_message(self, message)
    }

    fn step_machine(&mut self, machine_id: &String) {
        SimpleMachineOrchestrator::step_machine(self, machine_id)
    }
}

} // verus!
