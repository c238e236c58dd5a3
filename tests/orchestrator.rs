use std::cell::RefCell;
use std::rc::Rc;

use fsm_runtime::state::{AsVariant, DeliveryStatus, NoMessage, State, StateMachineMessage, StateType, Transition};
use fsm_runtime::state_machine_orchestrator::SimpleMachineOrchestrator;

#[derive(Debug, PartialEq)]
pub struct Red {
    count: u64,
}

#[derive(Clone, Debug, PartialEq)]
pub struct Message {
    machine_id: String,
}

impl StateMachineMessage for Message {
    fn id(&self) -> &String {
        &self.machine_id
    }

    fn unpack(self) -> Self {
        self
    }
}

pub struct Types {}

impl StateType for Types {
    type In = Message;
    type Out = NoMessage;
}

impl State<Types> for Red {
    fn initialize(&self) -> Vec<NoMessage> {
        vec![]
    }

    fn deliver(&mut self, _message: Message) -> DeliveryStatus<Message, String> {
        self.count += 1;
        DeliveryStatus::Delivered
    }

    fn advance(&self) -> Result<Transition<Red>, String> {
        Ok(Transition::Same)
    }
}

impl AsVariant<Red> for Red {
    fn as_variant(&self) -> Option<&Red> {
        Some(self)
    }
}

#[derive(Clone, Debug, PartialEq)]
pub enum Commands {
    StartFoo { id: String },
    StartBar { id: String },
    StartBaz { id: String },
}

impl StateMachineMessage for Commands {
    fn id(&self) -> &String {
        match self {
            Commands::StartFoo { id } => id,
            Commands::StartBar { id } => id,
            Commands::StartBaz { id } => id,
        }
    }

    fn unpack(self) -> Self {
        self
    }
}

pub struct TypesWithCommands {}

impl StateType for TypesWithCommands {
    type In = Message;
    type Out = Commands;
}

#[derive(Debug, PartialEq)]
pub enum CommandStage {
    One,
    Two,
    Three,
}

impl State<TypesWithCommands> for CommandStage {
    fn initialize(&self) -> Vec<Commands> {
        match self {
            CommandStage::One => vec![Commands::StartFoo { id: "".to_string() }],
            CommandStage::Two => vec![Commands::StartBar { id: "".to_string() }],
            CommandStage::Three => vec![Commands::StartBaz { id: "".to_string() }],
        }
    }

    fn deliver(&mut self, _message: Message) -> DeliveryStatus<Message, String> {
        DeliveryStatus::Delivered
    }

    fn advance(&self) -> Result<Transition<CommandStage>, String> {
        match self {
            CommandStage::One => Ok(Transition::Next(CommandStage::Two)),
            CommandStage::Two => Ok(Transition::Next(CommandStage::Three)),
            CommandStage::Three => Ok(Transition::Terminal),
        }
    }
}

fn recording_orchestrator() -> (
    SimpleMachineOrchestrator<TypesWithCommands, CommandStage, impl Fn(Commands)>,
    Rc<RefCell<Vec<Commands>>>,
) {
    let commands = Rc::new(RefCell::new(vec![]));
    let handler_commands = commands.clone();
    let handler = move |v: Commands| {
        handler_commands.borrow_mut().push(v);
    };
    (SimpleMachineOrchestrator::new(handler), commands)
}

fn count_of(orchestrator: &SimpleMachineOrchestrator<Types, Red, impl Fn(NoMessage)>, id: &String) -> u64 {
    let machine = orchestrator.get_state_machine(id).unwrap();
    machine.downcast_state::<Red>().unwrap().count
}

#[test]
fn it_routes_messages() {
    let mut orchestrator = SimpleMachineOrchestrator::<Types, Red, _>::new(|_: NoMessage| {});

    let (id_one, _) = orchestrator.create_machine(Red { count: 0 });
    let (id_static, _) = orchestrator.create_machine(Red { count: 0 });

    orchestrator.handle_message(Message { machine_id: id_one.clone() });
    orchestrator.handle_message(Message { machine_id: id_one.clone() });

    assert_eq!(count_of(&orchestrator, &id_one), 2);
    assert_eq!(count_of(&orchestrator, &id_static), 0);
}

#[test]
fn it_routes_passes_commands() {
    let (mut orchestrator, commands) = recording_orchestrator();

    let (id_one, _) = orchestrator.create_machine(CommandStage::One);

    orchestrator.step_machine(&id_one);

    assert_eq!(commands.borrow_mut().len(), 1);
    assert_eq!(commands.borrow_mut().pop(), Some(Commands::StartFoo { id: "".to_string() }));

    orchestrator.step_machine(&id_one);

    assert_eq!(commands.borrow_mut().len(), 1);
    assert_eq!(commands.borrow_mut().pop(), Some(Commands::StartBar { id: "".to_string() }));

    orchestrator.step_machine(&id_one);

    assert_eq!(commands.borrow_mut().len(), 1);
    assert_eq!(commands.borrow_mut().pop(), Some(Commands::StartBaz { id: "".to_string() }));
}

#[test]
fn three_stages_emit_foo_bar_baz_then_terminate() {
    let (mut orchestrator, commands) = recording_orchestrator();
    let (id, _) = orchestrator.create_machine(CommandStage::One);
    orchestrator.step_machine(&id);
    orchestrator.step_machine(&id);
    orchestrator.step_machine(&id);
    assert_eq!(
        *commands.borrow(),
        vec![
            Commands::StartFoo { id: "".to_string() },
            Commands::StartBar { id: "".to_string() },
            Commands::StartBaz { id: "".to_string() },
        ]
    );
    assert_eq!(orchestrator.get_state_machine(&id).unwrap().state(), &CommandStage::Three);
    assert!(orchestrator.get_state_machine(&id).unwrap().is_terminated());
    // stepping the terminated machine again sends nothing more
    orchestrator.step_machine(&id);
    orchestrator.handle_message(Message { machine_id: id.clone() });
    assert_eq!(commands.borrow().len(), 3);
    assert_eq!(orchestrator.get_state_machine(&id).unwrap().state(), &CommandStage::Three);
}

#[test]
fn a_message_for_an_unknown_machine_changes_nothing() {
    let (mut orchestrator, commands) = recording_orchestrator();
    let (id, _) = orchestrator.create_machine(CommandStage::One);
    orchestrator.handle_message(Message { machine_id: "no such machine".to_string() });
    assert_eq!(commands.borrow().len(), 0);
    assert_eq!(orchestrator.get_state_machine(&id).unwrap().state(), &CommandStage::One);
    orchestrator.step_machine(&"42".to_string());
    assert_eq!(commands.borrow().len(), 0);
}

#[test]
fn machine_ids_count_up_from_zero() {
    let mut orchestrator = SimpleMachineOrchestrator::<Types, Red, _>::new(|_: NoMessage| {});
    let (a, _) = orchestrator.create_machine(Red { count: 0 });
    let (b, _) = orchestrator.create_machine(Red { count: 0 });
    let (c, _) = orchestrator.create_machine(Red { count: 0 });
    assert_eq!((a.as_str(), b.as_str(), c.as_str()), ("0", "1", "2"));
    assert_eq!(orchestrator.get_state_machine(&b).unwrap().id(), &"1".to_string());
    assert!(orchestrator.get_state_machine(&"3".to_string()).is_none());
}

#[test]
fn step_all_machines_steps_each_once_and_dispatches_everything() {
    let (mut orchestrator, commands) = recording_orchestrator();
    let (first, _) = orchestrator.create_machine(CommandStage::One);
    let (second, _) = orchestrator.create_machine(CommandStage::Two);
    orchestrator.step_all_machines();
    assert_eq!(
        *commands.borrow(),
        vec![Commands::StartFoo { id: "".to_string() }, Commands::StartBar { id: "".to_string() }]
    );
    assert_eq!(orchestrator.get_state_machine(&first).unwrap().state(), &CommandStage::Two);
    assert_eq!(orchestrator.get_state_machine(&second).unwrap().state(), &CommandStage::Three);
}

#[test]
fn a_handle_from_create_machine_feeds_that_machine() {
    let mut orchestrator = SimpleMachineOrchestrator::<Types, Red, _>::new(|_: NoMessage| {});
    let (id, handle) = orchestrator.create_machine(Red { count: 0 });
    handle.send(Message { machine_id: id.clone() }).unwrap();
    handle.clone().send(Message { machine_id: id.clone() }).unwrap();
    orchestrator.step_machine(&id);
    assert_eq!(count_of(&orchestrator, &id), 2);
    // a routed message comes after those already in the mailbox
    handle.send(Message { machine_id: id.clone() }).unwrap();
    orchestrator.handle_message(Message { machine_id: id.clone() });
    assert_eq!(count_of(&orchestrator, &id), 4);
}

#[derive(Debug, PartialEq)]
pub struct Announcer {}

impl State<TypesWithCommands> for Announcer {
    fn initialize(&self) -> Vec<Commands> {
        vec![
            Commands::StartFoo { id: "a".to_string() },
            Commands::StartBar { id: "b".to_string() },
            Commands::StartBaz { id: "c".to_string() },
        ]
    }

    fn deliver(&mut self, _message: Message) -> DeliveryStatus<Message, String> {
        DeliveryStatus::Delivered
    }

    fn advance(&self) -> Result<Transition<Announcer>, String> {
        Ok(Transition::Same)
    }
}

fn announcing_orchestrator() -> (
    SimpleMachineOrchestrator<TypesWithCommands, Announcer, impl Fn(Commands)>,
    Rc<RefCell<Vec<Commands>>>,
) {
    let commands = Rc::new(RefCell::new(vec![]));
    let handler_commands = commands.clone();
    let handler = move |v: Commands| {
        handler_commands.borrow_mut().push(v);
    };
    (SimpleMachineOrchestrator::new(handler), commands)
}

#[test]
fn commands_of_one_call_reach_the_handler_in_order() {
    let (mut orchestrator, commands) = announcing_orchestrator();
    let (id, _) = orchestrator.create_machine(Announcer {});
    orchestrator.handle_message(Message { machine_id: id.clone() });
    assert_eq!(
        *commands.borrow(),
        vec![
            Commands::StartFoo { id: "a".to_string() },
            Commands::StartBar { id: "b".to_string() },
            Commands::StartBaz { id: "c".to_string() },
        ]
    );
}

#[test]
fn initialize_runs_once_while_the_state_stays() {
    let (mut orchestrator, commands) = announcing_orchestrator();
    let (id, _) = orchestrator.create_machine(Announcer {});
    orchestrator.step_machine(&id);
    orchestrator.step_machine(&id);
    orchestrator.handle_message(Message { machine_id: id.clone() });
    orchestrator.step_all_machines();
    assert_eq!(commands.borrow().len(), 3);
}

#[test]
fn route_message_uses_the_key_given() {
    let mut orchestrator = SimpleMachineOrchestrator::<Types, Red, _>::new(|_: NoMessage| {});
    let (a, _) = orchestrator.create_machine(Red { count: 0 });
    let (b, _) = orchestrator.create_machine(Red { count: 0 });
    orchestrator.route_message(&b, Message { machine_id: a.clone() });
    assert_eq!(count_of(&orchestrator, &a), 0);
    assert_eq!(count_of(&orchestrator, &b), 1);
}
