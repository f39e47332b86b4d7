//! A plugin's life in a host: creating it, running audio through it, and taking it down.
//!
//! Each of these is a dance of calls through the plugin's interfaces. The application makes
//! the calls; which comes next, and what an answer means, is decided here.

use vstd::prelude::*;
use vstd::string::*;

use crate::host::{HostError, RESULT_OK};

verus! {

/// How a plugin comes by its controller.
#[derive(Clone, Copy, PartialEq, Eq, Debug, Structural)]
pub enum Controller {
    /// There is none, which is legal, if unusual.
    Missing,
    /// One object implements both interfaces.
    Same,
    /// The controller is a second object, as in most plugins.
    Separate,
}

/// What a host does next to bring a plugin up.
///
/// Most VST3 plugins are two classes, a processor and a separate controller, and the host is
/// responsible for creating the second, initialising it, handing it the processor's state and
/// connecting the pair. A minority are single-component effects where one object implements
/// both, which is found out first because no second instance is needed.
#[derive(Debug)]
pub enum Step {
    /// Look the class up.
    ClassInfo(i32),
    /// Create an instance of it.
    CreateComponent,
    /// Initialise the instance.
    Initialize,
    /// See whether it is a controller itself.
    FindController,
    /// Ask it which class its controller has.
    ControllerId,
    /// Create an instance of that.
    CreateController,
    /// Initialise the controller, whatever it answers.
    InitController,
    /// Read the processor's state.
    GetState,
    /// Hand it to the controller, so the UI shows the right values, whatever it answers.
    SetState,
    /// Connect the pair to each other, as far as both can be.
    Connect,
    /// The plugin is up.
    Done(Controller),
    /// It cannot be brought up.
    Failed(HostError),
}

/// The answer to a call: its result, and whether an object came of it.
#[derive(Clone, Copy, PartialEq, Eq, Debug, Structural)]
pub struct Answer {
    pub result: i32,
    pub object: bool,
}

impl Answer {
    /// The call went well.
    pub open spec fn ok(self) -> bool {
        self.result == RESULT_OK
    }
}

impl Step {
    /// What follows a step, given the answer to it.
    pub open spec fn after(self, answer: Answer) -> Step {
        match self {
            Step::ClassInfo(index) => if answer.ok() {
                Step::CreateComponent
            } else {
                Step::Failed(HostError::NoSuchClass(index))
            },
            Step::CreateComponent => if answer.ok() && answer.object {
                Step::Initialize
            } else {
                Step::Failed(HostError::CreateFailed(answer.result))
            },
            Step::Initialize => if answer.ok() {
                Step::FindController
            } else {
                Step::Failed(HostError::Call("initialize", answer.result))
            },
            Step::FindController => if answer.object {
                Step::Done(Controller::Same)
            } else {
                Step::ControllerId
            },
            Step::ControllerId => if answer.ok() {
                Step::CreateController
            } else {
                Step::Done(Controller::Missing)
            },
            Step::CreateController => if answer.ok() && answer.object {
                Step::InitController
            } else {
                Step::Done(Controller::Missing)
            },
            Step::InitController => Step::GetState,
            Step::GetState => if answer.ok() {
                Step::SetState
            } else {
                Step::Connect
            },
            Step::SetState => Step::Connect,
            Step::Connect => Step::Done(Controller::Separate),
            Step::Done(c) => Step::Done(c),
            Step::Failed(e) => Step::Failed(e),
        }
    }

    /// How many steps can still follow.
    pub open spec fn left(self) -> nat {
        match self {
            Step::ClassInfo(_) => 10,
            Step::CreateComponent => 9,
            Step::Initialize => 8,
            Step::FindController => 7,
            Step::ControllerId => 6,
            Step::CreateController => 5,
            Step::InitController => 4,
            Step::GetState => 3,
            Step::SetState => 2,
            Step::Connect => 1,
            Step::Done(_) => 0,
            Step::Failed(_) => 0,
        }
    }

    /// Nothing follows.
    pub open spec fn is_last(self) -> bool {
        self is Done || self is Failed
    }

    /// Take the answer to a step, and say what to do next.
    pub fn next(self, answer: Answer) -> (r: Step)
        ensures
            r == self.after(answer),
    {
        let ok = answer.result == RESULT_OK;
        match self {
            Step::ClassInfo(index) => {
                if ok {
                    Step::CreateComponent
                } else {
                    Step::Failed(HostError::NoSuchClass(index))
                }
            },
            Step::CreateComponent => {
                if ok && answer.object {
                    Step::Initialize
                } else {
                    Step::Failed(HostError::CreateFailed(answer.result))
                }
            },
            Step::Initialize => {
                if ok {
                    Step::FindController
                } else {
                    Step::Failed(HostError::Call("initialize", answer.result))
                }
            },
            Step::FindController => {
                if answer.object {
                    Step::Done(Controller::Same)
                } else {
                    Step::ControllerId
                }
            },
            Step::ControllerId => {
                if ok {
                    Step::CreateController
                } else {
                    Step::Done(Controller::Missing)
                }
            },
            Step::CreateController => {
                if ok && answer.object {
                    Step::InitController
                } else {
                    Step::Done(Controller::Missing)
                }
            },
            Step::InitController => Step::GetState,
            Step::GetState => {
                if ok {
                    Step::SetState
                } else {
                    Step::Connect
                }
            },
            Step::SetState => Step::Connect,
            Step::Connect => Step::Done(Controller::Separate),
            Step::Done(c) => Step::Done(c),
            Step::Failed(e) => Step::Failed(e),
        }
    }
}

/// A series of answers, each to the step that the ones before it led to.
pub open spec fn walked(step: Step, answers: Seq<Answer>) -> Step
    decreases answers.len(),
{
    if answers.len() == 0 {
        step
    } else {
        walked(step, answers.drop_last()).after(answers.last())
    }
}

/// Whatever a plugin answers, creating it comes to an end.
pub proof fn law_creation_ends(index: i32, answers: Seq<Answer>)
    requires
        answers.len() >= 10,
    ensures
        walked(Step::ClassInfo(index), answers).is_last(),
{
    lemma_walk(Step::ClassInfo(index), answers);
}

proof fn lemma_walk(step: Step, answers: Seq<Answer>)
    ensures
        walked(step, answers).is_last() || walked(step, answers).left() + answers.len()
            <= step.left(),
    decreases answers.len(),
{
    if answers.len() > 0 {
        lemma_walk(step, answers.drop_last());
    }
}

/// A plugin is only given up before it has been initialised. Once it has, trouble with the
/// controller costs the controller, not the plugin.
pub proof fn law_controller_trouble_is_not_fatal(step: Step, answer: Answer)
    requires
        !(step is Failed),
        step.after(answer) is Failed,
    ensures
        step is ClassInfo || step is CreateComponent || step is Initialize,
{
}

/// A controller that answers is a second object exactly when the first is none itself.
pub proof fn law_one_object_needs_no_second(answers: Seq<Answer>)
    requires
        walked(Step::FindController, answers) is Done,
        answers.len() > 0,
    ensures
        walked(Step::FindController, answers) == Step::Done(Controller::Same)
            <==> answers[0].object,
{
    lemma_found(answers);
}

proof fn lemma_found(answers: Seq<Answer>)
    requires
        answers.len() > 0,
    ensures
        answers[0].object ==> walked(Step::FindController, answers) == Step::Done(Controller::Same),
        !answers[0].object ==> {
            let s = walked(Step::FindController, answers);
            s != Step::Done(Controller::Same) && s.left() < 7
        },
    decreases answers.len(),
{
    reveal_with_fuel(walked, 2);
    if answers.len() > 1 {
        lemma_found(answers.drop_last());
    }
}

// ---- audio ------------------------------------------------------------------------

/// The buses that a block of audio is run with.
#[derive(Clone, Copy, PartialEq, Eq, Debug, Structural)]
pub struct Buses {
    pub inputs: i32,
    pub outputs: i32,
}

/// The buses to run a block with. None if there is nothing to run: no channel or no frame.
pub fn plan_audio(has_input: bool, channels: usize, frames: usize) -> (r: Option<Buses>)
    ensures
        r == if channels == 0 || frames == 0 {
            None
        } else {
            Some(
                Buses {
                    inputs: if has_input {
                        1
                    } else {
                        0
                    },
                    outputs: 1,
                },
            )
        },
{
    if channels == 0 || frames == 0 {
        return None;
    }
    Some(Buses { inputs: if has_input {
        1
    } else {
        0
    }, outputs: 1 })
}

// ---- taking down ------------------------------------------------------------------

/// What a host does to take a plugin down.
#[derive(Clone, Copy, PartialEq, Eq, Debug, Structural)]
pub enum Farewell {
    /// Disconnect the pair from each other, as far as both are connected.
    Disconnect,
    TerminateController,
    TerminateComponent,
}

/// How to take a plugin down, in order: a separate controller is disconnected and terminated
/// before the processor is. A controller that is the same object goes with it.
pub fn farewells(controller: Controller) -> (r: Vec<Farewell>)
    ensures
        r@ == if controller == Controller::Separate {
            seq![
                Farewell::Disconnect,
                Farewell::TerminateController,
                Farewell::TerminateComponent,
            ]
        } else {
            seq![Farewell::TerminateComponent]
        },
{
    let mut r: Vec<Farewell> = Vec::new();
    if controller == Controller::Separate {
        r.push(Farewell::Disconnect);
        r.push(Farewell::TerminateController);
    }
    r.push(Farewell::TerminateComponent);
    r
}

/// With everything granted, a plugin that is its own controller is there after four steps.
pub proof fn law_one_object_is_created(index: i32, yes: Answer)
    requires
        yes.result == RESULT_OK,
        yes.object,
    ensures
        Step::ClassInfo(index).after(yes) == Step::CreateComponent,
        Step::CreateComponent.after(yes) == Step::Initialize,
        Step::Initialize.after(yes) == Step::FindController,
        Step::FindController.after(yes) == Step::Done(Controller::Same),
{
}

/// A plugin that is not is asked for its controller, which is created and initialised, is given
/// the plugin's state, and is connected to it.
pub proof fn law_controller_is_created(yes: Answer, no: Answer)
    requires
        yes.result == RESULT_OK,
        yes.object,
        !no.object,
    ensures
        Step::FindController.after(no) == Step::ControllerId,
        Step::ControllerId.after(yes) == Step::CreateController,
        Step::CreateController.after(yes) == Step::InitController,
        Step::InitController.after(yes) == Step::GetState,
        Step::GetState.after(yes) == Step::SetState,
        Step::SetState.after(yes) == Step::Connect,
        Step::Connect.after(yes) == Step::Done(Controller::Separate),
{
}

/// What a refusal leads to: before the plugin is initialised to the error that names it, after
/// that to a plugin without a controller, and where only the state is refused to the next step.
pub proof fn law_refusals(index: i32, no: Answer)
    requires
        no.result != RESULT_OK,
    ensures
        Step::ClassInfo(index).after(no) == Step::Failed(HostError::NoSuchClass(index)),
        Step::CreateComponent.after(no) == Step::Failed(HostError::CreateFailed(no.result)),
        Step::Initialize.after(no) == Step::Failed(HostError::Call("initialize", no.result)),
        Step::ControllerId.after(no) == Step::Done(Controller::Missing),
        Step::CreateController.after(no) == Step::Done(Controller::Missing),
        Step::InitController.after(no) == Step::GetState,
        Step::GetState.after(no) == Step::Connect,
        Step::SetState.after(no) == Step::Connect,
        Step::Connect.after(no) == Step::Done(Controller::Separate),
{
}

/// A call that succeeds and hands out no object has not created one.
pub proof fn law_no_object_is_no_creation(answer: Answer)
    requires
        !answer.object,
    ensures
        Step::CreateComponent.after(answer) == Step::Failed(HostError::CreateFailed(answer.result)),
        Step::CreateController.after(answer) == Step::Done(Controller::Missing),
{
}

/// Once it has ended, nothing changes how.
pub proof fn law_the_end_stays(step: Step, answer: Answer)
    requires
        step.is_last(),
    ensures
        step.after(answer) == step,
{
}

} // verus!
