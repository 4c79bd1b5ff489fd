//! What the interface does with the events that reach it.

use vstd::prelude::*;

use crate::key::{is_read_back, keys_from, keys_text, law_keys_read_back};
use crate::tui_app::signals::SignalKind;
use crate::tui_app::tui::actions::{type_done, ActionResult, Outcome, Task};
use crate::tui_app::tui::{
    builtin_mode_named, law_builtin_mode_name_read_back, result_noted, BuiltinMode, ModeView,
    TuiState, TuiView,
};
use crate::tui_app::{
    is_marked_as_read, lemma_room_changed, same_but_room, unread_event, State,
};

verus! {

/// An event that reaches the interface.
#[derive(Clone, Copy, Debug, PartialEq, Eq, Structural)]
pub enum Event {
    /// The state changed.
    Update,
    /// There is input.
    Input,
    /// A signal came in. One that the client does not know is `None`.
    Signal(Option<SignalKind>),
    /// The bell is to ring.
    Bell,
}

/// What happened since the last step of the interface.
#[derive(Clone, Copy, Debug, PartialEq, Eq, Structural)]
pub enum LoopEvent {
    /// The interface was drawn, and what drawing left behind was passed on.
    Drawn,
    /// What drawing left behind could not be passed on.
    QuerySinkClosed,
    /// An event was received.
    Received(Event),
    /// No further event came in time.
    TimedOut,
    /// The action that was asked for is done. The flag tells whether to go on.
    Done(bool),
}

/// What the interface does next.
#[derive(Clone, Copy, Debug, PartialEq, Eq, Structural)]
pub enum LoopAction {
    /// Draw, and pass on what drawing leaves behind.
    Draw,
    /// Wait for an event.
    Wait,
    /// Wait for an event, but not longer than it takes until the next drawing is due.
    WaitForMore,
    /// Ring the bell.
    EmitBell,
    /// Suspend the client.
    Suspend,
    /// Report a signal that is not handled.
    WarnSignal,
    /// Handle input.
    HandleInput,
    /// End.
    Exit,
}

/// How long to wait for further events before drawing again, in milliseconds.
pub const DRAW_TIMEOUT: u64 = 16;

/// What to do after something happened, in a loop that is to go on or to end.
pub open spec fn next_action(run: bool, event: LoopEvent) -> LoopAction {
    match event {
        LoopEvent::Drawn => LoopAction::Wait,
        LoopEvent::QuerySinkClosed => LoopAction::Exit,
        LoopEvent::Received(Event::Update) => LoopAction::WaitForMore,
        LoopEvent::Received(Event::Bell) => LoopAction::EmitBell,
        LoopEvent::Received(Event::Signal(Some(SignalKind::WindowChange))) => {
            LoopAction::WaitForMore
        },
        LoopEvent::Received(Event::Signal(Some(SignalKind::Stop))) => LoopAction::Suspend,
        LoopEvent::Received(Event::Signal(Some(SignalKind::Terminate))) => {
            LoopAction::WaitForMore
        },
        LoopEvent::Received(Event::Signal(_)) => LoopAction::WarnSignal,
        LoopEvent::Received(Event::Input) => LoopAction::HandleInput,
        LoopEvent::TimedOut => if run {
            LoopAction::Draw
        } else {
            LoopAction::Exit
        },
        LoopEvent::Done(_) => LoopAction::WaitForMore,
    }
}

/// Whether the loop is to go on after something happened.
pub open spec fn keeps_running(run: bool, event: LoopEvent) -> bool {
    match event {
        LoopEvent::Received(Event::Signal(Some(SignalKind::Terminate))) => false,
        LoopEvent::Done(go_on) => run && go_on,
        _ => run,
    }
}

/// A loop that is to end does not take it back, draws no more, and ends once no further event
/// comes in time.
pub proof fn law_loop_ends(event: LoopEvent)
    ensures
        !keeps_running(false, event),
        next_action(false, event) != LoopAction::Draw,
        next_action(false, LoopEvent::TimedOut) == LoopAction::Exit,
{
}

/// The loop of the interface. It draws, waits for an event, handles it and those that follow
/// closely, and begins again, until it is told to end.
#[derive(Clone, Copy, Debug, PartialEq, Eq, Structural)]
pub struct TuiLoop {
    pub run: bool,
}

impl TuiLoop {
    /// The loop at its start. The first thing to do is to draw.
    pub fn new() -> (res: (TuiLoop, LoopAction))
        ensures
            res.0.run,
            res.1 == LoopAction::Draw,
    {
        (TuiLoop { run: true }, LoopAction::Draw)
    }

    /// What to do after something happened.
    pub fn step(&mut self, event: LoopEvent) -> (res: LoopAction)
        ensures
            res == next_action(old(self).run, event),
            final(self).run == keeps_running(old(self).run, event),
    {
        match event {
            LoopEvent::Drawn => LoopAction::Wait,
            LoopEvent::QuerySinkClosed => LoopAction::Exit,
            LoopEvent::Received(e) => match e {
                Event::Update => LoopAction::WaitForMore,
                Event::Bell => LoopAction::EmitBell,
                Event::Signal(Some(SignalKind::WindowChange)) => LoopAction::WaitForMore,
                Event::Signal(Some(SignalKind::Stop)) => LoopAction::Suspend,
                Event::Signal(Some(SignalKind::Terminate)) => {
                    self.run = false;
                    LoopAction::WaitForMore
                },
                Event::Signal(_) => LoopAction::WarnSignal,
                Event::Input => LoopAction::HandleInput,
            },
            LoopEvent::TimedOut => {
                if self.run {
                    LoopAction::Draw
                } else {
                    LoopAction::Exit
                }
            },
            LoopEvent::Done(go_on) => {
                self.run = self.run && go_on;
                LoopAction::WaitForMore
            },
        }
    }
}

/// The text that input which is not bound goes to.
#[derive(Clone, Copy, Debug, PartialEq, Eq, Structural)]
pub enum InputTarget {
    /// None.
    Nowhere,
    /// The message that is being written in the current room.
    Message,
    /// The command line.
    CommandLine,
    /// The line that the list of rooms is filtered by.
    RoomFilter,
}

/// The text that input which is not bound goes to.
pub open spec fn target_of(state: State) -> InputTarget {
    match state.tui@.mode().builtin() {
        BuiltinMode::Normal => InputTarget::Nowhere,
        BuiltinMode::Insert => if state.current_id() is Some {
            InputTarget::Message
        } else {
            InputTarget::Nowhere
        },
        BuiltinMode::Command => InputTarget::CommandLine,
        BuiltinMode::RoomFilter => InputTarget::RoomFilter,
        BuiltinMode::RoomFilterUnread => InputTarget::RoomFilter,
    }
}

impl State {
    /// The text that input which is not bound goes to.
    pub fn input_target(&self) -> (res: InputTarget)
        requires
            self.wf(),
        ensures
            res == target_of(*self),
    {
        match self.tui.current_mode().builtin_mode() {
            BuiltinMode::Normal => InputTarget::Nowhere,
            BuiltinMode::Insert => {
                if self.tui.room_selection.current().is_some() {
                    InputTarget::Message
                } else {
                    InputTarget::Nowhere
                }
            },
            BuiltinMode::Command => InputTarget::CommandLine,
            BuiltinMode::RoomFilter | BuiltinMode::RoomFilterUnread => InputTarget::RoomFilter,
        }
    }

    /// Takes note after input that the newest event of the current room was seen. The room and the
    /// event are handed back if the server has to be told.
    pub fn mark_current_room_as_read(&mut self) -> (res: Option<(String, String)>)
        requires
            old(self).wf(),
        ensures
            final(self).wf(),
            match old(self).current_id() {
                None => res is None && *final(self) == *old(self),
                Some(id) => {
                    let i = old(self).current_index();
                    let before = old(self).rooms@[i];
                    &&& same_but_room(*old(self), *final(self), i)
                    &&& is_marked_as_read(before, final(self).rooms@[i])
                    &&& match unread_event(before) {
                        Some(e) => res matches Some((room, event)) && room@ == id && event@ == e,
                        None => res is None,
                    }
                },
            },
    {
        match self.current_room_index() {
            Some(i) => {
                let ghost before = *self;
                proof {
                    assert(before.rooms@[i as int].messages.wf());
                }
                let read = self.rooms[i].mark_newest_event_as_read();
                proof {
                    assert(self.rooms@ =~= before.rooms@.update(i as int, self.rooms@[i as int]));
                    lemma_room_changed(before, *self, i as int);
                }
                match read {
                    Some(event) => Some((self.rooms[i].id.clone(), event)),
                    None => None,
                }
            },
            None => None,
        }
    }
}

/// What the bar at the bottom shows, from left to right.
pub struct BottomBar {
    /// A message, if there is one.
    pub message: Option<String>,
    /// Whether the command line is shown.
    pub shows_command_line: bool,
    /// The name of the current mode.
    pub mode: String,
    /// The keys of a sequence that is not complete yet.
    pub keys: String,
}

/// Whether a bar is that of a state.
pub open spec fn is_bottom_bar(view: TuiView, bar: BottomBar) -> bool {
    &&& match view.last_error_message {
        Some(m) => bar.message matches Some(s) && s@ == m,
        None => bar.message is None,
    }
    &&& bar.shows_command_line == (view.last_error_message is None
        && view.mode().builtin() is Command)
    &&& bar.mode@ == view.mode().name()
    &&& bar.keys@ == keys_text(view.previous_keys)
}

/// What the bar at the bottom shows. A message hides the command line.
pub fn bottom_bar(tui_state: &TuiState) -> (res: BottomBar)
    requires
        tui_state@.valid(),
    ensures
        is_bottom_bar(tui_state@, res),
{
    let message: Option<String> = match &tui_state.last_error_message {
        Some(m) => Some(m.clone()),
        None => None,
    };
    let shows_command_line = message.is_none() && matches!(
        tui_state.current_mode().builtin_mode(),
        BuiltinMode::Command
    );
    BottomBar {
        message,
        shows_command_line,
        mode: tui_state.current_mode().to_string(),
        keys: tui_state.previous_keys.to_string(),
    }
}

/// A loop that runs goes on until it is told to end, by a signal or by what was done. It draws again
/// only when no further event came in time, so that events that follow closely share one drawing.
pub proof fn law_loop_goes_on_until_told(run: bool, event: LoopEvent)
    ensures
        run && !keeps_running(run, event) <==> run && (event == LoopEvent::Done(false) || event
            == LoopEvent::Received(Event::Signal(Some(SignalKind::Terminate)))),
        next_action(run, event) is Draw ==> event is TimedOut && run,
        next_action(run, event) is Exit ==> event is QuerySinkClosed || (event is TimedOut && !run),
        next_action(run, event) is HandleInput <==> event == LoopEvent::Received(Event::Input),
{
}

/// Input that is not bound goes where typed text goes, but for the normal mode, in which it goes
/// nowhere.
pub proof fn law_input_goes_where_text_is_typed(state: State, text: Seq<char>, res: Outcome)
    requires
        type_done(state, text, res),
    ensures
        target_of(state) is Nowhere <==> state.tui@.mode().builtin() is Normal
            || res.result is Error,
        !(target_of(state) is Nowhere) ==> (res.task matches Some(Task::Write(field, _)) && (
        field is Message <==> target_of(state) is Message) && (field is CommandLine
            <==> target_of(state) is CommandLine) && (field is RoomFilter
            <==> target_of(state) is RoomFilter)),
{
}

/// The bar at the bottom tells the message of an action that failed, in place of the command line.
/// It tells the mode and the keys that were pressed by names that are read back as them.
pub proof fn law_bar_tells_what_happened(
    before: TuiView,
    result: Result<ActionResult, String>,
    e: String,
    after: TuiView,
    bar: BottomBar,
    m: BuiltinMode,
)
    requires
        result_noted(before, result, after),
        result == Ok::<ActionResult, String>(ActionResult::Error(e)) || result == Err::<
            ActionResult,
            String,
        >(e),
        is_bottom_bar(after, bar),
        after.mode_stack.len() > 0,
        forall|i: int|
            0 <= i < after.previous_keys.len() ==> is_read_back(#[trigger] after.previous_keys[i]),
    ensures
        bar.message matches Some(s) && s@ == e@,
        !bar.shows_command_line,
        keys_from(bar.keys@, 0) == Some(before.previous_keys),
        after.mode_stack == before.mode_stack,
        before.mode_stack.last() == ModeView::Builtin(m) ==> builtin_mode_named(bar.mode@) == Some(
            m,
        ),
{
    law_keys_read_back(after.previous_keys);
    law_builtin_mode_name_read_back(m);
}

} // verus!
