//! The state of the terminal interface, and what input does to it.

use vstd::prelude::*;

use crate::event::MessageEvent;
use crate::key::{Key, Keys};
use crate::keymap::{
    begins, finds, law_beginning_lacks_its_end, law_find_is_unique, prefix_free, FindView,
    KeyMapFunctionResult, KeyMaps,
};
use crate::text::same;
use crate::timeline::MessageQuery;
use crate::tui_app::tui::actions::{Action, ActionResult};
use crate::tui_app::tui::history::{
    law_selected_is_current, HistoryView, RoomSelectionHistory,
};

pub mod actions;
pub mod commands;
pub mod drawing;
pub mod history;
pub mod messages;
pub mod rooms;
pub mod run;

verus! {

/// The modes that the client knows by itself.
#[derive(Copy, Clone, Debug, PartialEq, Eq, Structural)]
pub enum BuiltinMode {
    Normal,
    Insert,
    Command,
    RoomFilter,
    RoomFilterUnread,
}

/// The name of a mode.
pub open spec fn builtin_mode_name(m: BuiltinMode) -> Seq<char> {
    match m {
        BuiltinMode::Normal => "normal"@,
        BuiltinMode::Insert => "insert"@,
        BuiltinMode::Command => "command"@,
        BuiltinMode::RoomFilter => "roomfilter"@,
        BuiltinMode::RoomFilterUnread => "roomfilterunread"@,
    }
}

/// The mode with a name.
pub open spec fn builtin_mode_named(name: Seq<char>) -> Option<BuiltinMode> {
    if name == "normal"@ {
        Some(BuiltinMode::Normal)
    } else if name == "insert"@ {
        Some(BuiltinMode::Insert)
    } else if name == "command"@ {
        Some(BuiltinMode::Command)
    } else if name == "roomfilter"@ {
        Some(BuiltinMode::RoomFilter)
    } else if name == "roomfilterunread"@ {
        Some(BuiltinMode::RoomFilterUnread)
    } else {
        None
    }
}

impl BuiltinMode {
    /// The mode with a name.
    pub fn from_str(value: &str) -> (res: Result<BuiltinMode, ()>)
        ensures
            match builtin_mode_named(value@) {
                Some(m) => res == Ok::<BuiltinMode, ()>(m),
                None => res is Err,
            },
    {
        if same(value, "normal") {
            Ok(BuiltinMode::Normal)
        } else if same(value, "insert") {
            Ok(BuiltinMode::Insert)
        } else if same(value, "command") {
            Ok(BuiltinMode::Command)
        } else if same(value, "roomfilter") {
            Ok(BuiltinMode::RoomFilter)
        } else if same(value, "roomfilterunread") {
            Ok(BuiltinMode::RoomFilterUnread)
        } else {
            Err(())
        }
    }

    /// The name of the mode.
    pub fn as_str(&self) -> (res: &'static str)
        ensures
            res@ == builtin_mode_name(*self),
    {
        match self {
            BuiltinMode::Normal => "normal",
            BuiltinMode::Insert => "insert",
            BuiltinMode::Command => "command",
            BuiltinMode::RoomFilter => "roomfilter",
            BuiltinMode::RoomFilterUnread => "roomfilterunread",
        }
    }

    /// The name of the mode.
    pub fn to_string(&self) -> (res: String)
        ensures
            res@ == builtin_mode_name(*self),
    {
        self.as_str().to_owned()
    }
}

/// The name of a mode is read back as that mode.
pub proof fn law_builtin_mode_name_read_back(m: BuiltinMode)
    ensures
        builtin_mode_named(builtin_mode_name(m)) == Some(m),
{
    reveal_strlit("normal");
    reveal_strlit("insert");
    reveal_strlit("command");
    reveal_strlit("roomfilter");
    reveal_strlit("roomfilterunread");
    assert("normal"@[0] != "insert"@[0]);
    assert("normal"@[0] != "command"@[0]);
    assert("insert"@[0] != "command"@[0]);
    assert("normal"@.len() != "roomfilter"@.len());
    assert("insert"@.len() != "roomfilter"@.len());
    assert("command"@.len() != "roomfilter"@.len());
    assert("roomfilter"@.len() != "roomfilterunread"@.len());
}

/// A mode of the interface: one that the client knows by itself, or one that was defined on top of
/// one of those.
pub enum Mode {
    Builtin(BuiltinMode),
    Custom(String, BuiltinMode),
}

/// A mode with its name as characters.
pub enum ModeView {
    Builtin(BuiltinMode),
    Custom(Seq<char>, BuiltinMode),
}

impl ModeView {
    /// The mode that decides on what input does.
    pub open spec fn builtin(self) -> BuiltinMode {
        match self {
            ModeView::Builtin(m) => m,
            ModeView::Custom(_, m) => m,
        }
    }

    /// The name of the mode.
    pub open spec fn name(self) -> Seq<char> {
        match self {
            ModeView::Builtin(m) => builtin_mode_name(m),
            ModeView::Custom(s, _) => s,
        }
    }
}

impl View for Mode {
    type V = ModeView;

    open spec fn view(&self) -> ModeView {
        match *self {
            Mode::Builtin(m) => ModeView::Builtin(m),
            Mode::Custom(s, m) => ModeView::Custom(s@, m),
        }
    }
}

impl Clone for Mode {
    fn clone(&self) -> (res: Self)
        ensures
            res@ == self@,
    {
        match self {
            Mode::Builtin(m) => Mode::Builtin(*m),
            Mode::Custom(s, m) => Mode::Custom(s.clone(), *m),
        }
    }
}

impl Default for Mode {
    fn default() -> (res: Self)
        ensures
            res@ == ModeView::Builtin(BuiltinMode::Normal),
    {
        Mode::Builtin(BuiltinMode::Normal)
    }
}

impl Mode {
    /// The mode that decides on what input does.
    pub fn builtin_mode(&self) -> (res: BuiltinMode)
        ensures
            res == self@.builtin(),
    {
        match self {
            Mode::Builtin(m) => *m,
            Mode::Custom(_, m) => *m,
        }
    }

    /// The name of the mode.
    pub fn as_str(&self) -> (res: &str)
        ensures
            res@ == self@.name(),
    {
        match self {
            Mode::Builtin(m) => m.as_str(),
            Mode::Custom(s, _) => s.as_str(),
        }
    }

    /// The name of the mode.
    pub fn to_string(&self) -> (res: String)
        ensures
            res@ == self@.name(),
    {
        self.as_str().to_owned()
    }

    /// Whether two modes are the same.
    pub fn same_as(&self, other: &Mode) -> (res: bool)
        ensures
            res == (self@ == other@),
    {
        match (self, other) {
            (Mode::Builtin(a), Mode::Builtin(b)) => *a == *b,
            (Mode::Custom(a, m), Mode::Custom(b, n)) => same(a.as_str(), b.as_str()) && *m == *n,
            _ => false,
        }
    }
}

/// How much of an event is shown.
#[derive(Clone, Copy, Debug, PartialEq, Eq, Structural)]
pub enum EventDetail {
    Full,
    Selected,
    Reduced,
}

/// The name of a level of detail.
pub open spec fn event_detail_name(d: EventDetail) -> Seq<char> {
    match d {
        EventDetail::Full => "full"@,
        EventDetail::Selected => "selected"@,
        EventDetail::Reduced => "reduced"@,
    }
}

/// The level of detail with a name.
pub open spec fn event_detail_named(name: Seq<char>) -> Option<EventDetail> {
    if name == "full"@ {
        Some(EventDetail::Full)
    } else if name == "selected"@ {
        Some(EventDetail::Selected)
    } else if name == "reduced"@ {
        Some(EventDetail::Reduced)
    } else {
        None
    }
}

impl Default for EventDetail {
    fn default() -> (res: Self)
        ensures
            res is Selected,
    {
        EventDetail::Selected
    }
}

impl EventDetail {
    /// The level of detail with a name.
    pub fn from_str(value: &str) -> (res: Result<EventDetail, ()>)
        ensures
            match event_detail_named(value@) {
                Some(d) => res == Ok::<EventDetail, ()>(d),
                None => res is Err,
            },
    {
        if same(value, "full") {
            Ok(EventDetail::Full)
        } else if same(value, "selected") {
            Ok(EventDetail::Selected)
        } else if same(value, "reduced") {
            Ok(EventDetail::Reduced)
        } else {
            Err(())
        }
    }

    /// The name of the level of detail.
    pub fn to_string(&self) -> (res: String)
        ensures
            res@ == event_detail_name(*self),
    {
        match self {
            EventDetail::Full => "full".to_owned(),
            EventDetail::Selected => "selected".to_owned(),
            EventDetail::Reduced => "reduced".to_owned(),
        }
    }
}

/// The name of a level of detail is read back as that level.
pub proof fn law_event_detail_name_read_back(d: EventDetail)
    ensures
        event_detail_named(event_detail_name(d)) == Some(d),
{
    reveal_strlit("full");
    reveal_strlit("selected");
    reveal_strlit("reduced");
    assert("full"@.len() != "selected"@.len());
    assert("full"@.len() != "reduced"@.len());
    assert("selected"@.len() != "reduced"@.len());
}

/// The message of a room that is selected.
pub enum MessageSelection {
    Newest,
    Specific(String),
}

/// What becomes of the message that is being written.
pub enum SendMessageType {
    Simple,
    /// An answer: the id of the message it is an answer to, and that message.
    Reply(String, MessageEvent),
    /// A new version: the id of the message that it replaces, and that message.
    Edit(String, MessageEvent),
}

/// The state of the interface that each room has for itself.
pub struct RoomTuiState {
    /// The text of the message that is being written.
    pub msg_edit: String,
    pub msg_edit_type: SendMessageType,
    pub selection: MessageSelection,
}

impl RoomTuiState {
    /// The state with nothing written and nothing selected.
    pub fn at_last_message() -> (res: RoomTuiState)
        ensures
            res.msg_edit@ == Seq::<char>::empty(),
            res.msg_edit_type is Simple,
            res.selection is Newest,
    {
        RoomTuiState {
            msg_edit: String::new(),
            msg_edit_type: SendMessageType::Simple,
            selection: MessageSelection::Newest,
        }
    }
}

/// A query for events of a room.
pub struct MessageQueryRequest {
    pub room: String,
    pub kind: MessageQuery,
}

/// The work that drawing leaves behind: at most one query, the latest that came up.
pub struct Tasks {
    pub message_query: Option<MessageQueryRequest>,
}

impl Tasks {
    /// No work.
    pub fn new() -> (res: Tasks)
        ensures
            res.message_query is None,
    {
        Tasks { message_query: None }
    }

    /// Leaves a query behind. One that was left before is forgotten.
    pub fn set_message_query(&mut self, room: &str, query: MessageQuery)
        ensures
            final(self).message_query matches Some(q) && q.room@ == room@ && q.kind == query,
    {
        self.message_query = Some(MessageQueryRequest { room: room.to_owned(), kind: query });
    }
}

/// The state of the interface.
#[verifier::ext_equal]
pub struct TuiView {
    pub room_selection: HistoryView,
    pub event_detail: EventDetail,
    pub mode_stack: Seq<ModeView>,
    pub room_filter_line: Seq<char>,
    pub command_line: Seq<char>,
    pub previous_keys: Seq<Key>,
    pub last_error_message: Option<Seq<char>>,
}

/// Whether a mode filters the list of rooms.
pub open spec fn is_room_filter(m: BuiltinMode) -> bool {
    m is RoomFilter || m is RoomFilterUnread
}

impl TuiView {
    /// The state at the start, without a room selected.
    pub open spec fn started() -> TuiView {
        TuiView {
            room_selection: HistoryView { selections: Seq::empty(), current: 0 },
            event_detail: EventDetail::Selected,
            mode_stack: seq![ModeView::Builtin(BuiltinMode::Normal)],
            room_filter_line: Seq::empty(),
            command_line: Seq::empty(),
            previous_keys: Seq::empty(),
            last_error_message: None,
        }
    }

    /// There is always a mode, and the history is in order.
    pub open spec fn valid(self) -> bool {
        self.mode_stack.len() > 0 && self.room_selection.valid()
    }

    /// The current mode.
    pub open spec fn mode(self) -> ModeView {
        self.mode_stack.last()
    }

    /// The state after the mode changed: the line for filtering rooms and the command line are
    /// emptied when the modes that use them are left.
    pub open spec fn mode_changed(self, previous: BuiltinMode, new: BuiltinMode) -> TuiView {
        TuiView {
            room_filter_line: if is_room_filter(previous) && !is_room_filter(new) {
                Seq::empty()
            } else {
                self.room_filter_line
            },
            command_line: if previous is Command && !(new is Command) {
                Seq::empty()
            } else {
                self.command_line
            },
            ..self
        }
    }

    /// The state with another mode in place of the current one.
    pub open spec fn mode_switched(self, mode: ModeView) -> TuiView {
        TuiView {
            mode_stack: self.mode_stack.drop_last().push(mode),
            ..self.mode_changed(self.mode().builtin(), mode.builtin())
        }
    }

    /// The state with another mode on top of the current one.
    pub open spec fn mode_pushed(self, mode: ModeView) -> TuiView {
        TuiView {
            mode_stack: self.mode_stack.push(mode),
            ..self.mode_changed(self.mode().builtin(), mode.builtin())
        }
    }

    /// The state back in the mode below the current one.
    pub open spec fn mode_popped(self) -> TuiView {
        let stack = self.mode_stack.drop_last();
        TuiView {
            mode_stack: stack,
            ..self.mode_changed(self.mode().builtin(), stack.last().builtin())
        }
    }

    /// The state with a room as the current one, or with none.
    pub open spec fn room_set(self, id: Option<Seq<char>>) -> TuiView {
        TuiView {
            room_selection: match id {
                Some(id) => self.room_selection.selected(id),
                None => self.room_selection.deselected(),
            },
            ..self
        }
    }
}

/// The state of the interface.
pub struct TuiState {
    pub room_selection: RoomSelectionHistory,
    pub event_detail: EventDetail,
    pub mode_stack: Vec<Mode>,
    /// The text that the list of rooms is filtered by.
    pub room_filter_line: String,
    /// The text of the command that is being written.
    pub command_line: String,
    /// The keys of a sequence that is not complete yet.
    pub previous_keys: Keys,
    pub last_error_message: Option<String>,
}

impl View for TuiState {
    type V = TuiView;

    open spec fn view(&self) -> TuiView {
        TuiView {
            room_selection: self.room_selection@,
            event_detail: self.event_detail,
            mode_stack: Seq::new(self.mode_stack@.len(), |i: int| self.mode_stack@[i]@),
            room_filter_line: self.room_filter_line@,
            command_line: self.command_line@,
            previous_keys: self.previous_keys@,
            last_error_message: match self.last_error_message {
                Some(m) => Some(m@),
                None => None,
            },
        }
    }
}

/// What a key press leads to.
pub enum KeyDecision {
    /// The key is part of a sequence that is not complete yet.
    Consumed,
    /// The keys are bound to an action.
    Run(Action),
    /// The key is left to the current mode.
    PassOn,
}

/// Whether a decision and the state after it are what a lookup of the pressed keys leads to.
pub open spec fn is_decided_by(
    before: TuiView,
    keys: Seq<Key>,
    found: FindView,
    after: TuiView,
    res: KeyDecision,
) -> bool {
    match found {
        FindView::IsPrefix(_) => res is Consumed && after == (TuiView {
            previous_keys: keys,
            ..before
        }),
        FindView::Found(a) => res == KeyDecision::Run(a) && after == (TuiView {
            previous_keys: Seq::empty(),
            ..before
        }),
        _ => res is PassOn && after == (TuiView { previous_keys: Seq::empty(), ..before }),
    }
}

/// Whether a key press may lead from one state to another with a decision, where the current mode
/// has some bindings. The key is added to those that were pressed before; they are kept as long as
/// they are the beginning of a binding, and forgotten otherwise.
pub open spec fn is_key_decision(
    before: TuiView,
    bindings: Map<Seq<Key>, Action>,
    k: Key,
    after: TuiView,
    res: KeyDecision,
) -> bool {
    let keys = before.previous_keys.push(k);
    exists|found: FindView| #[trigger]
        finds(bindings, keys, found) && is_decided_by(before, keys, found, after, res)
}

/// Taking note of how an action went.
pub open spec fn result_noted(
    before: TuiView,
    result: Result<ActionResult, String>,
    after: TuiView,
) -> bool {
    after == (TuiView {
        last_error_message: match result {
            Ok(ActionResult::Error(e)) => Some(e@),
            Err(e) => Some(e@),
            _ => before.last_error_message,
        },
        ..before
    })
}

impl TuiState {
    /// The state at the start, with a room selected or none.
    pub fn new(current_room: Option<&str>) -> (res: TuiState)
        ensures
            res@.valid(),
            res@ == TuiView::started().room_set(
                match current_room {
                    Some(id) => Some(id@),
                    None => None,
                },
            ),
    {
        let mut mode_stack: Vec<Mode> = Vec::new();
        mode_stack.push(Mode::default());
        let mut s = TuiState {
            room_selection: RoomSelectionHistory::default(),
            event_detail: EventDetail::default(),
            mode_stack,
            room_filter_line: String::new(),
            command_line: String::new(),
            previous_keys: Keys(Vec::new()),
            last_error_message: None,
        };
        proof {
            assert(s@.mode_stack =~= seq![ModeView::Builtin(BuiltinMode::Normal)]);
            assert(s@.room_selection.selections.no_duplicates());
        }
        s.set_current_room(current_room);
        s
    }

    /// The current mode.
    pub fn current_mode(&self) -> (res: &Mode)
        requires
            self@.valid(),
        ensures
            res@ == self@.mode(),
    {
        &self.mode_stack[self.mode_stack.len() - 1]
    }

    /// Empties the lines of the modes that are left.
    fn handle_mode_change_side_effects(&mut self, previous: BuiltinMode, new: BuiltinMode)
        ensures
            final(self)@ == old(self)@.mode_changed(previous, new),
            final(self).mode_stack == old(self).mode_stack,
    {
        if !matches!(new, BuiltinMode::RoomFilter | BuiltinMode::RoomFilterUnread)
            && matches!(previous, BuiltinMode::RoomFilter | BuiltinMode::RoomFilterUnread) {
            self.room_filter_line.clear();
        }
        if !matches!(new, BuiltinMode::Command) && matches!(previous, BuiltinMode::Command) {
            self.command_line.clear();
        }
    }

    /// Puts a mode in place of the current one.
    pub fn switch_mode(&mut self, mode: Mode) -> (res: Result<(), ()>)
        requires
            old(self)@.valid(),
        ensures
            final(self)@.valid(),
            final(self)@ == old(self)@.mode_switched(mode@),
            res is Ok == (old(self)@.mode() != mode@),
    {
        let previous = self.current_mode().builtin_mode();
        let changed = !self.current_mode().same_as(&mode);
        self.handle_mode_change_side_effects(previous, mode.builtin_mode());
        let last: usize = self.mode_stack.len() - 1;
        if changed {
            self.mode_stack.set(last, mode);
            proof {
                assert(self@.mode_stack =~= old(self)@.mode_switched(mode@).mode_stack);
            }
            Ok(())
        } else {
            proof {
                assert(self@.mode_stack =~= old(self)@.mode_switched(mode@).mode_stack);
            }
            Err(())
        }
    }

    /// Puts a mode on top of the current one.
    pub fn push_mode(&mut self, mode: Mode)
        requires
            old(self)@.valid(),
        ensures
            final(self)@.valid(),
            final(self)@ == old(self)@.mode_pushed(mode@),
    {
        let previous = self.current_mode().builtin_mode();
        self.handle_mode_change_side_effects(previous, mode.builtin_mode());
        self.mode_stack.push(mode);
        proof {
            assert(self@.mode_stack =~= old(self)@.mode_pushed(mode@).mode_stack);
        }
    }

    /// Goes back to the mode below the current one, if there is one.
    pub fn pop_mode(&mut self) -> (res: Result<(), ()>)
        requires
            old(self)@.valid(),
        ensures
            final(self)@.valid(),
            if old(self)@.mode_stack.len() == 1 {
                res is Err && final(self)@ == old(self)@
            } else {
                res is Ok && final(self)@ == old(self)@.mode_popped()
            },
    {
        if self.mode_stack.len() == 1 {
            return Err(());
        }
        let previous = self.current_mode().builtin_mode();
        let _ = self.mode_stack.pop();
        proof {
            assert(self@.mode_stack =~= old(self)@.mode_stack.drop_last());
        }
        let new = self.current_mode().builtin_mode();
        self.handle_mode_change_side_effects(previous, new);
        Ok(())
    }

    /// Makes a room the current one, or none.
    pub fn set_current_room(&mut self, id: Option<&str>)
        requires
            old(self)@.valid(),
        ensures
            final(self)@.valid(),
            final(self)@ == old(self)@.room_set(
                match id {
                    Some(id) => Some(id@),
                    None => None,
                },
            ),
    {
        if let Some(id) = id {
            self.room_selection.select(id);
        } else {
            self.room_selection.deselect();
        }
    }

    /// Decides on a key press. The key is added to those that were pressed before; they are kept as
    /// long as they are the beginning of a binding of the current mode, and forgotten otherwise.
    pub fn handle_key(&mut self, k: Key, keymaps: &KeyMaps) -> (res: KeyDecision)
        requires
            old(self)@.valid(),
            keymaps.wf(),
        ensures
            final(self)@.valid(),
            is_key_decision(
                old(self)@,
                keymaps.bindings(old(self)@.mode()),
                k,
                final(self)@,
                res,
            ),
    {
        let mut new_keys = Keys(Vec::new());
        std::mem::swap(&mut new_keys, &mut self.previous_keys);
        new_keys.0.push(k);
        let found = keymaps.find_action(self.current_mode(), &new_keys);
        let ghost view = found@;
        proof {
            assert(finds(
                keymaps.bindings(old(self)@.mode()),
                old(self)@.previous_keys.push(k),
                view,
            ));
        }
        match found {
            KeyMapFunctionResult::IsPrefix(_) => {
                self.previous_keys = new_keys;
                KeyDecision::Consumed
            },
            KeyMapFunctionResult::Found(action) => KeyDecision::Run(action),
            KeyMapFunctionResult::NotFound | KeyMapFunctionResult::FoundPrefix(_) => {
                KeyDecision::PassOn
            },
        }
    }

    /// Takes note of how an action went. The message of one that failed is shown.
    pub fn note_result(&mut self, result: Result<ActionResult, String>)
        requires
            old(self)@.valid(),
        ensures
            final(self)@.valid(),
            result_noted(old(self)@, result, final(self)@),
    {
        match result {
            Ok(ActionResult::Done) => {},
            Ok(ActionResult::Noop) => {},
            Ok(ActionResult::Error(e)) => {
                self.last_error_message = Some(e);
            },
            Err(e) => {
                self.last_error_message = Some(e);
            },
        }
    }
}

/// Leaving a mode that was entered on top of another one leads back to that one.
pub proof fn law_pop_undoes_push(s: TuiView, mode: ModeView)
    requires
        s.valid(),
    ensures
        s.mode_pushed(mode).valid(),
        s.mode_pushed(mode).mode() == mode,
        s.mode_pushed(mode).mode_popped().mode_stack == s.mode_stack,
        s.mode_pushed(mode).mode_popped().room_selection == s.room_selection,
        s.mode_pushed(mode).mode_popped().previous_keys == s.previous_keys,
{
    assert(s.mode_stack.push(mode).drop_last() =~= s.mode_stack);
}

/// Outside of the modes that use them, the line for filtering rooms and the command line are
/// empty: a change of mode keeps it so.
pub proof fn law_unused_lines_are_empty(s: TuiView, mode: ModeView)
    requires
        s.valid(),
        !is_room_filter(s.mode().builtin()) ==> s.room_filter_line.len() == 0,
        !(s.mode().builtin() is Command) ==> s.command_line.len() == 0,
    ensures
        ({
            let t = s.mode_switched(mode);
            &&& !is_room_filter(t.mode().builtin()) ==> t.room_filter_line.len() == 0
            &&& !(t.mode().builtin() is Command) ==> t.command_line.len() == 0
        }),
        ({
            let t = s.mode_pushed(mode);
            &&& !is_room_filter(t.mode().builtin()) ==> t.room_filter_line.len() == 0
            &&& !(t.mode().builtin() is Command) ==> t.command_line.len() == 0
        }),
        s.mode_stack.len() > 1 ==> ({
            let t = s.mode_popped();
            &&& !is_room_filter(t.mode().builtin()) ==> t.room_filter_line.len() == 0
            &&& !(t.mode().builtin() is Command) ==> t.command_line.len() == 0
        }),
{
}

/// Whether some keys are pressed one after the other: the states before and after each of them,
/// and the decisions on them.
pub open spec fn are_pressed(
    views: Seq<TuiView>,
    bindings: Map<Seq<Key>, Action>,
    keys: Seq<Key>,
    decisions: Seq<KeyDecision>,
) -> bool {
    &&& views.len() == keys.len() + 1
    &&& decisions.len() == keys.len()
    &&& forall|i: int|
        0 <= i < keys.len() ==> is_key_decision(
            views[i],
            bindings,
            #[trigger] keys[i],
            views[i + 1],
            decisions[i],
        )
}

proof fn lemma_beginning_is_kept(
    views: Seq<TuiView>,
    bindings: Map<Seq<Key>, Action>,
    keys: Seq<Key>,
    decisions: Seq<KeyDecision>,
    n: int,
)
    requires
        prefix_free(bindings),
        bindings.contains_key(keys),
        are_pressed(views, bindings, keys, decisions),
        views[0].previous_keys == Seq::<Key>::empty(),
        0 <= n < keys.len(),
    ensures
        views[n] == (TuiView { previous_keys: keys.take(n), ..views[0] }),
        forall|i: int| 0 <= i < n ==> (#[trigger] decisions[i]) is Consumed,
    decreases n,
{
    if n == 0 {
        assert(keys.take(0) =~= Seq::<Key>::empty());
    } else {
        lemma_beginning_is_kept(views, bindings, keys, decisions, n - 1);
        let k = keys[n - 1];
        let pressed = views[n - 1].previous_keys.push(k);
        assert(is_key_decision(views[n - 1], bindings, k, views[n - 1 + 1], decisions[n - 1]));
        assert(pressed =~= keys.take(n));
        assert(begins(keys.take(n), keys));
        let found = choose|found: FindView| #[trigger]
            finds(bindings, pressed, found) && is_decided_by(
                views[n - 1],
                pressed,
                found,
                views[n],
                decisions[n - 1],
            );
        law_find_is_unique(bindings, pressed, found, FindView::IsPrefix(keys));
    }
}

/// Where nothing was pressed before, pressing the keys of a binding one after the other runs its
/// action with the last of them. Until then each key is kept, and afterwards all are forgotten.
pub proof fn law_bound_keys_run_their_action(
    views: Seq<TuiView>,
    bindings: Map<Seq<Key>, Action>,
    keys: Seq<Key>,
    decisions: Seq<KeyDecision>,
)
    requires
        prefix_free(bindings),
        bindings.contains_key(keys),
        keys.len() > 0,
        are_pressed(views, bindings, keys, decisions),
        views[0].previous_keys == Seq::<Key>::empty(),
    ensures
        forall|i: int| 0 <= i < keys.len() - 1 ==> (#[trigger] decisions[i]) is Consumed,
        decisions.last() == KeyDecision::Run(bindings[keys]),
        views.last() == views[0],
{
    let n = keys.len() - 1;
    lemma_beginning_is_kept(views, bindings, keys, decisions, n);
    let k = keys[n];
    let pressed = views[n].previous_keys.push(k);
    assert(is_key_decision(views[n], bindings, k, views[n + 1], decisions[n]));
    assert(pressed =~= keys);
    let found = choose|found: FindView| #[trigger]
        finds(bindings, pressed, found) && is_decided_by(
            views[n],
            pressed,
            found,
            views[n + 1],
            decisions[n],
        );
    law_find_is_unique(bindings, pressed, found, FindView::Found(bindings[keys]));
}

/// A change of mode changes the top of the stack and nothing else but the lines of modes that are
/// left: what was typed into a line stays as long as the mode is one for that line.
pub proof fn law_mode_change_keeps_the_rest(s: TuiView, mode: ModeView)
    requires
        s.valid(),
    ensures
        ({
            let stack = s.mode_stack;
            let top = stack[stack.len() - 1];
            let t = s.mode_switched(mode);
            let u = s.mode_pushed(mode);
            let p = s.mode_popped();
            &&& t.mode_stack.len() == stack.len()
            &&& t.mode_stack[stack.len() - 1] == mode
            &&& forall|i: int| 0 <= i < stack.len() - 1 ==> t.mode_stack[i] == stack[i]
            &&& u.mode_stack.len() == stack.len() + 1
            &&& u.mode_stack[stack.len() as int] == mode
            &&& forall|i: int| 0 <= i < stack.len() ==> u.mode_stack[i] == stack[i]
            &&& stack.len() > 1 ==> p.mode_stack.len() == stack.len() - 1 && p.mode()
                == stack[stack.len() - 2] && (forall|i: int|
                0 <= i < stack.len() - 1 ==> p.mode_stack[i] == stack[i])
            &&& only_lines_differ(s, t) && only_lines_differ(s, u) && only_lines_differ(s, p)
            &&& (top.builtin() is RoomFilter || top.builtin() is RoomFilterUnread) && (
            mode.builtin() is RoomFilter || mode.builtin() is RoomFilterUnread)
                ==> t.room_filter_line == s.room_filter_line && u.room_filter_line
                == s.room_filter_line
            &&& top.builtin() is Command && mode.builtin() is Command ==> t.command_line
                == s.command_line && u.command_line == s.command_line
            &&& (top.builtin() is RoomFilter || top.builtin() is RoomFilterUnread) && !(
            mode.builtin() is RoomFilter || mode.builtin() is RoomFilterUnread)
                ==> t.room_filter_line.len() == 0 && u.room_filter_line.len() == 0
            &&& top.builtin() is Command && !(mode.builtin() is Command) ==> t.command_line.len()
                == 0 && u.command_line.len() == 0
        }),
{
}

/// Whether two states agree in all but the stack of modes and the two lines for input.
pub open spec fn only_lines_differ(s: TuiView, t: TuiView) -> bool {
    &&& t.room_selection == s.room_selection
    &&& t.event_detail == s.event_detail
    &&& t.previous_keys == s.previous_keys
    &&& t.last_error_message == s.last_error_message
}

/// A key that neither completes a binding nor leaves the beginning of one is left to the mode, and
/// the keys before it are forgotten with it. An action is run only by keys that are bound to it.
pub proof fn law_unbound_keys_are_passed_on(
    before: TuiView,
    bindings: Map<Seq<Key>, Action>,
    k: Key,
    after: TuiView,
    res: KeyDecision,
)
    requires
        prefix_free(bindings),
        is_key_decision(before, bindings, k, after, res),
    ensures
        ({
            let keys = before.previous_keys + seq![k];
            &&& res matches KeyDecision::Run(a) ==> bindings.contains_key(keys) && bindings[keys]
                == a
            &&& res is Consumed ==> exists|rest: Seq<Key>|
                rest.len() > 0 && bindings.contains_key(#[trigger] (keys + rest))
            &&& res is Consumed ==> after.previous_keys == keys
            &&& !(res is Consumed) ==> after.previous_keys.len() == 0
            &&& !bindings.contains_key(keys) && (forall|rest: Seq<Key>|
                rest.len() > 0 ==> !bindings.contains_key(#[trigger] (keys + rest)))
                ==> res is PassOn
            &&& after == (TuiView { previous_keys: after.previous_keys, ..before })
        }),
{
    let keys = before.previous_keys.push(k);
    assert(keys =~= before.previous_keys + seq![k]);
    let found = choose|found: FindView| #[trigger]
        finds(bindings, keys, found) && is_decided_by(before, keys, found, after, res);
    if let FindView::IsPrefix(b) = found {
        law_beginning_lacks_its_end(keys, b);
    }
}

/// At the start the given room is the current one, the mode is the normal one, and nothing is typed
/// or told.
pub proof fn law_start_is_plain(id: Seq<char>)
    ensures
        ({
            let s = TuiView::started().room_set(Some(id));
            &&& s.room_selection.current_room() == Some(id)
            &&& s.room_selection.selections.len() == 1
            &&& s.mode_stack.len() == 1 && s.mode_stack[0] == ModeView::Builtin(BuiltinMode::Normal)
            &&& s.room_filter_line.len() == 0 && s.command_line.len() == 0
            &&& s.previous_keys.len() == 0 && s.last_error_message is None
            &&& s.event_detail is Selected
        }),
        TuiView::started().room_set(None).room_selection.current_room() is None,
{
    let h = TuiView::started().room_selection;
    assert(h.selections.no_duplicates());
    law_selected_is_current(h, id);
    let s = h.selected(id).selections;
    if s.len() > 1 {
        assert(s.contains(s[0]));
        assert(s[0] != s[1]);
        assert(s.contains(s[1]));
    }
}

} // verus!
