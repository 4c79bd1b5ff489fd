//! The actions that keys and commands can set off.

use linkify::{LinkFinder, LinkKind};
use vstd::prelude::*;
use vstd::std_specs::convert::FromSpecImpl;

use crate::config::{ModeSet, ModeSetView};
use crate::event::{
    message_event, Event, EventContent, MessageEvent, MessageKind, Relation, RoomMessage,
};
use crate::id::{check_room_id, check_user_id, room_id_error, user_id_error};
use crate::search::{parsed, pattern_error, ExprView, Filter};
use crate::text::{debug_text, embedded, format_debug_text, joined, same};
use crate::timeline::{
    filtered, law_edit_is_shown, walked_ids, CacheView, EntryView, GroupView, Reaction, Reactions,
};

use crate::tui_app::tui::messages::{selected_id, selection_changed, strip_body, stripped};
use crate::tui_app::tui::history::law_selected_is_current;
use crate::tui_app::tui::rooms::{
    active_ids, law_scrolling_goes_round_the_list, next_room, Rooms, RoomsMut,
};
use crate::tui_app::tui::{
    event_detail_name, event_detail_named, law_event_detail_name_read_back, BuiltinMode,
    EventDetail, MessageSelection, Mode, ModeView, RoomTuiState, SendMessageType, TuiView,
};
use crate::tui_app::{
    lemma_room_changed, lemma_sorted_ids_differ, room_ids, same_but_room, RoomState, State,
};

verus! {

/// A function of the configuration that is run as an action, by the number under which it was
/// stored.
#[derive(Clone, Copy, Debug, PartialEq, Eq, Structural)]
pub struct Action(pub u64);

/// How an action went.
#[must_use]
pub enum ActionResult {
    Done,
    /// There was nothing to do.
    Noop,
    Error(String),
}

impl Clone for ActionResult {
    fn clone(&self) -> (res: Self)
        ensures
            res == *self,
    {
        match self {
            ActionResult::Done => ActionResult::Done,
            ActionResult::Noop => ActionResult::Noop,
            ActionResult::Error(e) => ActionResult::Error(e.clone()),
        }
    }
}

/// How an operation went, as the result of an action: one that could not be done had nothing to
/// do.
impl From<Result<(), ()>> for ActionResult {
    fn from(o: Result<(), ()>) -> (res: Self) {
        match o {
            Ok(_) => ActionResult::Done,
            Err(_) => ActionResult::Noop,
        }
    }
}

impl FromSpecImpl<Result<(), ()>> for ActionResult {
    open spec fn obeys_from_spec() -> bool {
        true
    }

    open spec fn from_spec(o: Result<(), ()>) -> Self {
        match o {
            Ok(_) => ActionResult::Done,
            Err(_) => ActionResult::Noop,
        }
    }
}

impl ActionResult {
    /// Whether the action was done.
    pub fn is_ok(&self) -> (res: bool)
        ensures
            res == (self is Done),
    {
        matches!(self, ActionResult::Done)
    }

    /// Whether there was nothing to do.
    pub fn is_noop(&self) -> (res: bool)
        ensures
            res == (self is Noop),
    {
        matches!(self, ActionResult::Noop)
    }

    /// Whether the action failed.
    pub fn is_error(&self) -> (res: bool)
        ensures
            res == (self is Error),
    {
        matches!(self, ActionResult::Error(_))
    }
}

/// A part of a text that a cursor can move to.
#[derive(Clone, Copy, Debug, PartialEq, Eq, Structural)]
pub enum TextElement {
    CurrentPosition,
    WordBegin,
    WordEnd,
    WORDBegin,
    WORDEnd,
    GraphemeCluster,
    LineSeparator,
    DocumentBoundary,
    Sentence,
}

/// The text element with a name.
pub open spec fn text_element_named(name: Seq<char>) -> Option<TextElement> {
    if name == "cursor"@ {
        Some(TextElement::CurrentPosition)
    } else if name == "word_begin"@ {
        Some(TextElement::WordBegin)
    } else if name == "word_end"@ {
        Some(TextElement::WordEnd)
    } else if name == "WORD_begin"@ {
        Some(TextElement::WORDBegin)
    } else if name == "WORD_end"@ {
        Some(TextElement::WORDEnd)
    } else if name == "line_separator"@ {
        Some(TextElement::LineSeparator)
    } else if name == "document_boundary"@ {
        Some(TextElement::LineSeparator)
    } else if name == "cell"@ {
        Some(TextElement::GraphemeCluster)
    } else if name == "sentence"@ {
        Some(TextElement::Sentence)
    } else {
        None
    }
}

impl TextElement {
    /// The text element with a name.
    pub fn from_name(s: &str) -> (res: Result<TextElement, String>)
        ensures
            match text_element_named(s@) {
                Some(e) => res matches Ok(x) && x == e,
                None => res matches Err(m) && m@ == "'"@ + s@ + "' is not a text element"@,
            },
    {
        if same(s, "cursor") {
            Ok(TextElement::CurrentPosition)
        } else if same(s, "word_begin") {
            Ok(TextElement::WordBegin)
        } else if same(s, "word_end") {
            Ok(TextElement::WordEnd)
        } else if same(s, "WORD_begin") {
            Ok(TextElement::WORDBegin)
        } else if same(s, "WORD_end") {
            Ok(TextElement::WORDEnd)
        } else if same(s, "line_separator") {
            Ok(TextElement::LineSeparator)
        } else if same(s, "document_boundary") {
            Ok(TextElement::LineSeparator)
        } else if same(s, "cell") {
            Ok(TextElement::GraphemeCluster)
        } else if same(s, "sentence") {
            Ok(TextElement::Sentence)
        } else {
            Err(embedded("'", s, "' is not a text element"))
        }
    }
}

/// An end of a range of text: an element looked for from the cursor on, and whether it belongs to
/// the range.
#[derive(Clone, Copy, Debug, PartialEq, Eq, Structural)]
pub struct TextBound {
    pub element: TextElement,
    pub forward: bool,
    pub included: bool,
}

/// The left end of a range, which is looked for backwards and belongs to the range.
pub open spec fn left_bound(element: TextElement) -> TextBound {
    TextBound { element, forward: false, included: true }
}

/// The right end of a range, which is looked for forwards. The ends of words belong to the range,
/// anything else does not.
pub open spec fn right_bound(element: TextElement) -> TextBound {
    TextBound { element, forward: true, included: element is WordEnd || element is WORDEnd }
}

fn build_left_bound(element: TextElement) -> (res: TextBound)
    ensures
        res == left_bound(element),
{
    TextBound { element, forward: false, included: true }
}

fn build_right_bound(element: TextElement) -> (res: TextBound)
    ensures
        res == right_bound(element),
{
    let included = match element {
        TextElement::CurrentPosition => false,
        TextElement::WordBegin => false,
        TextElement::WordEnd => true,
        TextElement::WORDBegin => false,
        TextElement::WORDEnd => true,
        TextElement::GraphemeCluster => false,
        TextElement::LineSeparator => false,
        TextElement::DocumentBoundary => false,
        TextElement::Sentence => false,
    };
    TextBound { element, forward: true, included }
}

/// The range of text between two elements.
pub fn build_target_range(left: TextElement, right: TextElement) -> (res: (TextBound, TextBound))
    ensures
        res == (left_bound(left), right_bound(right)),
{
    (build_left_bound(left), build_right_bound(right))
}

/// A text that is written in.
#[derive(Clone, Copy, Debug, PartialEq, Eq, Structural)]
pub enum TextField {
    Message,
    CommandLine,
    RoomFilter,
}

/// A change of the message that is being written, or of the place of the cursor in it.
#[derive(Clone, Copy, Debug, PartialEq, Eq, Structural)]
pub enum EditOp {
    MoveDown,
    MoveUp,
    DeleteLeft,
    DeleteRight,
    /// Move forwards to an element of the text.
    MoveForward(TextElement),
    /// Move backwards to an element of the text.
    MoveBackward(TextElement),
    /// Delete a range of the text.
    Delete(TextBound, TextBound),
}

/// A change of the line for commands.
pub enum AuxLineOp {
    /// Accept the line.
    Accept,
    /// Go to another line.
    Select(String),
    /// Change what stands before the line.
    SetPrompt(String),
}

/// A change to a mode: the functions to run before and after it.
pub struct ModeChange {
    pub new: Mode,
    pub leave: Option<Action>,
    pub enter: Option<Action>,
}

/// Work that an action leaves to be done outside of the state.
pub enum Task {
    /// Send a message to a room.
    Send(String, String, SendMessageType),
    /// Remove events of a room.
    Redact(String, Vec<String>),
    /// React to an event of a room.
    React(String, String, String),
    /// Open links.
    OpenUrls(Vec<String>),
    /// Open the file of a message.
    OpenFile(MessageEvent),
    /// Save the file of a message under a path. The name is used where the path is a directory.
    SaveFile(MessageEvent, String, String),
    /// Send a file to a room.
    SendFile(String, String),
    /// Leave a room.
    Leave(String),
    /// Create a room.
    CreateRoom(String),
    /// Join a room.
    JoinRoom(String),
    /// Invite a user to a room.
    Invite(String, String),
    /// Write into a text.
    Write(TextField, String),
    /// Change the message that is being written.
    Edit(EditOp),
    /// Change the line for commands.
    AuxLine(AuxLineOp),
    /// Leave the current mode.
    PopMode,
    /// Change to a mode in place of the current one.
    SwitchMode(ModeChange),
    /// Change to a mode on top of the current one.
    PushMode(ModeChange),
    /// Run a command.
    Run(String),
    /// End the client.
    Quit,
}

/// How an action went, and what it leaves to be done.
pub struct Outcome {
    pub result: ActionResult,
    pub task: Option<Task>,
}

/// Whether an action failed with a message.
pub open spec fn failed(res: Outcome, message: Seq<char>) -> bool {
    res.task is None && (res.result matches ActionResult::Error(e) && e@ == message)
}

/// Whether an action had nothing to do.
pub open spec fn nothing_to_do(res: Outcome) -> bool {
    res.task is None && res.result is Noop
}

/// Whether an action was done and leaves nothing to be done.
pub open spec fn is_done(res: Outcome) -> bool {
    res.task is None && res.result is Done
}

fn fail(message: &str) -> (res: Outcome)
    ensures
        failed(res, message@),
{
    Outcome { result: ActionResult::Error(message.to_owned()), task: None }
}

fn noop() -> (res: Outcome)
    ensures
        nothing_to_do(res),
{
    Outcome { result: ActionResult::Noop, task: None }
}

fn done() -> (res: Outcome)
    ensures
        is_done(res),
{
    Outcome { result: ActionResult::Done, task: None }
}

fn leave_task(task: Task) -> (res: Outcome)
    ensures
        res.result is Done,
        res.task == Some(task),
{
    Outcome { result: ActionResult::Done, task: Some(task) }
}

/// How an operation went, as the outcome of an action.
pub open spec fn is_outcome_of(res: Outcome, ok: bool) -> bool {
    if ok {
        is_done(res)
    } else {
        nothing_to_do(res)
    }
}

/// What `linkify` finds when it looks for links in a text.
pub uninterp spec fn urls_in(text: Seq<char>) -> Seq<Seq<char>>;

/// Looks for links with a `linkify::LinkFinder` that is set to the kind `Url`. The claim is that
/// what it finds depends on the text alone.
#[verifier::external_body]
fn find_urls(text: &str) -> (res: Vec<String>)
    ensures
        texts(res@) == urls_in(text@),
{
    let mut finder = LinkFinder::new();
    finder.kinds(&[LinkKind::Url]).links(text).map(|link| link.as_str().to_owned()).collect()
}

/// Strings as characters.
pub open spec fn texts(v: Seq<String>) -> Seq<Seq<char>> {
    Seq::new(v.len(), |i: int| v[i]@)
}

/// What `mime_guess` takes the type of a file to be, by its path.
pub uninterp spec fn mime_of(path: Seq<char>) -> Seq<char>;

/// Calls `mime_guess::from_path` and takes its first guess, or the type for any bytes where it has
/// none. The claim is that the result depends on the path alone.
#[verifier::external_body]
fn guess_mime(path: &str) -> (res: String)
    ensures
        res@ == mime_of(path@),
{
    mime_guess::from_path(path).first_or_octet_stream().to_string()
}

/// The type that a file is sent with.
pub fn mime_type(path: &str) -> (res: String)
    ensures
        res@ == mime_of(path@),
{
    guess_mime(path)
}

/// The current room.
pub open spec fn current_room(state: State) -> RoomState {
    state.rooms@[state.current_index()]
}

/// Whether two states differ in nothing but the texts and the selection of the current room.
pub open spec fn room_tui_changed(before: State, after: State) -> bool {
    let i = before.current_index();
    &&& same_but_room(before, after, i)
    &&& after.rooms@[i] == (RoomState { tui: after.rooms@[i].tui, ..before.rooms@[i] })
}

/// Whether two states differ in nothing but the cached events of the current room.
pub open spec fn room_messages_changed(before: State, after: State) -> bool {
    let i = before.current_index();
    &&& same_but_room(before, after, i)
    &&& after.rooms@[i] == (RoomState { messages: after.rooms@[i].messages, ..before.rooms@[i] })
}

/// Whether two states differ in nothing but the state of the interface.
pub open spec fn tui_changed(before: State, after: State, tui: TuiView) -> bool {
    &&& after.rooms == before.rooms
    &&& after.user_id == before.user_id
    &&& after.tui@ == tui
}

/// Sending the message that was written: it goes out as what it was started as, and the next one
/// starts empty.
pub open spec fn send_message_done(
    before: State,
    room_known: bool,
    after: State,
    res: Outcome,
) -> bool {
    if before.current_id() is None {
        failed(res, "No current room"@) && after == before
    } else if current_room(before).tui.msg_edit@.len() == 0 {
        nothing_to_do(res) && after == before
    } else {
        let room = current_room(before);
        let later = after.rooms@[before.current_index()];
        &&& room_tui_changed(before, after)
        &&& later.tui.msg_edit@ == Seq::<char>::empty()
        &&& later.tui.msg_edit_type is Simple
        &&& later.tui.selection == room.tui.selection
        &&& if room_known {
            &&& res.result is Done
            &&& res.task matches Some(Task::Send(id, text, kind)) && id@ == room.id@ && text@
                == room.tui.msg_edit@ && kind == room.tui.msg_edit_type
        } else {
            failed(res, "can't send message, no joined room"@)
        }
    }
}

/// Removing the selected message.
pub open spec fn delete_message_done(before: State, room_known: bool, res: Outcome) -> bool {
    if before.current_id() is None {
        failed(res, "No current room"@)
    } else {
        match selected_id(current_room(before).tui.selection) {
            None => failed(res, "No message selected"@),
            Some(id) => if room_known {
                &&& res.result is Done
                &&& res.task matches Some(Task::Redact(room, ids)) && room@ == current_room(
                    before,
                ).id@ && texts(ids@) == seq![id]
            } else {
                failed(res, "Room not joined"@)
            },
        }
    }
}

/// The ids of the reactions that a user sent, among the first `n` of a list.
pub open spec fn sent_by(
    events: Seq<Reaction>,
    user: Seq<char>,
    n: int,
) -> Seq<Seq<char>>
    decreases n,
{
    if n <= 0 {
        Seq::empty()
    } else if events[n - 1].sender@ == user {
        sent_by(events, user, n - 1).push(events[n - 1].event_id@)
    } else {
        sent_by(events, user, n - 1)
    }
}

/// The ids of the reactions that a user sent, among the first `n` groups.
pub open spec fn own_reactions(groups: Seq<GroupView>, user: Seq<char>, n: int) -> Seq<Seq<char>>
    decreases n,
{
    if n <= 0 {
        Seq::empty()
    } else {
        own_reactions(groups, user, n - 1) + sent_by(
            groups[n - 1].events,
            user,
            groups[n - 1].events.len() as int,
        )
    }
}

/// Removing the own reactions to the selected message.
pub open spec fn delete_reactions_done(before: State, room_known: bool, res: Outcome) -> bool {
    if before.current_id() is None {
        failed(res, "No current room"@)
    } else {
        let room = current_room(before);
        match selected_id(room.tui.selection) {
            None => failed(res, "No message selected"@),
            Some(id) => if !room.messages@.reactions.contains_key(id) {
                failed(res, "Room not joined"@)
            } else if !room_known {
                nothing_to_do(res)
            } else {
                let groups = room.messages@.reactions[id];
                &&& res.result is Done
                &&& res.task matches Some(Task::Redact(r, ids)) && r@ == room.id@ && texts(ids@)
                    == own_reactions(groups, before.user_id@, groups.len() as int)
            },
        }
    }
}

/// The newest version of the selected message, if it is one and can be found.
pub open spec fn selected_message(cache: CacheView, id: Seq<char>) -> Option<MessageEvent> {
    match cache.entry_from_id(id) {
        Some(entry) => match entry.latest() {
            Some(event) => message_event(event),
            None => None,
        },
        None => None,
    }
}

/// The message for an id that belongs to no event of the cache.
pub open spec fn not_found(id: Seq<char>) -> Seq<char> {
    "Cannot find message with id "@ + debug_text(id)
}

/// Going to the message that the selected one answers to.
pub open spec fn follow_reply_done(before: State, after: State, res: Outcome) -> bool {
    if before.current_id() is None {
        failed(res, "No current room"@) && after == before
    } else {
        let room = current_room(before);
        match selected_id(room.tui.selection) {
            None => failed(res, "No message selected"@) && after == before,
            Some(id) => if room.messages@.entry_from_id(id) is None {
                failed(res, not_found(id)) && after == before
            } else {
                match selected_message(room.messages@, id) {
                    None => failed(res, "Only simple message events can be followed"@) && after
                        == before,
                    Some(m) => match m.message.relates_to {
                        Relation::Reply(target) => is_done(res) && selection_changed(
                            before,
                            after,
                            Some(target@),
                        ),
                        _ => failed(res, "Message is not a reply"@) && after == before,
                    },
                }
            },
        }
    }
}

/// Selecting a room of the list if none of it is selected.
pub open spec fn force_room_selection_done(before: State, after: State, res: Outcome) -> bool {
    let is_shown = match before.current_id() {
        Some(id) => active_ids(before).contains(id),
        None => false,
    };
    if is_shown {
        nothing_to_do(res) && after == before
    } else {
        is_done(res) && tui_changed(before, after, before.tui@.room_set(next_room(before)))
    }
}

/// Taking the filter of the current room away.
pub open spec fn clear_filter_done(before: State, after: State, res: Outcome) -> bool {
    if before.current_id() is None {
        failed(res, "No current room"@) && after == before
    } else {
        &&& is_done(res)
        &&& room_messages_changed(before, after)
        &&& after.rooms@[before.current_index()].messages@ == current_room(
            before,
        ).messages@.with_filter(None)
    }
}

/// Starting an answer to the selected message.
pub open spec fn start_reply_done(before: State, after: State, res: Outcome) -> bool {
    if before.current_id() is None {
        failed(res, "No current room"@) && after == before
    } else {
        let room = current_room(before);
        match selected_id(room.tui.selection) {
            None => failed(res, "No message selected"@) && after == before,
            Some(id) => match room.messages@.entry_from_id(id) {
                None => failed(res, not_found(id)) && after == before,
                Some(entry) => match selected_message(room.messages@, id) {
                    None => failed(res, "Only simple message events can be replied to"@) && after
                        == before,
                    Some(m) => {
                        let later = after.rooms@[before.current_index()];
                        &&& is_done(res)
                        &&& room_tui_changed(before, after)
                        &&& later.tui == (RoomTuiState {
                            msg_edit_type: later.tui.msg_edit_type,
                            ..room.tui
                        })
                        &&& later.tui.msg_edit_type matches SendMessageType::Reply(e, n) && e@
                            == entry.original().event_id@ && n == m
                    },
                },
            },
        }
    }
}

/// Starting a new version of the selected message. It starts with the text of the newest one.
pub open spec fn start_edit_done(before: State, after: State, res: Outcome) -> bool {
    if before.current_id() is None {
        failed(res, "No current room"@) && after == before
    } else {
        let room = current_room(before);
        match selected_id(room.tui.selection) {
            None => failed(res, "No message selected"@) && after == before,
            Some(id) => match room.messages@.entry_from_id(id) {
                None => failed(res, not_found(id)) && after == before,
                Some(entry) => match selected_message(room.messages@, id) {
                    None => failed(res, "Only simple message events can be edited"@) && after
                        == before,
                    Some(m) => {
                        let later = after.rooms@[before.current_index()];
                        &&& is_done(res)
                        &&& room_tui_changed(before, after)
                        &&& later.tui.selection == room.tui.selection
                        &&& later.tui.msg_edit@ == stripped(m.message.body@)
                        &&& later.tui.msg_edit_type matches SendMessageType::Edit(e, n) && e@
                            == entry.original().event_id@ && n == m
                    },
                },
            },
        }
    }
}

/// Making the message that is being written an ordinary one.
pub open spec fn cancel_special_message_done(before: State, after: State, res: Outcome) -> bool {
    if before.current_id() is None {
        failed(res, "No current room"@) && after == before
    } else {
        let room = current_room(before);
        if room.tui.msg_edit_type is Simple {
            nothing_to_do(res) && after == before
        } else {
            &&& is_done(res)
            &&& room_tui_changed(before, after)
            &&& after.rooms@[before.current_index()].tui == (RoomTuiState {
                msg_edit_type: SendMessageType::Simple,
                ..room.tui
            })
        }
    }
}

/// Emptying the message that is being written.
pub open spec fn clear_message_done(before: State, after: State, res: Outcome) -> bool {
    if before.current_id() is None {
        failed(res, "No current room"@) && after == before
    } else {
        let room = current_room(before);
        let later = after.rooms@[before.current_index()];
        if room.tui.msg_edit@.len() == 0 {
            nothing_to_do(res) && after == before
        } else {
            &&& is_done(res)
            &&& room_tui_changed(before, after)
            &&& later.tui == (RoomTuiState { msg_edit: later.tui.msg_edit, ..room.tui })
            &&& later.tui.msg_edit@ == Seq::<char>::empty()
        }
    }
}

/// Taking the message at the bottom away.
pub open spec fn clear_error_message_done(before: State, after: State, res: Outcome) -> bool {
    if before.tui@.last_error_message is None {
        nothing_to_do(res) && after == before
    } else {
        is_done(res) && tui_changed(
            before,
            after,
            TuiView { last_error_message: None, ..before.tui@ },
        )
    }
}

/// Whether a message comes with a file.
pub open spec fn has_file(kind: MessageKind) -> bool {
    kind is Image || kind is Video || kind is Audio || kind is File
}

/// Opening the links or the file of the selected message.
pub open spec fn open_selected_message_done(before: State, res: Outcome) -> bool {
    if before.current_id() is None {
        failed(res, "No current room"@)
    } else {
        let room = current_room(before);
        let message = match selected_id(room.tui.selection) {
            None => None,
            Some(id) => selected_message(room.messages@, id),
        };
        match message {
            None => failed(res, "No message selected"@),
            Some(m) => if m.message.kind is Text {
                if urls_in(m.message.body@).len() == 0 {
                    nothing_to_do(res)
                } else {
                    &&& res.result is Done
                    &&& res.task matches Some(Task::OpenUrls(urls)) && texts(urls@) == urls_in(
                        m.message.body@,
                    )
                }
            } else if has_file(m.message.kind) {
                res.result is Done && res.task == Some(Task::OpenFile(m))
            } else {
                failed(res, "No open action for message "@ + m.message.debug@)
            },
        }
    }
}

/// Saving the file of the selected message.
pub open spec fn save_file_done(before: State, path: Seq<char>, res: Outcome) -> bool {
    if before.current_id() is None {
        failed(res, "No current room"@)
    } else {
        let room = current_room(before);
        let message = match selected_id(room.tui.selection) {
            None => None,
            Some(id) => selected_message(room.messages@, id),
        };
        match message {
            None => failed(res, "No message selected"@),
            Some(m) => if has_file(m.message.kind) {
                &&& res.result is Done
                &&& res.task matches Some(Task::SaveFile(n, p, name)) && n == m && p@ == path
                    && name@ == m.message.body@
            } else {
                failed(res, "No file to save in message "@ + m.message.debug@)
            },
        }
    }
}

/// Changing the message that is being written, or moving in it.
pub open spec fn edit_done(before: State, op: EditOp, res: Outcome) -> bool {
    if before.current_id() is None {
        failed(res, "No current room"@)
    } else {
        res.result is Done && res.task == Some(Task::Edit(op))
    }
}

/// Forgetting the cached events of the current room.
pub open spec fn clear_timeline_cache_done(before: State, after: State, res: Outcome) -> bool {
    if before.current_id() is None {
        failed(res, "No current room"@) && after == before
    } else {
        &&& is_done(res)
        &&& room_messages_changed(before, after)
        &&& after.rooms@[before.current_index()].messages@ == current_room(
            before,
        ).messages@.cleared()
    }
}

/// Emptying the command line.
pub open spec fn clear_auxline_done(before: State, after: State, res: Outcome) -> bool {
    if before.tui@.command_line.len() == 0 {
        nothing_to_do(res) && after == before
    } else {
        is_done(res) && tui_changed(
            before,
            after,
            TuiView { command_line: Seq::empty(), ..before.tui@ },
        )
    }
}

/// The list of the rooms that one is invited to.
pub open spec fn invited_text(rooms: Seq<Seq<char>>) -> Seq<char>
    decreases rooms.len(),
{
    if rooms.len() == 0 {
        "Invited: "@
    } else {
        invited_text(rooms.drop_last()) + rooms.last() + ", "@
    }
}

/// Leaving the current room.
pub open spec fn leave_room_done(before: State, room_known: bool, res: Outcome) -> bool {
    if before.current_id() is None {
        failed(res, "No current room"@)
    } else if room_known {
        &&& res.result is Done
        &&& res.task matches Some(Task::Leave(id)) && id@ == current_room(before).id@
    } else {
        failed(res, "Room not joined"@)
    }
}

impl State {
    /// Sends the message that was written in the current room. Whether the server knows the room
    /// is given.
    pub fn send_message(&mut self, room_known: bool) -> (res: Outcome)
        requires
            old(self).wf(),
        ensures
            final(self).wf(),
            send_message_done(*old(self), room_known, *final(self), res),
    {
        let i: usize = match self.current_room_index() {
            Some(i) => i,
            None => return fail("No current room"),
        };
        let ghost before = *self;
        let msg = self.rooms[i].tui.msg_edit.clone();
        if is_empty(msg.as_str()) {
            return noop();
        }
        let mut kind = SendMessageType::Simple;
        std::mem::swap(&mut kind, &mut self.rooms[i].tui.msg_edit_type);
        self.rooms[i].tui.msg_edit.clear();
        proof {
            assert(before.rooms@[i as int].messages.wf());
            assert(self.rooms@ =~= before.rooms@.update(i as int, self.rooms@[i as int]));
            lemma_room_changed(before, *self, i as int);
        }
        if room_known {
            leave_task(Task::Send(self.rooms[i].id.clone(), msg, kind))
        } else {
            fail("can't send message, no joined room")
        }
    }

    /// Removes the selected message.
    pub fn delete_message(&self, room_known: bool) -> (res: Outcome)
        requires
            self.wf(),
        ensures
            delete_message_done(*self, room_known, res),
    {
        match self.current_room_state() {
            Some(room) => match &room.tui.selection {
                MessageSelection::Specific(id) => {
                    if room_known {
                        let mut ids: Vec<String> = Vec::new();
                        ids.push(id.clone());
                        proof {
                            assert(texts(ids@) =~= seq![id@]);
                        }
                        leave_task(Task::Redact(room.id.clone(), ids))
                    } else {
                        fail("Room not joined")
                    }
                },
                MessageSelection::Newest => fail("No message selected"),
            },
            None => fail("No current room"),
        }
    }

    /// Removes the own reactions to the selected message.
    pub fn delete_reactions(&self, room_known: bool) -> (res: Outcome)
        requires
            self.wf(),
        ensures
            delete_reactions_done(*self, room_known, res),
    {
        match self.current_room_state() {
            Some(room) => match &room.tui.selection {
                MessageSelection::Specific(id) => {
                    proof {
                        assert(self.rooms@[self.current_index()].messages.wf());
                    }
                    match room.messages.reactions(id.as_str()) {
                        Some(reactions) => {
                            let to_redact = reactions_of(reactions, self.user_id());
                            if room_known {
                                leave_task(Task::Redact(room.id.clone(), to_redact))
                            } else {
                                noop()
                            }
                        },
                        None => fail("Room not joined"),
                    }
                },
                MessageSelection::Newest => fail("No message selected"),
            },
            None => fail("No current room"),
        }
    }

    /// Goes to the message that the selected one answers to.
    pub fn follow_reply(&mut self) -> (res: Outcome)
        requires
            old(self).wf(),
        ensures
            final(self).wf(),
            follow_reply_done(*old(self), *final(self), res),
    {
        let i: usize = match self.current_room_index() {
            Some(i) => i,
            None => return fail("No current room"),
        };
        let ghost before = *self;
        proof {
            assert(before.rooms@[i as int].messages.wf());
        }
        let target: String = match self.find_selected(i) {
            Selected::Nothing => return fail("No message selected"),
            Selected::Unknown(message) => return fail(message.as_str()),
            Selected::Other => return fail("Only simple message events can be followed"),
            Selected::Message(_, m) => match m.message.relates_to {
                Relation::Reply(id) => id,
                _ => return fail("Message is not a reply"),
            },
        };
        self.rooms[i].tui.selection = MessageSelection::Specific(target);
        proof {
            assert(self.rooms@ =~= before.rooms@.update(i as int, self.rooms@[i as int]));
            lemma_room_changed(before, *self, i as int);
        }
        done()
    }

    /// Starts an answer to the selected message.
    pub fn start_reply(&mut self) -> (res: Outcome)
        requires
            old(self).wf(),
        ensures
            final(self).wf(),
            start_reply_done(*old(self), *final(self), res),
    {
        let i: usize = match self.current_room_index() {
            Some(i) => i,
            None => return fail("No current room"),
        };
        let ghost before = *self;
        proof {
            assert(before.rooms@[i as int].messages.wf());
        }
        let (event_id, message) = match self.find_selected(i) {
            Selected::Nothing => return fail("No message selected"),
            Selected::Unknown(message) => return fail(message.as_str()),
            Selected::Other => return fail("Only simple message events can be replied to"),
            Selected::Message(event_id, m) => (event_id, m),
        };
        self.rooms[i].tui.msg_edit_type = SendMessageType::Reply(event_id, message);
        proof {
            assert(self.rooms@ =~= before.rooms@.update(i as int, self.rooms@[i as int]));
            lemma_room_changed(before, *self, i as int);
        }
        done()
    }

    /// Starts a new version of the selected message.
    pub fn start_edit(&mut self) -> (res: Outcome)
        requires
            old(self).wf(),
        ensures
            final(self).wf(),
            start_edit_done(*old(self), *final(self), res),
    {
        let i: usize = match self.current_room_index() {
            Some(i) => i,
            None => return fail("No current room"),
        };
        let ghost before = *self;
        proof {
            assert(before.rooms@[i as int].messages.wf());
        }
        let (event_id, message) = match self.find_selected(i) {
            Selected::Nothing => return fail("No message selected"),
            Selected::Unknown(message) => return fail(message.as_str()),
            Selected::Other => return fail("Only simple message events can be edited"),
            Selected::Message(event_id, m) => (event_id, m),
        };
        let text = strip_body(message.message.body.as_str()).to_owned();
        self.rooms[i].tui.msg_edit_type = SendMessageType::Edit(event_id, message);
        self.rooms[i].tui.msg_edit = text;
        proof {
            assert(self.rooms@ =~= before.rooms@.update(i as int, self.rooms@[i as int]));
            lemma_room_changed(before, *self, i as int);
        }
        done()
    }

    /// What is selected in a room.
    fn find_selected(&self, i: usize) -> (res: Selected)
        requires
            i < self.rooms@.len(),
            self.rooms@[i as int].messages.wf(),
        ensures
            ({
                let room = self.rooms@[i as int];
                match selected_id(room.tui.selection) {
                    None => res is Nothing,
                    Some(id) => match room.messages@.entry_from_id(id) {
                        None => res matches Selected::Unknown(m) && m@ == not_found(id),
                        Some(entry) => match selected_message(room.messages@, id) {
                            None => res is Other,
                            Some(m) => res matches Selected::Message(e, n) && e@
                                == entry.original().event_id@ && n == m,
                        },
                    },
                }
            }),
    {
        let room = &self.rooms[i];
        match &room.tui.selection {
            MessageSelection::Newest => Selected::Nothing,
            MessageSelection::Specific(id) => match room.messages.message_from_id(id.as_str()) {
                None => Selected::Unknown(
                    joined(
                        "Cannot find message with id ",
                        format_debug_text(id.as_str()).as_str(),
                    ),
                ),
                Some(entry) => match entry.latest() {
                    None => Selected::Other,
                    Some(event) => match event.to_message_event() {
                        None => Selected::Other,
                        Some(m) => Selected::Message(entry.event_id().to_owned(), m),
                    },
                },
            },
        }
    }

    /// Selects a room of the list if none of it is selected.
    pub fn force_room_selection(&mut self) -> (res: Outcome)
        requires
            old(self).wf(),
        ensures
            final(self).wf(),
            force_room_selection_done(*old(self), *final(self), res),
    {
        if Rooms(&*self).active_contains_current() {
            noop()
        } else {
            let _ = RoomsMut(self).scroll_forwards();
            done()
        }
    }

    /// Takes the filter of the current room away.
    pub fn clear_filter(&mut self) -> (res: Outcome)
        requires
            old(self).wf(),
        ensures
            final(self).wf(),
            clear_filter_done(*old(self), *final(self), res),
    {
        let i: usize = match self.current_room_index() {
            Some(i) => i,
            None => return fail("No current room"),
        };
        let ghost before = *self;
        proof {
            assert(before.rooms@[i as int].messages.wf());
        }
        self.rooms[i].messages.set_filter(None);
        proof {
            assert(self.rooms@ =~= before.rooms@.update(i as int, self.rooms@[i as int]));
            lemma_room_changed(before, *self, i as int);
        }
        done()
    }

    /// Makes the message that is being written an ordinary one.
    pub fn cancel_special_message(&mut self) -> (res: Outcome)
        requires
            old(self).wf(),
        ensures
            final(self).wf(),
            cancel_special_message_done(*old(self), *final(self), res),
    {
        let i: usize = match self.current_room_index() {
            Some(i) => i,
            None => return fail("No current room"),
        };
        let ghost before = *self;
        if matches!(self.rooms[i].tui.msg_edit_type, SendMessageType::Simple) {
            return noop();
        }
        self.rooms[i].tui.msg_edit_type = SendMessageType::Simple;
        proof {
            assert(before.rooms@[i as int].messages.wf());
            assert(self.rooms@ =~= before.rooms@.update(i as int, self.rooms@[i as int]));
            lemma_room_changed(before, *self, i as int);
        }
        done()
    }

    /// Empties the message that is being written.
    pub fn clear_message(&mut self) -> (res: Outcome)
        requires
            old(self).wf(),
        ensures
            final(self).wf(),
            clear_message_done(*old(self), *final(self), res),
    {
        let i: usize = match self.current_room_index() {
            Some(i) => i,
            None => return fail("No current room"),
        };
        let ghost before = *self;
        if is_empty(self.rooms[i].tui.msg_edit.as_str()) {
            return noop();
        }
        self.rooms[i].tui.msg_edit.clear();
        proof {
            assert(before.rooms@[i as int].messages.wf());
            assert(self.rooms@ =~= before.rooms@.update(i as int, self.rooms@[i as int]));
            lemma_room_changed(before, *self, i as int);
        }
        done()
    }

    /// Takes the message at the bottom away.
    pub fn clear_error_message(&mut self) -> (res: Outcome)
        requires
            old(self).wf(),
        ensures
            final(self).wf(),
            clear_error_message_done(*old(self), *final(self), res),
    {
        if self.tui.last_error_message.is_some() {
            self.tui.last_error_message = None;
            done()
        } else {
            noop()
        }
    }

    /// The newest version of the selected message of the current room.
    fn current_message(&self) -> (res: Result<Option<MessageEvent>, ()>)
        requires
            self.wf(),
        ensures
            match res {
                Err(_) => self.current_id() is None,
                Ok(m) => self.current_id() is Some && m == (match selected_id(
                    current_room(*self).tui.selection,
                ) {
                    None => None,
                    Some(id) => selected_message(current_room(*self).messages@, id),
                }),
            },
    {
        match self.current_room_index() {
            Some(i) => {
                proof {
                    assert(self.rooms@[i as int].messages.wf());
                }
                match self.find_selected(i) {
                    Selected::Message(_, m) => Ok(Some(m)),
                    _ => Ok(None),
                }
            },
            None => Err(()),
        }
    }

    /// Opens the links or the file of the selected message.
    pub fn open_selected_message(&self) -> (res: Outcome)
        requires
            self.wf(),
        ensures
            open_selected_message_done(*self, res),
    {
        match self.current_message() {
            Err(_) => fail("No current room"),
            Ok(None) => fail("No message selected"),
            Ok(Some(m)) => match m.message.kind {
                MessageKind::Text => {
                    let urls = find_urls(m.message.body.as_str());
                    proof {
                        assert(texts(urls@).len() == urls@.len());
                    }
                    if urls.len() == 0 {
                        noop()
                    } else {
                        leave_task(Task::OpenUrls(urls))
                    }
                },
                MessageKind::Image | MessageKind::Video | MessageKind::Audio | MessageKind::File => {
                    leave_task(Task::OpenFile(m))
                },
                _ => fail(
                    joined("No open action for message ", m.message.debug.as_str()).as_str(),
                ),
            },
        }
    }

    /// Saves the file of the selected message under a path.
    pub fn save_file(&self, path: String) -> (res: Outcome)
        requires
            self.wf(),
        ensures
            save_file_done(*self, path@, res),
    {
        match self.current_message() {
            Err(_) => fail("No current room"),
            Ok(None) => fail("No message selected"),
            Ok(Some(m)) => match m.message.kind {
                MessageKind::Image | MessageKind::Video | MessageKind::Audio | MessageKind::File => {
                    let name = m.message.body.clone();
                    leave_task(Task::SaveFile(m, path, name))
                },
                _ => fail(
                    joined("No file to save in message ", m.message.debug.as_str()).as_str(),
                ),
            },
        }
    }

    /// Changes the message that is being written, or moves in it.
    pub fn with_msg_edit(&self, op: EditOp) -> (res: Outcome)
        requires
            self.wf(),
        ensures
            edit_done(*self, op, res),
    {
        if self.current_room_state().is_some() {
            leave_task(Task::Edit(op))
        } else {
            fail("No current room")
        }
    }

    /// Moves forwards in the message that is being written.
    pub fn cursor_move_forward(&self, element: TextElement) -> (res: Outcome)
        requires
            self.wf(),
        ensures
            edit_done(*self, EditOp::MoveForward(element), res),
    {
        self.with_msg_edit(EditOp::MoveForward(element))
    }

    /// Moves backwards in the message that is being written.
    pub fn cursor_move_backward(&self, element: TextElement) -> (res: Outcome)
        requires
            self.wf(),
        ensures
            edit_done(*self, EditOp::MoveBackward(element), res),
    {
        self.with_msg_edit(EditOp::MoveBackward(element))
    }

    /// Deletes a range of the message that is being written.
    pub fn cursor_delete(&self, left: TextElement, right: TextElement) -> (res: Outcome)
        requires
            self.wf(),
        ensures
            edit_done(*self, EditOp::Delete(left_bound(left), right_bound(right)), res),
    {
        let (from, to) = build_target_range(left, right);
        self.with_msg_edit(EditOp::Delete(from, to))
    }

    /// The room and the range of its message that are to be copied.
    pub fn cursor_yank(&self, left: TextElement, right: TextElement) -> (res: Result<
        (String, (TextBound, TextBound)),
        String,
    >)
        requires
            self.wf(),
        ensures
            if self.current_id() is None {
                res matches Err(e) && e@ == "No current room"@
            } else {
                res matches Ok((room, range)) && room@ == current_room(*self).id@ && range == (
                    left_bound(left),
                    right_bound(right),
                )
            },
    {
        match self.current_room_state() {
            Some(room) => Ok((room.id.clone(), build_target_range(left, right))),
            None => Err("No current room".to_owned()),
        }
    }

    /// Forgets the cached events of the current room.
    pub fn clear_timeline_cache(&mut self) -> (res: Outcome)
        requires
            old(self).wf(),
        ensures
            final(self).wf(),
            clear_timeline_cache_done(*old(self), *final(self), res),
    {
        let i: usize = match self.current_room_index() {
            Some(i) => i,
            None => return fail("No current room"),
        };
        let ghost before = *self;
        proof {
            assert(before.rooms@[i as int].messages.wf());
        }
        self.rooms[i].messages.clear();
        proof {
            assert(self.rooms@ =~= before.rooms@.update(i as int, self.rooms@[i as int]));
            lemma_room_changed(before, *self, i as int);
        }
        done()
    }

    /// Empties the command line.
    pub fn clear_auxline(&mut self) -> (res: Outcome)
        requires
            old(self).wf(),
        ensures
            final(self).wf(),
            clear_auxline_done(*old(self), *final(self), res),
    {
        if is_empty(self.tui.command_line.as_str()) {
            noop()
        } else {
            self.tui.command_line.clear();
            done()
        }
    }

    /// Shows the rooms that one is invited to, in the place of a message.
    pub fn list_invited_rooms(&mut self, rooms: &Vec<String>) -> (res: Outcome)
        requires
            old(self).wf(),
        ensures
            final(self).wf(),
            is_done(res),
            tui_changed(
                *old(self),
                *final(self),
                TuiView {
                    last_error_message: Some(invited_text(texts(rooms@))),
                    ..old(self).tui@
                },
            ),
    {
        let mut s = "Invited: ".to_owned();
        let ghost ids = texts(rooms@);
        let mut i: usize = 0;
        while i < rooms.len()
            invariant
                i <= rooms@.len(),
                ids == texts(rooms@),
                s@ == invited_text(ids.take(i as int)),
            decreases rooms@.len() - i,
        {
            proof {
                assert(ids.take(i + 1).drop_last() =~= ids.take(i as int));
                assert(ids.take(i + 1).last() == rooms@[i as int]@);
            }
            s.append(rooms[i].as_str());
            s.append(", ");
            i = i + 1;
        }
        proof {
            assert(ids.take(i as int) =~= ids);
        }
        self.tui.last_error_message = Some(s);
        done()
    }

    /// Leaves the current room.
    pub fn leave_room(&self, room_known: bool) -> (res: Outcome)
        requires
            self.wf(),
        ensures
            leave_room_done(*self, room_known, res),
    {
        match self.current_room_state() {
            Some(room) => {
                if room_known {
                    leave_task(Task::Leave(room.id.clone()))
                } else {
                    fail("Room not joined")
                }
            },
            None => fail("No current room"),
        }
    }
}

/// What is selected in a room.
enum Selected {
    /// No message.
    Nothing,
    /// A message that cannot be found, with what is said of it.
    Unknown(String),
    /// Something that is no message.
    Other,
    /// A message: the id of the event, and its newest version.
    Message(String, MessageEvent),
}

/// Whether a text is empty.
fn is_empty(s: &str) -> (res: bool)
    ensures
        res == (s@.len() == 0),
{
    let res = same(s, "");
    proof {
        reveal_strlit("");
        if s@.len() == 0 {
            assert(s@ =~= ""@);
        }
    }
    res
}

/// The ids of the reactions that a user sent.
fn reactions_of(reactions: &Reactions, user: &str) -> (res: Vec<String>)
    ensures
        texts(res@) == own_reactions(reactions@, user@, reactions@.len() as int),
{
    let mut out: Vec<String> = Vec::new();
    proof {
        assert(texts(out@) =~= Seq::<Seq<char>>::empty());
    }
    let mut g: usize = 0;
    while g < reactions.groups.len()
        invariant
            g <= reactions.groups@.len(),
            texts(out@) == own_reactions(reactions@, user@, g as int),
        decreases reactions.groups@.len() - g,
    {
        let ghost start = texts(out@);
        let events = &reactions.groups[g].events;
        let mut i: usize = 0;
        proof {
            assert(start + sent_by(events@, user@, 0) =~= start);
        }
        while i < events.len()
            invariant
                i <= events@.len(),
                texts(out@) == start + sent_by(events@, user@, i as int),
            decreases events@.len() - i,
        {
            if same(events[i].sender.as_str(), user) {
                let ghost before = texts(out@);
                out.push(events[i].event_id.clone());
                proof {
                    assert(texts(out@) =~= before.push(events@[i as int].event_id@));
                    assert(texts(out@) =~= start + sent_by(events@, user@, i + 1));
                }
            }
            i = i + 1;
        }
        proof {
            assert(reactions@[g as int].events == events@);
        }
        g = g + 1;
    }
    out
}

/// The function to run for a mode, if one was set.
pub open spec fn hook(hooks: Map<Seq<char>, Action>, mode: ModeView) -> Option<Action> {
    if hooks.contains_key(mode.name()) {
        Some(hooks[mode.name()])
    } else {
        None
    }
}

/// Typing a text: it goes where input of the current mode goes, but in the normal mode into the
/// message.
pub open spec fn type_done(before: State, text: Seq<char>, res: Outcome) -> bool {
    match before.tui@.mode().builtin() {
        BuiltinMode::Normal | BuiltinMode::Insert => if before.current_id() is None {
            failed(res, "No current room"@)
        } else {
            &&& res.result is Done
            &&& res.task matches Some(Task::Write(field, t)) && field is Message && t@ == text
        },
        BuiltinMode::Command => {
            &&& res.result is Done
            &&& res.task matches Some(Task::Write(field, t)) && field is CommandLine && t@ == text
        },
        BuiltinMode::RoomFilter | BuiltinMode::RoomFilterUnread => {
            &&& res.result is Done
            &&& res.task matches Some(Task::Write(field, t)) && field is RoomFilter && t@ == text
        },
    }
}

/// Preparing a change to another mode in place of the current one. Where it is the current one
/// already, no function is run.
pub open spec fn switch_mode_planned(
    before: State,
    modes: ModeSetView,
    name: Seq<char>,
    res: Outcome,
) -> bool {
    match modes.get(name) {
        None => failed(res, "'"@ + name + "' is not a mode"@),
        Some(new) => {
            let current = before.tui@.mode();
            &&& res.result is Done
            &&& res.task matches Some(Task::SwitchMode(change)) && change.new@ == new
                && change.leave == (if current != new {
                hook(modes.on_leave, current)
            } else {
                None
            }) && change.enter == (if current != new {
                hook(modes.on_enter, new)
            } else {
                None
            })
        },
    }
}

/// Preparing a change to another mode on top of the current one.
pub open spec fn push_mode_planned(
    before: State,
    modes: ModeSetView,
    name: Seq<char>,
    res: Outcome,
) -> bool {
    match modes.get(name) {
        None => failed(res, "'"@ + name + "' is not a mode"@),
        Some(new) => {
            &&& res.result is Done
            &&& res.task matches Some(Task::PushMode(change)) && change.new@ == new
                && change.leave == hook(modes.on_leave, before.tui@.mode()) && change.enter == hook(
                modes.on_enter,
                new,
            )
        },
    }
}

/// Setting the filter of the current room.
pub open spec fn set_filter_done(
    before: State,
    text: Seq<char>,
    after: State,
    res: Outcome,
) -> bool {
    if before.current_id() is None {
        failed(res, "No current room"@) && after == before
    } else {
        match parsed(text) {
            Err(m) => failed(res, m) && after == before,
            Ok(e) => match pattern_error(e) {
                Some(m) => failed(res, m) && after == before,
                None => {
                    &&& is_done(res)
                    &&& room_messages_changed(before, after)
                    &&& after.rooms@[before.current_index()].messages@ == current_room(
                        before,
                    ).messages@.with_filter(Some(e))
                },
            },
        }
    }
}

/// Reacting to the selected message.
pub open spec fn react_done(
    before: State,
    room_known: bool,
    key: Seq<char>,
    res: Outcome,
) -> bool {
    if before.current_id() is None {
        failed(res, "No current room"@)
    } else {
        match selected_id(current_room(before).tui.selection) {
            None => failed(res, "No message selected"@),
            Some(id) => if room_known {
                &&& res.result is Done
                &&& res.task matches Some(Task::React(room, event, k)) && room@ == current_room(
                    before,
                ).id@ && event@ == id && k@ == key
            } else {
                failed(res, "Room not joined"@)
            },
        }
    }
}

/// Setting how much of an event is shown.
pub open spec fn set_event_detail_done(
    before: State,
    name: Seq<char>,
    after: State,
    res: Outcome,
) -> bool {
    match event_detail_named(name) {
        None => failed(res, "Invalid value for event detail: "@ + name) && after == before,
        Some(detail) => if detail == before.tui@.event_detail {
            nothing_to_do(res) && after == before
        } else {
            is_done(res) && tui_changed(
                before,
                after,
                TuiView { event_detail: detail, ..before.tui@ },
            )
        },
    }
}

/// Sending a file to the current room.
pub open spec fn send_file_done(
    before: State,
    room_known: bool,
    path: Seq<char>,
    res: Outcome,
) -> bool {
    if before.current_id() is None {
        failed(res, "No current room"@)
    } else if room_known {
        &&& res.result is Done
        &&& res.task matches Some(Task::SendFile(room, p)) && room@ == current_room(before).id@
            && p@ == path
    } else {
        failed(res, "Room not joined"@)
    }
}

/// Joining a room.
pub open spec fn join_room_done(id: Seq<char>, res: Outcome) -> bool {
    match room_id_error(id) {
        Some(m) => failed(res, m),
        None => {
            &&& res.result is Done
            &&& res.task matches Some(Task::JoinRoom(r)) && r@ == id
        },
    }
}

/// Inviting a user to the current room.
pub open spec fn invite_done(
    before: State,
    room_known: bool,
    user: Seq<char>,
    res: Outcome,
) -> bool {
    match user_id_error(user) {
        Some(m) => failed(res, m),
        None => if before.current_id() is None {
            failed(res, "No current room"@)
        } else if room_known {
            &&& res.result is Done
            &&& res.task matches Some(Task::Invite(room, u)) && room@ == current_room(before).id@
                && u@ == user
        } else {
            failed(res, "Room not joined"@)
        },
    }
}

/// Reading the text of the selected message.
pub open spec fn message_content_done(before: State, res: Result<String, String>) -> bool {
    if before.current_id() is None {
        res matches Err(e) && e@ == "No current room"@
    } else {
        match selected_id(current_room(before).tui.selection) {
            None => res matches Err(e) && e@ == "No message selected"@,
            Some(id) => match selected_message(current_room(before).messages@, id) {
                None => res matches Err(e) && e@ == "Can only get content from message events"@,
                Some(m) => res matches Ok(t) && t@ == m.message.body@,
            },
        }
    }
}

impl State {
    /// Types a text.
    pub fn type_text(&self, text: String) -> (res: Outcome)
        requires
            self.wf(),
        ensures
            type_done(*self, text@, res),
    {
        match self.tui.current_mode().builtin_mode() {
            BuiltinMode::Normal | BuiltinMode::Insert => {
                if self.current_room_state().is_some() {
                    leave_task(Task::Write(TextField::Message, text))
                } else {
                    fail("No current room")
                }
            },
            BuiltinMode::Command => leave_task(Task::Write(TextField::CommandLine, text)),
            BuiltinMode::RoomFilter | BuiltinMode::RoomFilterUnread => leave_task(
                Task::Write(TextField::RoomFilter, text),
            ),
        }
    }

    /// Prepares a change to another mode in place of the current one.
    pub fn plan_switch_mode(&self, modes: &ModeSet, name: &str) -> (res: Outcome)
        requires
            self.wf(),
        ensures
            switch_mode_planned(*self, modes@, name@, res),
    {
        match modes.get(name) {
            None => fail(embedded("'", name, "' is not a mode").as_str()),
            Some(new) => {
                let current = self.tui.current_mode();
                if current.same_as(&new) {
                    leave_task(Task::SwitchMode(ModeChange { new, leave: None, enter: None }))
                } else {
                    let leave = modes.get_on_leave(current);
                    let enter = modes.get_on_enter(&new);
                    leave_task(Task::SwitchMode(ModeChange { new, leave, enter }))
                }
            },
        }
    }

    /// Changes to another mode in place of the current one.
    pub fn finish_switch_mode(&mut self, new: Mode) -> (res: ActionResult)
        requires
            old(self).wf(),
        ensures
            final(self).wf(),
            tui_changed(*old(self), *final(self), old(self).tui@.mode_switched(new@)),
            if old(self).tui@.mode() != new@ {
                res is Done
            } else {
                res is Noop
            },
    {
        ActionResult::from(self.tui.switch_mode(new))
    }

    /// Prepares a change to another mode on top of the current one.
    pub fn plan_push_mode(&self, modes: &ModeSet, name: &str) -> (res: Outcome)
        requires
            self.wf(),
        ensures
            push_mode_planned(*self, modes@, name@, res),
    {
        match modes.get(name) {
            None => fail(embedded("'", name, "' is not a mode").as_str()),
            Some(new) => {
                let leave = modes.get_on_leave(self.tui.current_mode());
                let enter = modes.get_on_enter(&new);
                leave_task(Task::PushMode(ModeChange { new, leave, enter }))
            },
        }
    }

    /// Changes to another mode on top of the current one.
    pub fn finish_push_mode(&mut self, new: Mode) -> (res: ActionResult)
        requires
            old(self).wf(),
        ensures
            final(self).wf(),
            tui_changed(*old(self), *final(self), old(self).tui@.mode_pushed(new@)),
            res is Done,
    {
        self.tui.push_mode(new);
        ActionResult::Done
    }

    /// The function to run before the current mode is left for the one below it, if there is one
    /// below it.
    pub fn plan_pop_mode(&self, modes: &ModeSet) -> (res: Option<Action>)
        requires
            self.wf(),
        ensures
            res == (if self.tui@.mode_stack.len() > 1 {
                hook(modes@.on_leave, self.tui@.mode())
            } else {
                None
            }),
    {
        if self.tui.mode_stack.len() > 1 {
            modes.get_on_leave(self.tui.current_mode())
        } else {
            None
        }
    }

    /// Leaves the current mode for the one below it, and tells the function to run afterwards.
    pub fn finish_pop_mode(&mut self, modes: &ModeSet) -> (res: (ActionResult, Option<Action>))
        requires
            old(self).wf(),
        ensures
            final(self).wf(),
            if old(self).tui@.mode_stack.len() > 1 {
                let popped = old(self).tui@.mode_popped();
                &&& tui_changed(*old(self), *final(self), popped)
                &&& res.0 is Done
                &&& res.1 == hook(modes@.on_enter, popped.mode())
            } else {
                &&& tui_changed(*old(self), *final(self), old(self).tui@)
                &&& res.0 matches ActionResult::Error(e) && e@
                    == "Cannot pop last element from mode stack."@
                &&& res.1 is None
            },
    {
        match self.tui.pop_mode() {
            Ok(_) => (ActionResult::Done, modes.get_on_enter(self.tui.current_mode())),
            Err(_) => (
                ActionResult::Error("Cannot pop last element from mode stack.".to_owned()),
                None,
            ),
        }
    }

    /// Sets the filter of the current room.
    pub fn set_filter(&mut self, text: &str) -> (res: Outcome)
        requires
            old(self).wf(),
        ensures
            final(self).wf(),
            set_filter_done(*old(self), text@, *final(self), res),
    {
        let i: usize = match self.current_room_index() {
            Some(i) => i,
            None => return fail("No current room"),
        };
        let ghost before = *self;
        proof {
            assert(before.rooms@[i as int].messages.wf());
        }
        match Filter::parse(text) {
            Ok(f) => {
                self.rooms[i].messages.set_filter(Some(f));
                proof {
                    assert(self.rooms@ =~= before.rooms@.update(i as int, self.rooms@[i as int]));
                    lemma_room_changed(before, *self, i as int);
                }
                done()
            },
            Err(e) => fail(e.as_str()),
        }
    }

    /// Reacts to the selected message.
    pub fn react(&self, room_known: bool, key: String) -> (res: Outcome)
        requires
            self.wf(),
        ensures
            react_done(*self, room_known, key@, res),
    {
        match self.current_room_state() {
            Some(room) => match &room.tui.selection {
                MessageSelection::Specific(id) => {
                    if room_known {
                        leave_task(Task::React(room.id.clone(), id.clone(), key))
                    } else {
                        fail("Room not joined")
                    }
                },
                MessageSelection::Newest => fail("No message selected"),
            },
            None => fail("No current room"),
        }
    }

    /// Sets how much of an event is shown.
    pub fn set_event_detail(&mut self, name: &str) -> (res: Outcome)
        requires
            old(self).wf(),
        ensures
            final(self).wf(),
            set_event_detail_done(*old(self), name@, *final(self), res),
    {
        match EventDetail::from_str(name) {
            Ok(detail) => {
                if detail != self.tui.event_detail {
                    self.tui.event_detail = detail;
                    done()
                } else {
                    noop()
                }
            },
            Err(_) => fail(joined("Invalid value for event detail: ", name).as_str()),
        }
    }

    /// Sends a file to the current room.
    pub fn send_file(&self, room_known: bool, path: String) -> (res: Outcome)
        requires
            self.wf(),
        ensures
            send_file_done(*self, room_known, path@, res),
    {
        match self.current_room_state() {
            Some(room) => {
                if room_known {
                    leave_task(Task::SendFile(room.id.clone(), path))
                } else {
                    fail("Room not joined")
                }
            },
            None => fail("No current room"),
        }
    }

    /// Joins a room.
    pub fn join_room(id: String) -> (res: Outcome)
        ensures
            join_room_done(id@, res),
    {
        match check_room_id(id.as_str()) {
            Ok(_) => leave_task(Task::JoinRoom(id)),
            Err(e) => fail(e.as_str()),
        }
    }

    /// Invites a user to the current room.
    pub fn invite(&self, room_known: bool, user: String) -> (res: Outcome)
        requires
            self.wf(),
        ensures
            invite_done(*self, room_known, user@, res),
    {
        match check_user_id(user.as_str()) {
            Err(e) => fail(e.as_str()),
            Ok(_) => match self.current_room_state() {
                Some(room) => {
                    if room_known {
                        leave_task(Task::Invite(room.id.clone(), user))
                    } else {
                        fail("Room not joined")
                    }
                },
                None => fail("No current room"),
            },
        }
    }

    /// The text of the selected message.
    pub fn message_content(&self) -> (res: Result<String, String>)
        requires
            self.wf(),
        ensures
            message_content_done(*self, res),
    {
        match self.current_room_index() {
            None => Err("No current room".to_owned()),
            Some(i) => {
                proof {
                    assert(self.rooms@[i as int].messages.wf());
                }
                match self.find_selected(i) {
                    Selected::Nothing => Err("No message selected".to_owned()),
                    Selected::Message(_, m) => Ok(m.message.body),
                    _ => Err("Can only get content from message events".to_owned()),
                }
            },
        }
    }
}

/// What a command that was run leads to. One that could not be run fails with its message.
pub fn run_result(result: Result<ActionResult, String>) -> (res: ActionResult)
    ensures
        res == match result {
            Ok(r) => r,
            Err(e) => ActionResult::Error(e),
        },
{
    match result {
        Ok(r) => r,
        Err(e) => ActionResult::Error(e),
    }
}

/// What a command leads to that is an expression without a function as its value.
pub fn invalid_command(cmd: &str) -> (res: ActionResult)
    ensures
        res matches ActionResult::Error(e) && e@ == "Expression '"@ + cmd@
            + "' is not a valid command."@,
{
    ActionResult::Error(embedded("Expression '", cmd, "' is not a valid command."))
}

/// Whether the current room is at a place among the rooms, and an event of it is selected by an id.
pub open spec fn is_selected(state: State, i: int, id: Seq<char>) -> bool {
    let history = state.tui@.room_selection;
    &&& 0 <= history.current < history.selections.len()
    &&& 0 <= i < state.rooms@.len()
    &&& state.rooms@[i].id@ == history.selections[history.current]
    &&& state.rooms@[i].tui.selection matches MessageSelection::Specific(s) && s@ == id
}

/// Whether an event is what an entry shows: the event itself where it was not changed, and else the
/// last of its versions.
pub open spec fn shows(entry: EntryView, first: Event, newest: Event) -> bool {
    ||| entry == EntryView::Simple(first) && newest == first
    ||| (entry matches EntryView::Edited { original, versions } && original == first
        && versions.len() > 0 && versions[versions.len() - 1] == newest)
}

proof fn lemma_selected_room(state: State, i: int, id: Seq<char>)
    requires
        state.wf(),
        is_selected(state, i, id),
    ensures
        state.current_index() == i,
        current_room(state) == state.rooms@[i],
        state.current_id() == Some(state.rooms@[i].id@),
        selected_id(current_room(state).tui.selection) == Some(id),
{
    let ids = room_ids(state.rooms@);
    let at = state.current_index();
    assert(ids[i] == state.rooms@[i].id@);
    assert(ids.contains(ids[i]));
    assert(ids[at] == ids[i]);
    if at != i {
        lemma_sorted_ids_differ(ids, at, i);
    }
}

/// An action on the selected message acts on what is shown of it. Where the message was changed
/// that is its last version, with the text, the links and the file of that one, and an answer or a
/// further version still refers to the event as it came in first.
pub proof fn law_newest_version_is_acted_on(
    before: State,
    i: int,
    id: Seq<char>,
    entry: EntryView,
    first: Event,
    newest: Event,
    m: RoomMessage,
    path: Seq<char>,
    after: State,
    res: Outcome,
    content: Result<String, String>,
)
    requires
        before.wf(),
        is_selected(before, i, id),
        before.rooms@[i].messages@.entry_from_id(id) == Some(entry),
        shows(entry, first, newest),
        newest.content == EventContent::Message(m),
    ensures
        message_content_done(before, content) ==> (content matches Ok(t) && t@ == m.body@),
        start_edit_done(before, after, res) ==> {
            let later = after.rooms@[i];
            &&& res.result is Done
            &&& res.task is None
            &&& later.tui.msg_edit@ == stripped(m.body@)
            &&& later.tui.msg_edit_type matches SendMessageType::Edit(e, n) && e@
                == first.event_id@ && n.message == m && n.event_id == newest.event_id && n.sender
                == newest.sender
            &&& later.tui.selection == before.rooms@[i].tui.selection
            &&& later.messages == before.rooms@[i].messages
        },
        start_reply_done(before, after, res) ==> {
            let later = after.rooms@[i];
            &&& res.result is Done
            &&& res.task is None
            &&& later.tui.msg_edit == before.rooms@[i].tui.msg_edit
            &&& later.tui.msg_edit_type matches SendMessageType::Reply(e, n) && e@
                == first.event_id@ && n.message == m && n.event_id == newest.event_id && n.sender
                == newest.sender
            &&& later.tui.selection == before.rooms@[i].tui.selection
            &&& later.messages == before.rooms@[i].messages
        },
        follow_reply_done(before, after, res) ==> match m.relates_to {
            Relation::Reply(target) => res.result is Done && is_selected(after, i, target@),
            _ => res.result is Error && after == before,
        },
        open_selected_message_done(before, res) ==> match m.kind {
            MessageKind::Text => if urls_in(m.body@).len() == 0 {
                res.result is Noop && res.task is None
            } else {
                res.result is Done && (res.task matches Some(Task::OpenUrls(urls)) && texts(urls@)
                    == urls_in(m.body@))
            },
            MessageKind::Image | MessageKind::Video | MessageKind::Audio | MessageKind::File => {
                res.result is Done && (res.task matches Some(Task::OpenFile(n)) && n.message == m
                    && n.event_id == newest.event_id)
            },
            _ => res.result is Error && res.task is None,
        },
        save_file_done(before, path, res) ==> match m.kind {
            MessageKind::Image | MessageKind::Video | MessageKind::Audio | MessageKind::File => {
                res.result is Done && (res.task matches Some(Task::SaveFile(n, p, name))
                    && n.message == m && n.event_id == newest.event_id && p@ == path && name@
                    == m.body@)
            },
            _ => res.result is Error && res.task is None,
        },
{
    lemma_selected_room(before, i, id);
}

/// A newer version of a message is what the actions read, whether the message is selected by the id
/// of the version or by that of the message itself.
pub proof fn law_edit_is_acted_on(
    before: State,
    i: int,
    id: Seq<char>,
    cache: CacheView,
    edit: Event,
    m: RoomMessage,
    original: String,
    after: State,
    res: Outcome,
    content: Result<String, String>,
)
    requires
        before.wf(),
        is_selected(before, i, id),
        before.rooms@[i].messages@ == cache.appended(edit),
        cache.valid(),
        edit.content == EventContent::Message(m),
        m.relates_to == Relation::Replacement(original),
        cache.events.contains_key(original@),
        cache.events[original@].event_id@ == original@,
        !cache.redactions.contains_key(original@),
        !cache.originals.contains_key(original@),
        edit.event_id@ != original@,
        id == original@ || id == edit.event_id@,
    ensures
        message_content_done(before, content) ==> (content matches Ok(t) && t@ == m.body@),
        start_edit_done(before, after, res) ==> after.rooms@[i].tui.msg_edit@ == stripped(m.body@)
            && (after.rooms@[i].tui.msg_edit_type matches SendMessageType::Edit(e, n) && e@
            == original@ && n.message == m),
        start_reply_done(before, after, res) ==> (
        after.rooms@[i].tui.msg_edit_type matches SendMessageType::Reply(e, n) && e@ == original@
            && n.message == m),
{
    law_edit_is_shown(cache, edit, m, original);
    let first = cache.events[original@];
    let entry = before.rooms@[i].messages@.entry_from_id(id)->0;
    assert(shows(entry, first, edit));
    law_newest_version_is_acted_on(
        before,
        i,
        id,
        entry,
        first,
        edit,
        m,
        Seq::empty(),
        after,
        res,
        content,
    );
}

/// Nothing can be done with a message that was removed, and trying it changes nothing.
pub proof fn law_removed_message_is_not_acted_on(
    before: State,
    i: int,
    id: Seq<char>,
    removed: Event,
    path: Seq<char>,
    after: State,
    res: Outcome,
    content: Result<String, String>,
)
    requires
        before.wf(),
        is_selected(before, i, id),
        before.rooms@[i].messages@.entry_from_id(id) == Some(EntryView::Deleted(removed)),
    ensures
        message_content_done(before, content) ==> content is Err,
        start_edit_done(before, after, res) ==> res.result is Error && after == before,
        start_reply_done(before, after, res) ==> res.result is Error && after == before,
        follow_reply_done(before, after, res) ==> res.result is Error && after == before,
        open_selected_message_done(before, res) ==> res.result is Error && res.task is None,
        save_file_done(before, path, res) ==> res.result is Error && res.task is None,
{
    lemma_selected_room(before, i, id);
}

/// What was started as a new version goes out as one, to the room that it was started in, with the
/// text that it started with where nothing was written since. The next message starts empty, and
/// an empty one is not sent.
pub proof fn law_started_edit_is_sent(
    before: State,
    i: int,
    id: Seq<char>,
    entry: EntryView,
    first: Event,
    newest: Event,
    m: RoomMessage,
    started: State,
    r: Outcome,
    sent: State,
    res: Outcome,
    again: State,
    nothing: Outcome,
)
    requires
        before.wf(),
        started.wf(),
        sent.wf(),
        is_selected(before, i, id),
        before.rooms@[i].messages@.entry_from_id(id) == Some(entry),
        shows(entry, first, newest),
        newest.content == EventContent::Message(m),
        start_edit_done(before, started, r),
        send_message_done(started, true, sent, res),
        send_message_done(sent, true, again, nothing),
    ensures
        stripped(m.body@).len() > 0 ==> {
            &&& res.result is Done
            &&& res.task matches Some(Task::Send(room, text, kind)) && room@
                == before.rooms@[i].id@ && text@ == stripped(m.body@) && (
            kind matches SendMessageType::Edit(e, n) && e@ == first.event_id@ && n.message == m)
            &&& sent.rooms@[i].tui.msg_edit@.len() == 0
            &&& sent.rooms@[i].tui.msg_edit_type is Simple
        },
        nothing.result is Noop,
        nothing.task is None,
        again == sent,
{
    law_newest_version_is_acted_on(
        before,
        i,
        id,
        entry,
        first,
        newest,
        m,
        Seq::empty(),
        started,
        r,
        Err(before.user_id),
    );
    lemma_selected_room(before, i, id);
    assert(is_selected(started, i, id));
    lemma_selected_room(started, i, id);
    assert(is_selected(sent, i, id));
    lemma_selected_room(sent, i, id);
}

proof fn lemma_sent_by(events: Seq<Reaction>, user: Seq<char>, n: int, id: Seq<char>)
    requires
        0 <= n <= events.len(),
    ensures
        sent_by(events, user, n).contains(id) <==> exists|j: int|
            0 <= j < n && (#[trigger] events[j]).sender@ == user && events[j].event_id@ == id,
    decreases n,
{
    if n > 0 {
        lemma_sent_by(events, user, n - 1, id);
        let front = sent_by(events, user, n - 1);
        if events[n - 1].sender@ == user {
            let last = events[n - 1].event_id@;
            let all = front.push(last);
            if front.contains(id) {
                let k = choose|k: int| 0 <= k < front.len() && front[k] == id;
                assert(all[k] == id);
            }
            if id == last {
                assert(all[front.len() as int] == id);
            }
            if all.contains(id) && id != last {
                let k = choose|k: int| 0 <= k < all.len() && all[k] == id;
                assert(front[k] == id);
            }
        }
    }
}

proof fn lemma_own_reactions(groups: Seq<GroupView>, user: Seq<char>, n: int, id: Seq<char>)
    requires
        0 <= n <= groups.len(),
    ensures
        own_reactions(groups, user, n).contains(id) <==> exists|g: int, j: int|
            0 <= g < n && 0 <= j < groups[g].events.len() && (
            #[trigger] groups[g].events[j]).sender@ == user && groups[g].events[j].event_id@ == id,
    decreases n,
{
    if n > 0 {
        let events = groups[n - 1].events;
        let a = own_reactions(groups, user, n - 1);
        let b = sent_by(events, user, events.len() as int);
        lemma_own_reactions(groups, user, n - 1, id);
        lemma_sent_by(events, user, events.len() as int, id);
        if a.contains(id) {
            let k = choose|k: int| 0 <= k < a.len() && a[k] == id;
            assert((a + b)[k] == id);
        }
        if b.contains(id) {
            let k = choose|k: int| 0 <= k < b.len() && b[k] == id;
            assert((a + b)[a.len() + k] == id);
            let j = choose|j: int|
                0 <= j < events.len() && (#[trigger] events[j]).sender@ == user
                    && events[j].event_id@ == id;
            assert(groups[n - 1].events[j].event_id@ == id);
        }
        if (a + b).contains(id) {
            let k = choose|k: int| 0 <= k < (a + b).len() && (a + b)[k] == id;
            if k < a.len() {
                assert(a[k] == id);
            } else {
                assert(b[k - a.len()] == id);
            }
        }
        if exists|g: int, j: int|
            0 <= g < n && 0 <= j < groups[g].events.len() && (
            #[trigger] groups[g].events[j]).sender@ == user && groups[g].events[j].event_id@ == id {
            let (g, j) = choose|g: int, j: int|
                0 <= g < n && 0 <= j < groups[g].events.len() && (
                #[trigger] groups[g].events[j]).sender@ == user && groups[g].events[j].event_id@
                    == id;
            if g == n - 1 {
                assert(events[j].event_id@ == id);
            }
        }
    }
}

/// Taking the reactions to the selected message away asks for the removal of exactly those that the
/// own user sent, whatever their keys are.
pub proof fn law_own_reactions_are_removed(
    before: State,
    i: int,
    id: Seq<char>,
    groups: Seq<GroupView>,
    res: Outcome,
    reaction: Seq<char>,
)
    requires
        before.wf(),
        is_selected(before, i, id),
        before.rooms@[i].messages@.reactions.contains_key(id),
        before.rooms@[i].messages@.reactions[id] == groups,
        delete_reactions_done(before, true, res),
    ensures
        res.result is Done,
        res.task matches Some(Task::Redact(room, ids)) && room@ == before.rooms@[i].id@ && (texts(
            ids@,
        ).contains(reaction) <==> exists|g: int, j: int|
            0 <= g < groups.len() && 0 <= j < groups[g].events.len() && (
            #[trigger] groups[g].events[j]).sender@ == before.user_id@
                && groups[g].events[j].event_id@ == reaction),
{
    lemma_selected_room(before, i, id);
    lemma_own_reactions(groups, before.user_id@, groups.len() as int, reaction);
}

/// Removing the selected message asks for the removal of that one alone, and reacting to it goes to
/// that one, both in the current room. Neither is done in a room that the server does not know.
pub proof fn law_selected_message_is_meant(
    before: State,
    i: int,
    id: Seq<char>,
    known: bool,
    key: Seq<char>,
    res: Outcome,
)
    requires
        before.wf(),
        is_selected(before, i, id),
    ensures
        delete_message_done(before, known, res) ==> if known {
            res.result is Done && (res.task matches Some(Task::Redact(room, ids)) && room@
                == before.rooms@[i].id@ && ids@.len() == 1 && ids@[0]@ == id)
        } else {
            res.result is Error && res.task is None
        },
        react_done(before, known, key, res) ==> if known {
            res.result is Done && (res.task matches Some(Task::React(room, event, k)) && room@
                == before.rooms@[i].id@ && event@ == id && k@ == key)
        } else {
            res.result is Error && res.task is None
        },
{
    lemma_selected_room(before, i, id);
    if delete_message_done(before, known, res) && known {
        let ids = match res.task {
            Some(Task::Redact(_, ids)) => ids@,
            _ => Seq::empty(),
        };
        assert(texts(ids).len() == 1);
        assert(texts(ids)[0] == id);
    }
}

/// Giving up an answer or a new version leaves an ordinary message with the text as it is, and
/// emptying the text leaves it what it was started as.
pub proof fn law_message_is_given_up_in_parts(
    before: State,
    i: int,
    id: Seq<char>,
    after: State,
    res: Outcome,
)
    requires
        before.wf(),
        is_selected(before, i, id),
    ensures
        cancel_special_message_done(before, after, res) ==> {
            &&& after.rooms@[i].tui.msg_edit@ == before.rooms@[i].tui.msg_edit@
            &&& after.rooms@[i].tui.msg_edit_type is Simple
            &&& after.rooms@[i].tui.selection == before.rooms@[i].tui.selection
            &&& res.result is Noop <==> before.rooms@[i].tui.msg_edit_type is Simple
        },
        clear_message_done(before, after, res) ==> {
            &&& after.rooms@[i].tui.msg_edit@.len() == 0
            &&& after.rooms@[i].tui.msg_edit_type == before.rooms@[i].tui.msg_edit_type
            &&& after.rooms@[i].tui.selection == before.rooms@[i].tui.selection
            &&& res.result is Noop <==> before.rooms@[i].tui.msg_edit@.len() == 0
        },
{
    lemma_selected_room(before, i, id);
}

/// What is typed goes into the field that the mode is for. A mode that was defined on top of
/// another one takes input as that one does.
pub proof fn law_typed_text_goes_where_the_mode_says(
    before: State,
    text: Seq<char>,
    mode: ModeView,
    base: BuiltinMode,
    name: Seq<char>,
    res: Outcome,
)
    requires
        before.tui@.mode_stack.len() > 0,
        before.tui@.mode_stack.last() == mode,
        mode == ModeView::Builtin(base) || mode == ModeView::Custom(name, base),
        type_done(before, text, res),
        before.current_id() is Some,
    ensures
        res.result is Done,
        res.task matches Some(Task::Write(field, t)) && t@ == text && (field is CommandLine
            <==> base is Command) && (field is RoomFilter <==> (base is RoomFilter
            || base is RoomFilterUnread)) && (field is Message <==> (base is Normal
            || base is Insert)),
{
}

/// The functions that were set for leaving and entering a mode are run when the mode changes, and
/// none is run where the mode is the same as before.
pub proof fn law_hooks_belong_to_their_modes(
    before: State,
    modes: ModeSetView,
    name: Seq<char>,
    mode: ModeView,
    leave: Action,
    enter: Action,
    res: Outcome,
)
    requires
        before.tui@.mode_stack.len() > 0,
        modes.get(name) == Some(mode),
        modes.on_leave.contains_pair(before.tui@.mode_stack.last().name(), leave),
        modes.on_enter.contains_pair(mode.name(), enter),
    ensures
        push_mode_planned(before, modes, name, res) ==> (
        res.task matches Some(Task::PushMode(change)) && change.new@ == mode && change.leave
            == Some(leave) && change.enter == Some(enter)),
        switch_mode_planned(before, modes, name, res) ==> (
        res.task matches Some(Task::SwitchMode(change)) && change.new@ == mode && (
        before.tui@.mode_stack.last() != mode ==> change.leave == Some(leave) && change.enter
            == Some(enter)) && (before.tui@.mode_stack.last() == mode ==> change.leave is None
            && change.enter is None)),
{
}

/// The range that is deleted reaches backwards to its left end and forwards to its right end. The
/// left end belongs to it, and the right one where it is the end of a word.
pub proof fn law_range_lies_around_the_cursor(
    state: State,
    left: TextElement,
    right: TextElement,
    res: Outcome,
)
    requires
        state.current_id() is Some,
        edit_done(state, EditOp::Delete(left_bound(left), right_bound(right)), res),
    ensures
        res.task matches Some(Task::Edit(EditOp::Delete(from, to))) && from.element == left
            && !from.forward && from.included && to.element == right && to.forward && (to.included
            <==> (right is WordEnd || right is WORDEnd)),
{
}

/// The list of invitations names every room, in their order, each with a comma behind it.
pub proof fn law_invitations_are_listed(rooms: Seq<Seq<char>>, more: Seq<Seq<char>>)
    ensures
        invited_text(Seq::empty()) == "Invited: "@,
        exists|rest: Seq<char>| invited_text(rooms + more) == #[trigger] (invited_text(rooms) + rest),
        more.len() == 1 ==> invited_text(rooms + more) == invited_text(rooms) + more[0] + ", "@,
    decreases more.len(),
{
    if more.len() == 0 {
        assert(rooms + more =~= rooms);
        assert(invited_text(rooms) + Seq::<char>::empty() =~= invited_text(rooms));
    } else {
        let front = more.drop_last();
        law_invitations_are_listed(rooms, front);
        assert((rooms + more).drop_last() =~= rooms + front);
        assert((rooms + more).last() == more.last());
        let rest = choose|rest: Seq<char>|
            invited_text(rooms + front) == #[trigger] (invited_text(rooms) + rest);
        let longer = rest + more.last() + ", "@;
        assert(invited_text(rooms + more) =~= invited_text(rooms) + longer);
        if more.len() == 1 {
            assert(rooms + front =~= rooms);
        }
    }
}

/// What is done to a room is done to the current one, and only where the server knows it: leaving
/// it, inviting a user that has a valid id, and sending a file.
pub proof fn law_current_room_is_meant(
    before: State,
    i: int,
    known: bool,
    text: Seq<char>,
    res: Outcome,
)
    requires
        before.wf(),
        0 <= i < before.rooms@.len(),
        before.tui@.room_selection.current_room() == Some(before.rooms@[i].id@),
    ensures
        leave_room_done(before, known, res) ==> if known {
            res.task matches Some(Task::Leave(room)) && room@ == before.rooms@[i].id@
        } else {
            res.result is Error && res.task is None
        },
        send_file_done(before, known, text, res) ==> if known {
            res.task matches Some(Task::SendFile(room, path)) && room@ == before.rooms@[i].id@
                && path@ == text
        } else {
            res.result is Error && res.task is None
        },
        invite_done(before, known, text, res) ==> if known && user_id_error(text) is None {
            res.task matches Some(Task::Invite(room, user)) && room@ == before.rooms@[i].id@
                && user@ == text
        } else {
            res.result is Error && res.task is None
        },
        join_room_done(text, res) ==> if room_id_error(text) is None {
            res.task matches Some(Task::JoinRoom(room)) && room@ == text
        } else {
            res.result matches ActionResult::Error(e) && Some(e@) == room_id_error(text)
        },
{
    lemma_current_room(before, i);
}

proof fn lemma_current_room(state: State, i: int)
    requires
        state.wf(),
        0 <= i < state.rooms@.len(),
        state.tui@.room_selection.current_room() == Some(state.rooms@[i].id@),
    ensures
        state.current_index() == i,
        current_room(state) == state.rooms@[i],
{
    let ids = room_ids(state.rooms@);
    let at = state.current_index();
    assert(ids[i] == state.rooms@[i].id@);
    assert(ids.contains(ids[i]));
    assert(ids[at] == ids[i]);
    if at != i {
        lemma_sorted_ids_differ(ids, at, i);
    }
}

/// Without a current room, every action on a room or on a message fails and changes nothing.
pub proof fn law_nothing_is_done_without_a_room(
    before: State,
    known: bool,
    text: Seq<char>,
    after: State,
    res: Outcome,
    content: Result<String, String>,
)
    requires
        before.tui@.room_selection.current_room() is None,
    ensures
        send_message_done(before, known, after, res) || start_edit_done(before, after, res)
            || start_reply_done(before, after, res) || follow_reply_done(before, after, res)
            || clear_filter_done(before, after, res) || set_filter_done(before, text, after, res)
            || cancel_special_message_done(before, after, res) || clear_message_done(
            before,
            after,
            res,
        ) || clear_timeline_cache_done(before, after, res) ==> res.result is Error && res.task is None
            && after == before,
        delete_message_done(before, known, res) || delete_reactions_done(before, known, res)
            || react_done(before, known, text, res) || open_selected_message_done(before, res)
            || save_file_done(before, text, res) || send_file_done(before, known, text, res)
            || leave_room_done(before, known, res) || invite_done(before, known, text, res)
            ==> res.result is Error && res.task is None,
        message_content_done(before, content) ==> content is Err,
{
}

/// With a filter set for the current room, a walk goes through those of its events that the filter
/// selects, and once the filter is taken away through all of them. The events stay either way, and
/// so does every other room. A text that is no filter is refused.
pub proof fn law_filter_is_set_for_the_current_room(
    before: State,
    i: int,
    text: Seq<char>,
    e: ExprView,
    after: State,
    res: Outcome,
    cleared: State,
    other: Outcome,
    id: Seq<char>,
    k: int,
)
    requires
        before.wf(),
        0 <= i < before.rooms@.len(),
        0 <= k < before.rooms@.len(),
        before.tui@.room_selection.current_room() == Some(before.rooms@[i].id@),
        set_filter_done(before, text, after, res),
        clear_filter_done(before, cleared, other),
    ensures
        parsed(text) == Ok::<ExprView, Seq<char>>(e) && pattern_error(e) is None ==> {
            &&& res.result is Done
            &&& walked_ids(after.rooms@[i].messages@) == filtered(
                before.rooms@[i].messages@.full.items,
                before.rooms@[i].messages@.events,
                e,
            ).items
            &&& after.rooms@[i].messages@.full == before.rooms@[i].messages@.full
            &&& after.rooms@[i].tui == before.rooms@[i].tui
            &&& k != i ==> after.rooms@[k] == before.rooms@[k]
        },
        parsed(text) is Err || (parsed(text) matches Ok(f) && pattern_error(f) is Some)
            ==> res.result is Error && after == before,
        walked_ids(cleared.rooms@[i].messages@) == before.rooms@[i].messages@.full.items,
        cleared.rooms@[i].messages@.full == before.rooms@[i].messages@.full,
{
    lemma_current_room(before, i);
}

/// A room of the list is selected where none of it was, and the first of the list where another room
/// was current. Where one of the list was, it stays.
pub proof fn law_forced_selection_is_of_the_list(before: State, after: State, res: Outcome)
    requires
        before.wf(),
        before.current_id() is Some,
        active_ids(before).len() > 0,
        force_room_selection_done(before, after, res),
    ensures
        active_ids(before).contains(before.current_id()->0) ==> after == before
            && res.result is Noop,
        !active_ids(before).contains(before.current_id()->0) ==> after.current_id() == Some(
            active_ids(before)[0],
        ) && after.rooms == before.rooms && res.result is Done,
{
    if !active_ids(before).contains(before.current_id()->0) {
        law_scrolling_goes_round_the_list(before, 0);
        law_selected_is_current(before.tui@.room_selection, active_ids(before)[0]);
    }
}

/// The level of detail is set by its name, and setting the one that is set does nothing.
pub proof fn law_detail_is_set_by_name(
    before: State,
    detail: EventDetail,
    after: State,
    res: Outcome,
)
    requires
        set_event_detail_done(before, event_detail_name(detail), after, res),
    ensures
        after.tui@.event_detail == detail,
        after.rooms == before.rooms,
        res.result is Noop <==> before.tui@.event_detail == detail,
        !(res.result is Error),
{
    law_event_detail_name_read_back(detail);
}

/// The name of a text element. The boundary of the document is not among the elements that can be
/// named.
pub open spec fn text_element_name(e: TextElement) -> Seq<char> {
    match e {
        TextElement::CurrentPosition => "cursor"@,
        TextElement::WordBegin => "word_begin"@,
        TextElement::WordEnd => "word_end"@,
        TextElement::WORDBegin => "WORD_begin"@,
        TextElement::WORDEnd => "WORD_end"@,
        TextElement::GraphemeCluster => "cell"@,
        TextElement::LineSeparator => "line_separator"@,
        TextElement::DocumentBoundary => "document_boundary"@,
        TextElement::Sentence => "sentence"@,
    }
}

/// A text element is found by its name. The name of the boundary of the document finds the line
/// separator.
pub proof fn law_text_elements_are_found_by_name(e: TextElement)
    ensures
        text_element_named(text_element_name(e)) == Some(
            if e is DocumentBoundary {
                TextElement::LineSeparator
            } else {
                e
            },
        ),
{
    reveal_strlit("cursor");
    reveal_strlit("word_begin");
    reveal_strlit("word_end");
    reveal_strlit("WORD_begin");
    reveal_strlit("WORD_end");
    reveal_strlit("cell");
    reveal_strlit("line_separator");
    reveal_strlit("document_boundary");
    reveal_strlit("sentence");
    assert("word_begin"@[0] != "WORD_begin"@[0]);
    assert("word_end"@[0] != "WORD_end"@[0]);
    assert("word_end"@[0] != "sentence"@[0]);
    assert("WORD_end"@[0] != "sentence"@[0]);
    assert("cursor"@.len() == 6);
    assert("word_begin"@.len() == 10);
    assert("word_end"@.len() == 8);
    assert("WORD_begin"@.len() == 10);
    assert("WORD_end"@.len() == 8);
    assert("cell"@.len() == 4);
    assert("line_separator"@.len() == 14);
    assert("document_boundary"@.len() == 17);
    assert("sentence"@.len() == 8);
}

} // verus!
