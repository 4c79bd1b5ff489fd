//! What actions do.

use sparse::config::ModeSet;
use sparse::event::{Event, EventContent, MessageKind, Relation, RoomMessage};
use sparse::search::Filter;
use sparse::timeline::{MessageBatch, MessageQuery, MessageQueryResult};
use sparse::tui_app::tui::actions::{
    build_target_range, invalid_command, mime_type, run_result, Action, ActionResult, AuxLineOp,
    EditOp, Outcome, Task, TextBound, TextElement, TextField,
};
use sparse::tui_app::tui::commands::{
    actions_args_none, actions_args_string, add_global_fun, global_functions, SimpleAction,
    StringAction, Surroundings,
};
use sparse::tui_app::tui::{
    BuiltinMode, EventDetail, MessageSelection, Mode, SendMessageType,
};
use sparse::tui_app::{RoomInfo, RoomState, State};

fn of_kind(id: &str, body: &str, kind: MessageKind, relates_to: Relation) -> Event {
    Event {
        event_id: id.to_owned(),
        sender: "@you:x".to_owned(),
        timestamp: 0,
        content: EventContent::Message(RoomMessage {
            body: body.to_owned(),
            kind,
            relates_to,
            debug: "DEBUG".to_owned(),
        }),
    }
}

fn text(id: &str, body: &str) -> Event {
    of_kind(id, body, MessageKind::Text, Relation::Unrelated)
}

fn state(events: Vec<Event>) -> State {
    let mut state = State::new(
        ["!a:x", "!b:x"]
            .iter()
            .map(|id| {
                RoomState::from_room(RoomInfo {
                    id: id.to_string(),
                    name: "Room".to_owned(),
                    latest_read_message: None,
                    num_unread_notifications: 0,
                    own_user_id: "@me:x".to_owned(),
                    joined_user_ids: Vec::new(),
                })
            })
            .collect(),
        "@me:x".to_owned(),
    );
    state.update_messages(
        "!a:x",
        MessageQueryResult {
            query: MessageQuery::Newest,
            events: MessageBatch {
                chunk: events.into_iter().rev().map(Some).collect(),
                state_events: 0,
                start: Some("start".to_owned()),
                end: Some("end".to_owned()),
            },
        },
    );
    state
}

fn no_room() -> State {
    State::new(Vec::new(), "@me:x".to_owned())
}

fn select(state: &mut State, id: &str) {
    state.rooms[0].tui.selection = MessageSelection::Specific(id.to_owned());
}

fn around(room_known: bool) -> Surroundings {
    Surroundings { room_known, invited_rooms: vec!["!i:x".to_owned(), "!j:x".to_owned()] }
}

fn simple(state: &mut State, action: SimpleAction) -> Outcome {
    state.run_simple_action(action, &around(true))
}

fn string(state: &mut State, action: StringAction, text: &str) -> Outcome {
    state.run_string_action(action, text.to_owned(), &around(true), &ModeSet::new())
}

fn error(outcome: Outcome) -> String {
    assert!(outcome.task.is_none());
    match outcome.result {
        ActionResult::Error(e) => e,
        _ => panic!("no error"),
    }
}

fn done(outcome: &Outcome) -> bool {
    outcome.result.is_ok() && outcome.task.is_none()
}

fn noop(outcome: &Outcome) -> bool {
    outcome.result.is_noop() && outcome.task.is_none()
}

#[test]
fn results_of_actions() {
    assert!(ActionResult::from(Ok(())).is_ok());
    assert!(ActionResult::from(Err(())).is_noop());
    assert!(ActionResult::Error(String::new()).is_error());
    assert!(run_result(Ok(ActionResult::Noop)).is_noop());
    assert!(matches!(run_result(Err("e".to_owned())), ActionResult::Error(e) if e == "e"));
    assert!(matches!(
        invalid_command("x"),
        ActionResult::Error(e) if e == "Expression 'x' is not a valid command."
    ));
}

#[test]
fn actions_have_names() {
    let names = actions_args_none();
    assert_eq!(names.len(), 30);
    assert_eq!(names[0], ("send_message", SimpleAction::SendMessage));
    assert_eq!(names[29], ("leave_room", SimpleAction::LeaveRoom));
    let names = actions_args_string();
    assert_eq!(names.len(), 14);
    assert_eq!(names[0], ("type", StringAction::Type));
    assert_eq!(names[13], ("invite", StringAction::Invite));
}

#[test]
fn actions_have_global_functions() {
    assert_eq!(
        add_global_fun("f", 2),
        "f = function(s0,s1) return function(c) return c:f(s0,s1) end end"
    );
    assert_eq!(
        add_global_fun("f", 0),
        "f = function() return function(c) return c:f() end end"
    );
    let functions = global_functions();
    assert_eq!(functions.len(), 30 + 14 + 3);
    assert_eq!(functions[3], "quit = function(c) return c:quit() end");
    assert_eq!(
        functions[30],
        "type = function(s0) return function(c) return c:type(s0) end end"
    );
}

#[test]
fn a_message_is_sent() {
    let mut s = state(vec![text("$1", "a")]);
    assert!(noop(&simple(&mut s, SimpleAction::SendMessage)));
    s.rooms[0].tui.msg_edit = "hello".to_owned();
    select(&mut s, "$1");
    assert!(done(&simple(&mut s, SimpleAction::StartReply)));
    let outcome = simple(&mut s, SimpleAction::SendMessage);
    assert!(outcome.result.is_ok());
    match outcome.task {
        Some(Task::Send(room, body, SendMessageType::Reply(id, original))) => {
            assert_eq!((room.as_str(), body.as_str(), id.as_str()), ("!a:x", "hello", "$1"));
            assert_eq!(original.message.body, "a");
        }
        _ => panic!("nothing is sent"),
    }
    assert_eq!(s.rooms[0].tui.msg_edit, "");
    assert!(matches!(s.rooms[0].tui.msg_edit_type, SendMessageType::Simple));
    s.rooms[0].tui.msg_edit = "lost".to_owned();
    let outcome = s.run_simple_action(SimpleAction::SendMessage, &around(false));
    assert_eq!(error(outcome), "can't send message, no joined room");
    assert_eq!(s.rooms[0].tui.msg_edit, "");
    assert_eq!(error(simple(&mut no_room(), SimpleAction::SendMessage)), "No current room");
}

#[test]
fn a_message_is_deleted() {
    let mut s = state(vec![text("$1", "a")]);
    assert_eq!(error(simple(&mut s, SimpleAction::DeleteMessage)), "No message selected");
    select(&mut s, "$1");
    match simple(&mut s, SimpleAction::DeleteMessage).task {
        Some(Task::Redact(room, ids)) => {
            assert_eq!(room, "!a:x");
            assert_eq!(ids, ["$1"]);
        }
        _ => panic!("nothing is deleted"),
    }
    let outcome = s.run_simple_action(SimpleAction::DeleteMessage, &around(false));
    assert_eq!(error(outcome), "Room not joined");
}

#[test]
fn own_reactions_are_deleted() {
    let reaction = |id: &str, sender: &str| Event {
        event_id: id.to_owned(),
        sender: sender.to_owned(),
        timestamp: 0,
        content: EventContent::Reaction("$1".to_owned(), "+".to_owned()),
    };
    let mut s = state(vec![
        text("$1", "a"),
        reaction("$r1", "@me:x"),
        reaction("$r2", "@you:x"),
        reaction("$r3", "@me:x"),
        text("$2", "b"),
    ]);
    select(&mut s, "$1");
    match simple(&mut s, SimpleAction::DeleteReactions).task {
        Some(Task::Redact(_, ids)) => assert_eq!(ids, ["$r1", "$r3"]),
        _ => panic!("nothing is deleted"),
    }
    assert!(noop(&s.run_simple_action(SimpleAction::DeleteReactions, &around(false))));
    select(&mut s, "$2");
    assert_eq!(error(simple(&mut s, SimpleAction::DeleteReactions)), "Room not joined");
}

#[test]
fn a_reply_is_followed() {
    let reply = of_kind("$2", "b", MessageKind::Text, Relation::Reply("$0".to_owned()));
    let mut s = state(vec![text("$1", "a"), reply]);
    assert_eq!(error(simple(&mut s, SimpleAction::FollowReply)), "No message selected");
    select(&mut s, "$1");
    assert_eq!(error(simple(&mut s, SimpleAction::FollowReply)), "Message is not a reply");
    select(&mut s, "$2");
    assert!(done(&simple(&mut s, SimpleAction::FollowReply)));
    assert!(matches!(&s.rooms[0].tui.selection, MessageSelection::Specific(id) if id == "$0"));
    assert_eq!(
        error(simple(&mut s, SimpleAction::FollowReply)),
        "Cannot find message with id \"$0\""
    );
}

#[test]
fn only_messages_are_followed_answered_and_edited() {
    let mut encrypted = text("$1", "a");
    encrypted.content = EventContent::Encrypted;
    let mut s = state(vec![encrypted]);
    select(&mut s, "$1");
    assert_eq!(
        error(simple(&mut s, SimpleAction::FollowReply)),
        "Only simple message events can be followed"
    );
    assert_eq!(
        error(simple(&mut s, SimpleAction::StartReply)),
        "Only simple message events can be replied to"
    );
    assert_eq!(
        error(simple(&mut s, SimpleAction::StartEdit)),
        "Only simple message events can be edited"
    );
    assert_eq!(error(simple(&mut s, SimpleAction::OpenSelectedMessage)), "No message selected");
    assert_eq!(
        s.message_content().unwrap_err(),
        "Can only get content from message events"
    );
}

#[test]
fn a_message_is_edited() {
    let mut s = state(vec![text("$1", "> q\n\nanswer")]);
    select(&mut s, "$1");
    assert!(noop(&simple(&mut s, SimpleAction::CancelSpecialMessage)));
    assert!(done(&simple(&mut s, SimpleAction::StartEdit)));
    assert_eq!(s.rooms[0].tui.msg_edit, "answer");
    assert!(matches!(&s.rooms[0].tui.msg_edit_type, SendMessageType::Edit(id, _) if id == "$1"));
    assert!(done(&simple(&mut s, SimpleAction::CancelSpecialMessage)));
    assert!(matches!(s.rooms[0].tui.msg_edit_type, SendMessageType::Simple));
    assert!(done(&simple(&mut s, SimpleAction::ClearMessage)));
    assert_eq!(s.rooms[0].tui.msg_edit, "");
    assert!(noop(&simple(&mut s, SimpleAction::ClearMessage)));
}

#[test]
fn links_and_files_are_opened() {
    let mut s = state(vec![
        text("$1", "see https://example.org/a and <http://b.example>."),
        text("$2", "no link"),
        of_kind("$3", "cat.png", MessageKind::Image, Relation::Unrelated),
        of_kind("$4", "n", MessageKind::Notice, Relation::Unrelated),
    ]);
    assert_eq!(error(simple(&mut s, SimpleAction::OpenSelectedMessage)), "No message selected");
    select(&mut s, "$1");
    match simple(&mut s, SimpleAction::OpenSelectedMessage).task {
        Some(Task::OpenUrls(urls)) => {
            assert_eq!(urls, ["https://example.org/a", "http://b.example"])
        }
        _ => panic!("nothing is opened"),
    }
    assert_eq!(s.message_content().unwrap(), "see https://example.org/a and <http://b.example>.");
    select(&mut s, "$2");
    assert!(noop(&simple(&mut s, SimpleAction::OpenSelectedMessage)));
    assert_eq!(
        error(string(&mut s, StringAction::SaveFile, "/tmp")),
        "No file to save in message DEBUG"
    );
    select(&mut s, "$3");
    match simple(&mut s, SimpleAction::OpenSelectedMessage).task {
        Some(Task::OpenFile(m)) => assert_eq!(m.event_id, "$3"),
        _ => panic!("nothing is opened"),
    }
    match string(&mut s, StringAction::SaveFile, "~/x").task {
        Some(Task::SaveFile(m, path, name)) => {
            assert_eq!(m.event_id, "$3");
            assert_eq!((path.as_str(), name.as_str()), ("~/x", "cat.png"));
        }
        _ => panic!("nothing is saved"),
    }
    select(&mut s, "$4");
    assert_eq!(
        error(simple(&mut s, SimpleAction::OpenSelectedMessage)),
        "No open action for message DEBUG"
    );
}

#[test]
fn files_have_types() {
    assert_eq!(mime_type("/tmp/a.png"), "image/png");
    assert_eq!(mime_type("notes.txt"), "text/plain");
    assert_eq!(mime_type("unknown"), "application/octet-stream");
}

#[test]
fn rooms_and_messages_are_selected() {
    let mut s = state(vec![text("$1", "a")]);
    assert!(done(&simple(&mut s, SimpleAction::SelectPrevMessage)));
    assert!(noop(&simple(&mut s, SimpleAction::SelectPrevMessage)));
    assert!(done(&simple(&mut s, SimpleAction::SelectNextMessage)));
    assert!(noop(&simple(&mut s, SimpleAction::SelectNextMessage)));
    assert!(noop(&simple(&mut s, SimpleAction::DeselectMessage)));
    assert!(done(&simple(&mut s, SimpleAction::SelectNextRoom)));
    assert_eq!(s.tui.room_selection.current(), Some("!b:x"));
    assert!(done(&simple(&mut s, SimpleAction::SelectRoomHistoryPrev)));
    assert_eq!(s.tui.room_selection.current(), Some("!a:x"));
    assert!(done(&simple(&mut s, SimpleAction::SelectRoomHistoryNext)));
    assert!(noop(&simple(&mut s, SimpleAction::SelectRoomHistoryNext)));
    assert!(done(&simple(&mut s, SimpleAction::SelectPrevRoom)));
    assert!(noop(&simple(&mut s, SimpleAction::ForceRoomSelection)));
    s.tui.set_current_room(None);
    assert!(done(&simple(&mut s, SimpleAction::ForceRoomSelection)));
    assert_eq!(s.tui.room_selection.current(), Some("!a:x"));
}

#[test]
fn a_filter_is_set_and_cleared() {
    let mut s = state(vec![text("$1", "foo"), text("$2", "bar")]);
    assert_eq!(
        error(string(&mut s, StringAction::SetFilter, "(")),
        Filter::parse("(").err().unwrap()
    );
    assert!(done(&string(&mut s, StringAction::SetFilter, "foo")));
    let _ = simple(&mut s, SimpleAction::SelectPrevMessage);
    assert!(matches!(&s.rooms[0].tui.selection, MessageSelection::Specific(id) if id == "$1"));
    assert!(done(&simple(&mut s, SimpleAction::ClearFilter)));
    let _ = simple(&mut s, SimpleAction::SelectNextMessage);
    assert!(matches!(&s.rooms[0].tui.selection, MessageSelection::Specific(id) if id == "$2"));
    assert_eq!(error(simple(&mut no_room(), SimpleAction::ClearFilter)), "No current room");
}

#[test]
fn modes_are_changed_with_their_hooks() {
    let mut modes = ModeSet::new();
    modes.define_on_enter(&Mode::Builtin(BuiltinMode::Insert), Action(1));
    let mut s = state(Vec::new());
    assert_eq!(error(s.plan_switch_mode(&modes, "odd")), "'odd' is not a mode");
    assert_eq!(error(s.plan_push_mode(&modes, "odd")), "'odd' is not a mode");
    let outcome =
        s.run_string_action(StringAction::SwitchMode, "insert".to_owned(), &around(true), &modes);
    match outcome.task {
        Some(Task::SwitchMode(change)) => {
            assert!(change.leave.is_none());
            assert_eq!(change.enter, Some(Action(1)));
            assert!(s.finish_switch_mode(change.new).is_ok());
        }
        _ => panic!("no change of mode"),
    }
    assert_eq!(s.tui.current_mode().as_str(), "insert");
    // Where the mode stays the same no hook is run.
    match s.plan_switch_mode(&modes, "insert").task {
        Some(Task::SwitchMode(change)) => {
            assert!(change.enter.is_none());
            assert!(s.finish_switch_mode(change.new).is_noop());
        }
        _ => panic!("no change of mode"),
    }
    match s.plan_push_mode(&modes, "insert").task {
        Some(Task::PushMode(change)) => {
            assert_eq!(change.enter, Some(Action(1)));
            assert!(s.finish_push_mode(change.new).is_ok());
        }
        _ => panic!("no change of mode"),
    }
    assert_eq!(s.tui.mode_stack.len(), 2);
    assert!(matches!(simple(&mut s, SimpleAction::PopMode).task, Some(Task::PopMode)));
    assert!(s.plan_pop_mode(&modes).is_none());
    let (result, enter) = s.finish_pop_mode(&modes);
    assert!(result.is_ok());
    assert_eq!(enter, Some(Action(1)));
    let (result, enter) = s.finish_pop_mode(&modes);
    assert!(matches!(
        result,
        ActionResult::Error(e) if e == "Cannot pop last element from mode stack."
    ));
    assert!(enter.is_none());
}

#[test]
fn text_is_typed_where_the_mode_says() {
    let mut s = state(Vec::new());
    for (mode, field) in [
        (BuiltinMode::Normal, TextField::Message),
        (BuiltinMode::Insert, TextField::Message),
        (BuiltinMode::Command, TextField::CommandLine),
        (BuiltinMode::RoomFilter, TextField::RoomFilter),
        (BuiltinMode::RoomFilterUnread, TextField::RoomFilter),
    ] {
        s.tui.push_mode(Mode::Builtin(mode));
        match string(&mut s, StringAction::Type, "abc").task {
            Some(Task::Write(f, text)) => {
                assert_eq!(f, field);
                assert_eq!(text, "abc");
            }
            _ => panic!("nothing is written"),
        }
    }
    assert_eq!(error(string(&mut no_room(), StringAction::Type, "a")), "No current room");
}

#[test]
fn the_cursor_is_moved() {
    let mut s = state(Vec::new());
    for (action, op) in [
        (SimpleAction::CursorMoveDown, EditOp::MoveDown),
        (SimpleAction::CursorMoveUp, EditOp::MoveUp),
        (SimpleAction::CursorDeleteLeft, EditOp::DeleteLeft),
        (SimpleAction::CursorDeleteRight, EditOp::DeleteRight),
    ] {
        assert!(matches!(simple(&mut s, action).task, Some(Task::Edit(o)) if o == op));
    }
    assert_eq!(error(simple(&mut no_room(), SimpleAction::CursorMoveUp)), "No current room");
    let word = TextElement::WordEnd;
    assert!(matches!(
        s.cursor_move_forward(word).task,
        Some(Task::Edit(EditOp::MoveForward(TextElement::WordEnd)))
    ));
    assert!(matches!(
        s.cursor_move_backward(word).task,
        Some(Task::Edit(EditOp::MoveBackward(TextElement::WordEnd)))
    ));
    let (left, right) = build_target_range(TextElement::CurrentPosition, word);
    match s.cursor_delete(TextElement::CurrentPosition, word).task {
        Some(Task::Edit(op)) => assert_eq!(op, EditOp::Delete(left, right)),
        _ => panic!("nothing is deleted"),
    }
    assert_eq!(
        s.cursor_yank(TextElement::CurrentPosition, word),
        Ok(("!a:x".to_owned(), (left, right)))
    );
    assert_eq!(no_room().cursor_yank(word, word), Err("No current room".to_owned()));
    assert_eq!(error(no_room().cursor_delete(word, word)), "No current room");
}

#[test]
fn text_elements_have_names() {
    assert_eq!(TextElement::from_name("cursor"), Ok(TextElement::CurrentPosition));
    assert_eq!(TextElement::from_name("WORD_end"), Ok(TextElement::WORDEnd));
    assert_eq!(TextElement::from_name("cell"), Ok(TextElement::GraphemeCluster));
    assert_eq!(TextElement::from_name("document_boundary"), Ok(TextElement::LineSeparator));
    assert_eq!(
        TextElement::from_name("page"),
        Err("'page' is not a text element".to_owned())
    );
    let (left, right) = build_target_range(TextElement::WordBegin, TextElement::WordEnd);
    let bound = |element, forward, included| TextBound { element, forward, included };
    assert_eq!(left, bound(TextElement::WordBegin, false, true));
    assert_eq!(right, bound(TextElement::WordEnd, true, true));
    let (_, right) = build_target_range(TextElement::Sentence, TextElement::Sentence);
    assert_eq!(right, bound(TextElement::Sentence, true, false));
}

#[test]
fn the_auxiliary_line() {
    let mut s = state(Vec::new());
    assert!(matches!(
        simple(&mut s, SimpleAction::AcceptAuxline).task,
        Some(Task::AuxLine(AuxLineOp::Accept))
    ));
    assert!(matches!(
        string(&mut s, StringAction::SwitchAuxline, "a").task,
        Some(Task::AuxLine(AuxLineOp::Select(i))) if i == "a"
    ));
    assert!(matches!(
        string(&mut s, StringAction::SetAuxlinePrompt, "> ").task,
        Some(Task::AuxLine(AuxLineOp::SetPrompt(p))) if p == "> "
    ));
    assert!(noop(&simple(&mut s, SimpleAction::ClearAuxline)));
    s.tui.command_line = "abc".to_owned();
    assert!(done(&simple(&mut s, SimpleAction::ClearAuxline)));
    assert_eq!(s.tui.command_line, "");
}

#[test]
fn errors_and_invitations_are_shown() {
    let mut s = state(Vec::new());
    assert!(noop(&simple(&mut s, SimpleAction::ClearErrorMessage)));
    assert!(done(&simple(&mut s, SimpleAction::ListInvitedRooms)));
    assert_eq!(s.tui.last_error_message, Some("Invited: !i:x, !j:x, ".to_owned()));
    assert!(done(&simple(&mut s, SimpleAction::ClearErrorMessage)));
    assert_eq!(s.tui.last_error_message, None);
}

#[test]
fn rooms_are_joined_and_left() {
    let mut s = state(Vec::new());
    assert!(matches!(simple(&mut s, SimpleAction::LeaveRoom).task, Some(Task::Leave(r)) if r == "!a:x"));
    let outcome = s.run_simple_action(SimpleAction::LeaveRoom, &around(false));
    assert_eq!(error(outcome), "Room not joined");
    assert!(matches!(
        string(&mut s, StringAction::CreateRoom, "New").task,
        Some(Task::CreateRoom(n)) if n == "New"
    ));
    assert!(matches!(
        string(&mut s, StringAction::JoinRoom, "!r:x").task,
        Some(Task::JoinRoom(r)) if r == "!r:x"
    ));
    assert_eq!(
        error(string(&mut s, StringAction::JoinRoom, "r")),
        ruma::RoomId::parse("r").unwrap_err().to_string()
    );
    assert!(matches!(
        string(&mut s, StringAction::Invite, "@u:x").task,
        Some(Task::Invite(r, u)) if r == "!a:x" && u == "@u:x"
    ));
    assert_eq!(
        error(string(&mut no_room(), StringAction::Invite, "u")),
        ruma::UserId::parse("u").unwrap_err().to_string()
    );
    assert_eq!(error(string(&mut no_room(), StringAction::Invite, "@u:x")), "No current room");
}

#[test]
fn reactions_and_files_are_sent() {
    let mut s = state(vec![text("$1", "a")]);
    assert_eq!(error(string(&mut s, StringAction::React, "+")), "No message selected");
    select(&mut s, "$1");
    assert!(matches!(
        string(&mut s, StringAction::React, "+").task,
        Some(Task::React(r, id, key)) if r == "!a:x" && id == "$1" && key == "+"
    ));
    assert!(matches!(
        string(&mut s, StringAction::SendFile, "~/f").task,
        Some(Task::SendFile(r, path)) if r == "!a:x" && path == "~/f"
    ));
    let outcome =
        s.run_string_action(StringAction::React, "+".to_owned(), &around(false), &ModeSet::new());
    assert_eq!(error(outcome), "Room not joined");
    let outcome =
        s.run_string_action(StringAction::SendFile, "f".to_owned(), &around(false), &ModeSet::new());
    assert_eq!(error(outcome), "Room not joined");
}

#[test]
fn other_actions() {
    let mut s = state(vec![text("$1", "a")]);
    assert!(matches!(simple(&mut s, SimpleAction::Quit).task, Some(Task::Quit)));
    assert!(matches!(string(&mut s, StringAction::Run, "x").task, Some(Task::Run(c)) if c == "x"));
    assert!(done(&string(&mut s, StringAction::SetEventDetail, "full")));
    assert_eq!(s.tui.event_detail, EventDetail::Full);
    assert!(noop(&string(&mut s, StringAction::SetEventDetail, "full")));
    assert_eq!(
        error(string(&mut s, StringAction::SetEventDetail, "odd")),
        "Invalid value for event detail: odd"
    );
    assert!(done(&simple(&mut s, SimpleAction::ClearTimelineCache)));
    assert_eq!(s.rooms[0].messages.end_id(), None);
    assert_eq!(s.message_content().unwrap_err(), "No message selected");
    assert_eq!(no_room().message_content().unwrap_err(), "No current room");
}
