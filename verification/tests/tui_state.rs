//! Modes, key input, the history of rooms and the list of rooms.

use sparse::config::{ConfigBuilder, ConfigCall};
use sparse::event::{Event, EventContent, MessageKind, Relation, RoomMessage};
use sparse::key::{parse_keys, Key, Keys};
use sparse::keymap::KeyMaps;
use sparse::timeline::{MessageBatch, MessageQuery, MessageQueryResult, SyncTimeline};
use sparse::tui_app::colors::Color;
use sparse::tui_app::tui::actions::{Action, ActionResult};
use sparse::tui_app::tui::history::RoomSelectionHistory;
use sparse::tui_app::tui::rooms::{RoomSummary, Rooms, RoomsMut};
use sparse::tui_app::tui::{
    BuiltinMode, EventDetail, KeyDecision, MessageQueryRequest, Mode, Tasks, TuiState,
};
use sparse::tui_app::{RoomInfo, RoomState, State};

fn info(id: &str, name: &str, unread: u64) -> RoomInfo {
    RoomInfo {
        id: id.to_owned(),
        name: name.to_owned(),
        latest_read_message: None,
        num_unread_notifications: unread,
        own_user_id: "@me:x".to_owned(),
        joined_user_ids: vec!["@me:x".to_owned(), "@you:x".to_owned()],
    }
}

fn state(rooms: &[(&str, &str, u64)]) -> State {
    let rooms = rooms
        .iter()
        .map(|(id, name, unread)| RoomState::from_room(info(id, name, *unread)))
        .collect();
    State::new(rooms, "@me:x".to_owned())
}

fn names(state: &State) -> Vec<String> {
    Rooms(state).as_widget().into_iter().map(|r| r.name).collect()
}

fn current(state: &State) -> Option<&str> {
    state.tui.room_selection.current()
}

fn message(id: &str) -> Event {
    Event {
        event_id: id.to_owned(),
        sender: "@you:x".to_owned(),
        timestamp: 0,
        content: EventContent::Message(RoomMessage {
            body: "text".to_owned(),
            kind: MessageKind::Text,
            relates_to: Relation::Unrelated,
            debug: String::new(),
        }),
    }
}

fn newest(events: Vec<Event>) -> MessageQueryResult {
    MessageQueryResult {
        query: MessageQuery::Newest,
        events: MessageBatch {
            chunk: events.into_iter().map(Some).collect(),
            state_events: 0,
            start: Some("start".to_owned()),
            end: None,
        },
    }
}

#[test]
fn builtin_modes_have_names() {
    for (name, mode) in [
        ("normal", BuiltinMode::Normal),
        ("insert", BuiltinMode::Insert),
        ("command", BuiltinMode::Command),
        ("roomfilter", BuiltinMode::RoomFilter),
        ("roomfilterunread", BuiltinMode::RoomFilterUnread),
    ] {
        assert_eq!(BuiltinMode::from_str(name), Ok(mode));
        assert_eq!(mode.to_string(), name);
        assert_eq!(Mode::Builtin(mode).to_string(), name);
    }
    assert_eq!(BuiltinMode::from_str("Normal"), Err(()));
    let custom = Mode::Custom("mine".to_owned(), BuiltinMode::Insert);
    assert_eq!(custom.to_string(), "mine");
    assert_eq!(custom.builtin_mode(), BuiltinMode::Insert);
}

#[test]
fn event_details_have_names() {
    for (name, detail) in [
        ("full", EventDetail::Full),
        ("selected", EventDetail::Selected),
        ("reduced", EventDetail::Reduced),
    ] {
        assert_eq!(EventDetail::from_str(name), Ok(detail));
        assert_eq!(detail.to_string(), name);
    }
    assert_eq!(EventDetail::from_str(""), Err(()));
    assert_eq!(EventDetail::default(), EventDetail::Selected);
}

#[test]
fn modes_are_stacked() {
    let mut tui = TuiState::new(None);
    let insert = Mode::Builtin(BuiltinMode::Insert);
    assert_eq!(tui.current_mode().as_str(), "normal");
    assert_eq!(tui.pop_mode(), Err(()));
    tui.push_mode(insert.clone());
    assert_eq!(tui.current_mode().as_str(), "insert");
    assert_eq!(tui.switch_mode(insert.clone()), Err(()));
    assert_eq!(tui.switch_mode(Mode::Custom("i".to_owned(), BuiltinMode::Insert)), Ok(()));
    assert_eq!(tui.current_mode().as_str(), "i");
    assert_eq!(tui.pop_mode(), Ok(()));
    assert_eq!(tui.current_mode().as_str(), "normal");
    assert_eq!(tui.mode_stack.len(), 1);
}

#[test]
fn lines_are_cleared_when_their_mode_is_left() {
    let mut tui = TuiState::new(None);
    tui.push_mode(Mode::Builtin(BuiltinMode::RoomFilter));
    tui.room_filter_line = "foo".to_owned();
    let _ = tui.switch_mode(Mode::Builtin(BuiltinMode::RoomFilterUnread));
    assert_eq!(tui.room_filter_line, "foo");
    let _ = tui.switch_mode(Mode::Builtin(BuiltinMode::Command));
    assert_eq!(tui.room_filter_line, "");
    tui.command_line = "bar".to_owned();
    tui.push_mode(Mode::Builtin(BuiltinMode::Command));
    assert_eq!(tui.command_line, "bar");
    tui.push_mode(Mode::Builtin(BuiltinMode::Insert));
    assert_eq!(tui.command_line, "");
}

fn keymaps() -> KeyMaps {
    let mut builder = ConfigBuilder::new();
    for (keys, mode, n) in [("gg", "normal", 1), ("x", "insert", 2)] {
        builder
            .configure(ConfigCall::Bind(keys.to_owned(), mode.to_owned(), Action(n)))
            .unwrap();
    }
    builder.configure(ConfigCall::Host("x".to_owned())).unwrap();
    builder.configure(ConfigCall::User("me".to_owned())).unwrap();
    builder.finalize().unwrap().keymaps
}

#[test]
fn keys_are_collected_until_they_mean_something() {
    let maps = keymaps();
    let mut tui = TuiState::new(None);
    assert!(matches!(tui.handle_key(Key::Char('g'), &maps), KeyDecision::Consumed));
    assert_eq!(tui.previous_keys.to_string(), "g");
    assert!(matches!(tui.handle_key(Key::Char('g'), &maps), KeyDecision::Run(Action(1))));
    assert_eq!(tui.previous_keys.to_string(), "");
    assert!(matches!(tui.handle_key(Key::Char('g'), &maps), KeyDecision::Consumed));
    assert!(matches!(tui.handle_key(Key::Char('h'), &maps), KeyDecision::PassOn));
    assert_eq!(tui.previous_keys.to_string(), "");
    assert!(matches!(tui.handle_key(Key::Char('x'), &maps), KeyDecision::PassOn));
    let _ = tui.switch_mode(Mode::Builtin(BuiltinMode::Insert));
    assert!(matches!(tui.handle_key(Key::Char('x'), &maps), KeyDecision::Run(Action(2))));
    tui.previous_keys = Keys(parse_keys("xy").unwrap());
    assert!(matches!(tui.handle_key(Key::Esc, &maps), KeyDecision::PassOn));
}

#[test]
fn errors_of_actions_are_shown() {
    let mut tui = TuiState::new(None);
    tui.note_result(Ok(ActionResult::Noop));
    assert_eq!(tui.last_error_message, None);
    tui.note_result(Ok(ActionResult::Error("a".to_owned())));
    assert_eq!(tui.last_error_message, Some("a".to_owned()));
    tui.note_result(Err("b".to_owned()));
    assert_eq!(tui.last_error_message, Some("b".to_owned()));
    tui.note_result(Ok(ActionResult::Done));
    assert_eq!(tui.last_error_message, Some("b".to_owned()));
}

#[test]
fn the_history_of_rooms() {
    let mut history = RoomSelectionHistory::default();
    assert_eq!(history.current(), None);
    assert_eq!(history.scroll_backwards(), Err(()));
    assert_eq!(history.scroll_forwards(), Err(()));
    for id in ["a", "b", "c"] {
        history.select(id);
        assert_eq!(history.current(), Some(id));
    }
    assert_eq!(history.scroll_forwards(), Err(()));
    assert_eq!(history.scroll_backwards(), Ok(()));
    assert_eq!(history.current(), Some("b"));
    assert_eq!(history.scroll_backwards(), Ok(()));
    assert_eq!(history.scroll_backwards(), Err(()));
    assert_eq!(history.current(), Some("a"));
    assert_eq!(history.scroll_forwards(), Ok(()));
    assert_eq!(history.current(), Some("b"));
    // The room that is selected becomes the newest one.
    history.select("a");
    assert_eq!(history.scroll_backwards(), Ok(()));
    assert_eq!(history.current(), Some("c"));
    history.deselect();
    assert_eq!(history.current(), None);
    assert_eq!(history.scroll_backwards(), Ok(()));
    assert_eq!(history.current(), Some("a"));
}

#[test]
fn rooms_are_sorted_and_the_first_one_is_selected() {
    let s = state(&[("!b", "B", 0), ("!a", "A", 0), ("!c", "C", 0)]);
    assert_eq!(names(&s), ["A", "B", "C"]);
    assert_eq!(current(&s), Some("!a"));
    assert_eq!(s.current_room_state().unwrap().name(), "A");
    assert_eq!(s.room_index("!c"), Some(2));
    assert!(!s.knows_room("!d"));
    assert_eq!(s.user_id(), "@me:x");
    assert!(state(&[]).current_room_state().is_none());
}

#[test]
fn rooms_are_filtered_by_name() {
    let mut s = state(&[("!a", "Foo", 0), ("!b", "foobar", 3), ("!c", "ÄÖÜ", 1)]);
    assert!(!Rooms(&s).shows_filter());
    s.tui.push_mode(Mode::Builtin(BuiltinMode::RoomFilter));
    assert!(Rooms(&s).shows_filter());
    s.tui.room_filter_line = "foo".to_owned();
    assert_eq!(names(&s), ["Foo", "foobar"]);
    // With a capital letter the case matters.
    s.tui.room_filter_line = "Foo".to_owned();
    assert_eq!(names(&s), ["Foo"]);
    assert!(Rooms(&s).active_contains_current());
    s.tui.room_filter_line = "öü".to_owned();
    assert_eq!(names(&s), ["ÄÖÜ"]);
    assert!(!Rooms(&s).active_contains_current());
    let _ = s.tui.switch_mode(Mode::Builtin(BuiltinMode::RoomFilterUnread));
    s.tui.room_filter_line = "foo".to_owned();
    assert_eq!(names(&s), ["foobar"]);
    s.tui.room_filter_line = String::new();
    assert_eq!(Rooms(&s).active_rooms(), [1, 2]);
}

#[test]
fn rooms_are_scrolled_through_in_a_circle() {
    let mut s = state(&[("!a", "A", 0), ("!b", "B", 1), ("!c", "C", 1)]);
    assert_eq!(RoomsMut(&mut s).scroll_forwards(), Ok(()));
    assert_eq!(current(&s), Some("!b"));
    assert_eq!(RoomsMut(&mut s).scroll_backwards(), Ok(()));
    assert_eq!(current(&s), Some("!a"));
    assert_eq!(RoomsMut(&mut s).scroll_backwards(), Ok(()));
    assert_eq!(current(&s), Some("!c"));
    assert_eq!(RoomsMut(&mut s).scroll_forwards(), Ok(()));
    assert_eq!(current(&s), Some("!a"));
    // A room that is filtered out leads to the first or last one that is not.
    s.tui.push_mode(Mode::Builtin(BuiltinMode::RoomFilterUnread));
    assert_eq!(RoomsMut(&mut s).scroll_forwards(), Ok(()));
    assert_eq!(current(&s), Some("!b"));
    s.tui.set_current_room(Some("!a"));
    assert_eq!(RoomsMut(&mut s).scroll_backwards(), Ok(()));
    assert_eq!(current(&s), Some("!c"));
    s.tui.room_filter_line = "nothing".to_owned();
    assert_eq!(RoomsMut(&mut s).scroll_backwards(), Ok(()));
    assert_eq!(current(&s), Some("!c"));
    s.tui.set_current_room(None);
    assert_eq!(RoomsMut(&mut s).scroll_backwards(), Ok(()));
    assert_eq!(current(&s), Some("!c"));
    s.tui.set_current_room(None);
    assert!(!RoomsMut(&mut s).as_rooms().active_contains_current());
    assert_eq!(RoomsMut(&mut s).scroll_forwards(), Ok(()));
    assert_eq!(current(&s), Some("!a"));
}

#[test]
fn a_room_in_the_list() {
    let read = RoomSummary { name: "日本".to_owned(), num_unread_notifications: 0, current: false };
    assert_eq!(read.unread_text(), "");
    assert_eq!(read.color(), Color::Default);
    assert_eq!(read.space_demand(), 4);
    let unread = RoomSummary { name: "abc".to_owned(), num_unread_notifications: 12, current: true };
    assert_eq!(unread.unread_text(), " 12");
    assert_eq!(unread.color(), Color::Yellow);
    assert_eq!(unread.space_demand(), 6);
    let s = state(&[("!a", "A", 0), ("!b", "B", 7)]);
    let list = Rooms(&s).as_widget();
    assert!(list[0].current && !list[1].current);
    assert_eq!(list[1].num_unread_notifications, 7);
}

#[test]
fn a_new_room_is_inserted() {
    let mut s = state(&[("!a", "A", 0), ("!c", "C", 0)]);
    s.update_room_info(info("!b", "B", 2));
    assert_eq!(names(&s), ["A", "B", "C"]);
    assert_eq!(s.rooms[1].num_unread_notifications(), 2);
    s.update_room_info(info("!b", "New", 9));
    assert_eq!(names(&s), ["A", "New", "C"]);
    // Only the name and the colours of a known room are changed.
    assert_eq!(s.rooms[1].num_unread_notifications(), 2);
    assert_eq!(current(&s), Some("!a"));
}

#[test]
fn a_sync_goes_to_its_room() {
    let mut s = state(&[("!a", "A", 0)]);
    s.update_messages("!a", newest(vec![message("$1")]));
    let sync = SyncTimeline { events: vec![Some(message("$2"))], limited: false, prev_batch: None };
    s.handle_sync("!a", None, sync, "end");
    assert_eq!(s.rooms[0].messages.end_id(), Some("$2"));
    let sync = SyncTimeline { events: vec![Some(message("$3"))], limited: false, prev_batch: None };
    s.handle_sync("!0", Some(RoomState::from_room(info("!0", "O", 0))), sync, "end");
    assert_eq!(names(&s), ["O", "A"]);
    // Nothing is known of the new room's newest events yet.
    assert_eq!(s.rooms[0].messages.end_id(), None);
    let task = MessageQueryRequest { room: "!a".to_owned(), kind: MessageQuery::AfterCache };
    assert_eq!(s.query_for(&task, Some("last".to_owned())).from, "end");
}

#[test]
fn a_new_key_resets_rooms_with_undecrypted_messages() {
    let mut s = state(&[("!a", "A", 0)]);
    s.update_messages("!a", newest(vec![message("$1")]));
    s.try_reset_timeline_cache("!a");
    assert_eq!(s.rooms[0].messages.end_id(), Some("$1"));
    let mut secret = message("$2");
    secret.content = EventContent::Encrypted;
    s.update_messages("!a", newest(vec![secret]));
    s.try_reset_timeline_cache("!a");
    assert_eq!(s.rooms[0].messages.end_id(), None);
}

#[test]
fn reading_a_room() {
    let mut s = state(&[("!a", "A", 3)]);
    assert!(s.rooms[0].has_unread());
    assert_eq!(s.rooms[0].mark_newest_event_as_read(), None);
    s.update_messages("!a", newest(vec![message("$1")]));
    assert_eq!(s.mark_current_room_as_read(), Some(("!a".to_owned(), "$1".to_owned())));
    assert_eq!(s.mark_current_room_as_read(), None);
    assert_eq!(s.rooms[0].latest_read_message, Some("$1".to_owned()));
    s.set_unread_notifications("!a", 5);
    assert_eq!(s.rooms[0].num_unread_notifications(), 5);
}

#[test]
fn the_last_query_is_kept() {
    let mut tasks = Tasks::new();
    assert!(tasks.message_query.is_none());
    tasks.set_message_query("!a", MessageQuery::Newest);
    tasks.set_message_query("!b", MessageQuery::BeforeCache);
    let query = tasks.message_query.unwrap();
    assert_eq!(query.room, "!b");
    assert_eq!(query.kind, MessageQuery::BeforeCache);
}
