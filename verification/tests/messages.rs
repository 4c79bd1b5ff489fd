//! How messages are drawn, laid out and selected.

use sparse::event::{
    CallStep, Event, EventContent, MembershipChange, MessageKind, Relation, RoomMessage,
    StateChange,
};
use sparse::timeline::{
    MessageBatch, MessageQuery, MessageQueryResult, SyncTimeline, QUERY_BATCH_SIZE_LIMIT,
};
use sparse::tui_app::colors::Color;
use sparse::tui_app::tui::drawing::{
    draw_event_preview, preview_overflows, DrawEvent, DrawOp, Drawing, TuiEvent, REPLY_PREFIX,
};
use sparse::tui_app::tui::messages::{
    detailed, draw_newest, draw_specific, msg_edit_preview, strip_body, Measuring, Messages,
    MessagesLayout, MessagesMut, Rows, WalkPoint,
};
use sparse::tui_app::tui::{EventDetail, MessageSelection, SendMessageType};
use sparse::tui_app::{RoomInfo, RoomState, State};

fn event(id: &str, content: EventContent) -> Event {
    Event {
        event_id: id.to_owned(),
        sender: "@you:x".to_owned(),
        timestamp: 5999,
        content,
    }
}

fn of_kind(id: &str, body: &str, kind: MessageKind, relates_to: Relation) -> Event {
    let content = RoomMessage {
        body: body.to_owned(),
        kind,
        relates_to,
        debug: "DEBUG".to_owned(),
    };
    event(id, EventContent::Message(content))
}

fn text(id: &str, body: &str) -> Event {
    of_kind(id, body, MessageKind::Text, Relation::Unrelated)
}

fn room(events: Vec<Event>) -> RoomState {
    let mut room = RoomState::from_room(RoomInfo {
        id: "!a".to_owned(),
        name: "A".to_owned(),
        latest_read_message: None,
        num_unread_notifications: 0,
        own_user_id: "@you:x".to_owned(),
        joined_user_ids: vec!["@you:x".to_owned()],
    });
    room.messages.update(MessageQueryResult {
        query: MessageQuery::Newest,
        events: MessageBatch {
            chunk: Vec::new(),
            state_events: 0,
            start: Some("start".to_owned()),
            end: None,
        },
    });
    let timeline = SyncTimeline {
        events: events.into_iter().map(Some).collect(),
        limited: false,
        prev_batch: None,
    };
    room.messages.handle_sync_batch(timeline, "end");
    room
}

fn state(events: Vec<Event>) -> State {
    State::new(vec![room(events)], "@you:x".to_owned())
}

/// A drawing in a short form: what is written as it is, and signs for the rest.
fn shown(drawing: &Drawing) -> String {
    let mut s = String::new();
    for op in &drawing.ops {
        match op {
            DrawOp::Text(t) => s.push_str(t),
            DrawOp::User(u, c) => s.push_str(&format!("[{} {:?}]", u, c)),
            DrawOp::Time(t) => s.push_str(&format!("[{}]", t)),
            DrawOp::Wrap => s.push('~'),
            DrawOp::Italic => s.push('/'),
            DrawOp::LineStart => s.push('^'),
            DrawOp::WrapLine => s.push('\n'),
            DrawOp::SaveStyle => s.push('{'),
            DrawOp::RestoreStyle => s.push('}'),
            DrawOp::SaveLineStart => s.push('<'),
            DrawOp::RestoreLineStart => s.push('>'),
            DrawOp::PreviewStart => s.push_str("(("),
            DrawOp::PreviewEnd => s.push_str("))"),
        }
    }
    s
}

fn drawn(room: &RoomState, id: &str, detailed: bool) -> String {
    let event = room.messages.message_from_id(id).unwrap();
    let event = TuiEvent { event, room_state: room, detailed };
    assert!(event.can_be_drawn());
    shown(&event.draw_with_cursor())
}

/// How a single event is drawn, without its time.
fn drawn_alone(content: EventContent) -> String {
    let room = room(Vec::new());
    let mut out = Drawing::new();
    event("$1", content).draw(&room, &mut out, false);
    shown(&out)
}

fn drawn_message(kind: MessageKind) -> String {
    match of_kind("$1", "B", kind, Relation::Unrelated).content {
        content => drawn_alone(content),
    }
}

#[test]
fn quotations_are_stripped() {
    assert_eq!(strip_body("text"), "text");
    assert_eq!(strip_body("> a\n> b\n\ntext\n> c"), "text\n> c");
    assert_eq!(strip_body("> a\ntext"), "text");
    assert_eq!(strip_body("\n\ntext"), "\ntext");
    assert_eq!(strip_body("> a"), "");
    assert_eq!(strip_body(">a\nb"), ">a\nb");
    assert_eq!(strip_body(""), "");
}

#[test]
fn messages_are_drawn_by_kind() {
    let user = "{[@you:x White]~";
    assert_eq!(drawn_message(MessageKind::Text), format!("{}: ^B}}", user));
    assert_eq!(drawn_message(MessageKind::Image), format!("{}/ sent an image (B)}}", user));
    assert_eq!(drawn_message(MessageKind::Video), format!("{}/ sent a video (B)}}", user));
    assert_eq!(drawn_message(MessageKind::Audio), format!("{}/ sent an audio message (B)}}", user));
    assert_eq!(drawn_message(MessageKind::File), format!("{}/ sent a file (B)}}", user));
    assert_eq!(drawn_message(MessageKind::Emote), format!("{}/ B}}", user));
    assert_eq!(
        drawn_message(MessageKind::Location("geo:1,2".to_owned())),
        format!("{}/ sends the location B (geo:1,2)}}", user)
    );
    assert_eq!(drawn_message(MessageKind::Notice), format!("{}: /^B}}", user));
    assert_eq!(drawn_message(MessageKind::ServerNotice), format!("{}: /^B [server notice]}}", user));
    assert_eq!(
        drawn_message(MessageKind::VerificationRequest),
        format!("{} sent a verification request.}}", user)
    );
    assert_eq!(
        drawn_message(MessageKind::Custom("INNER".to_owned())),
        format!("{} sent a custom event: /^INNER}}", user)
    );
    assert_eq!(drawn_message(MessageKind::Other), format!("{}~Other message DEBUG}}", user));
}

#[test]
fn other_events_are_drawn() {
    let s = |t: &str| t.to_owned();
    assert_eq!(
        drawn_alone(EventContent::Encrypted),
        "{~/*Unable to decrypt message from [@you:x White]*}"
    );
    assert_eq!(
        drawn_alone(EventContent::Call(CallStep::Hangup)),
        "{~/Call hangup from [@you:x White].}"
    );
    assert_eq!(
        drawn_alone(EventContent::VerificationStart),
        "{~/Ignoring verification start message from [@you:x White].}"
    );
    assert_eq!(drawn_alone(EventContent::VerificationStep), "{}");
    assert_eq!(drawn_alone(EventContent::Feedback), "{}");
    assert_eq!(drawn_alone(EventContent::Redaction(None, s("R"))), "{~Room Redaction R}");
    assert_eq!(
        drawn_alone(EventContent::Sticker(s("S"))),
        "{[@you:x White]/ sent a sticker (S)}"
    );
    assert_eq!(drawn_alone(EventContent::CustomMessage(s("C"))), "{ sent a message event: /^C}");
    assert_eq!(drawn_alone(EventContent::OtherMessage(s("O"))), "{~Other message event O}");
    assert_eq!(drawn_alone(EventContent::Other(s("O"))), "{~Other event O}");
}

#[test]
fn state_changes_are_drawn() {
    let s = |t: &str| t.to_owned();
    let state = |change: StateChange| drawn_alone(EventContent::State(change));
    let user = "{~/[@you:x White]";
    assert_eq!(
        state(StateChange::CanonicalAlias(Some(s("#a:x")))),
        format!("{} changed the canonical room alias to #a:x.}}", user)
    );
    assert_eq!(
        state(StateChange::CanonicalAlias(None)),
        format!("{} has removed the room alias.}}", user)
    );
    assert_eq!(state(StateChange::Create), format!("{} created the room.}}", user));
    assert_eq!(state(StateChange::Aliases), "{~/}");
    assert_eq!(state(StateChange::Avatar), "{~/}");
    assert_eq!(state(StateChange::Encryption), format!("{} enabled encryption.}}", user));
    assert_eq!(
        state(StateChange::GuestAccess(s("can_join"))),
        format!("{} changed the guest access to can_join.}}", user)
    );
    assert_eq!(
        state(StateChange::HistoryVisibility(s("shared"))),
        format!("{} changed the history visibility to shared.}}", user)
    );
    assert_eq!(
        state(StateChange::JoinRules(s("public"))),
        format!("{} changed the join rules to public.}}", user)
    );
    assert_eq!(
        state(StateChange::Name(Some(s("N")))),
        format!("{} changed the room name to 'N'.}}", user)
    );
    assert_eq!(state(StateChange::Name(None)), format!("{} has unset the room name.}}", user));
    assert_eq!(
        state(StateChange::PinnedEvents(s("[1]"))),
        format!("{} has pinned the following events [1].}}", user)
    );
    assert_eq!(
        state(StateChange::ThirdPartyInvite(s("T"))),
        format!("{} has invited T.}}", user)
    );
    assert_eq!(
        state(StateChange::Topic(s("T"))),
        format!("{} has changed the topic to 'T'.}}", user)
    );
    assert_eq!(state(StateChange::Other(s("O"))), "{~/Other state event O}");
}

#[test]
fn changes_of_membership_are_drawn() {
    let member = |change: MembershipChange| {
        drawn_alone(EventContent::State(StateChange::Member(change, Some("You".to_owned()))))
    };
    assert_eq!(member(MembershipChange::Unchanged), "{~/}");
    assert_eq!(member(MembershipChange::Joined), "{~/You joined.}");
    assert_eq!(member(MembershipChange::Left), "{~/You left.}");
    assert_eq!(member(MembershipChange::Banned), "{~/You was banned.}");
    assert_eq!(member(MembershipChange::Unbanned), "{~/You was unbanned.}");
    assert_eq!(member(MembershipChange::Kicked), "{~/You was kicked.}");
    assert_eq!(member(MembershipChange::Invited), "{~/You was invited.}");
    assert_eq!(member(MembershipChange::KickedAndBanned), "{~/You was kicked and banned.}");
    assert_eq!(member(MembershipChange::InvitationRejected), "{~/You rejected the invitation.}");
    assert_eq!(member(MembershipChange::InvitationRevoked), "{~/You's invitation was revoked.}");
    assert_eq!(
        member(MembershipChange::ProfileChanged(true)),
        "{~/You changed their displayname.}"
    );
    assert_eq!(
        member(MembershipChange::ProfileChanged(false)),
        "{~/You had another state change}"
    );
    assert_eq!(member(MembershipChange::NotImplemented), "{~/}");
    assert_eq!(member(MembershipChange::Other), "{~/You had another state change}");
    assert_eq!(
        drawn_alone(EventContent::State(StateChange::Member(MembershipChange::Joined, None))),
        "{~/Unknown user joined.}"
    );
}

#[test]
fn what_makes_no_sense_is_not_drawn() {
    let change = StateChange::Member(MembershipChange::Error, None);
    let room = room(vec![event("$1", EventContent::State(change)), text("$2", "a")]);
    let can_be_drawn = |id: &str| {
        let event = room.messages.message_from_id(id).unwrap();
        TuiEvent { event, room_state: &room, detailed: false }.can_be_drawn()
    };
    assert!(!can_be_drawn("$1"));
    assert!(can_be_drawn("$2"));
}

#[test]
fn an_entry_has_its_time_in_front() {
    let room = room(vec![text("$1", "> quoted\n\nanswer")]);
    assert_eq!(drawn(&room, "$1", false), "[5] ^{[@you:x White]~: ^answer}");
    assert_eq!(drawn(&room, "$1", true), "[5] ^{[@you:x White]~: ^answer}");
}

#[test]
fn a_reply_shows_what_it_answers_to() {
    let reply = |id: &str| of_kind("$2", "b", MessageKind::Text, Relation::Reply(id.to_owned()));
    let known = room(vec![text("$1", "a"), reply("$1")]);
    assert_eq!(
        drawn(&known, "$2", false),
        "[5] ^{((┏➤ {[@you:x White]~: ^a}))\n[@you:x White]~: ^b}"
    );
    let unknown = room(vec![text("$1", "a"), reply("$0")]);
    assert_eq!(drawn(&unknown, "$2", false), "[5] ^{[@you:x White]~: ^b}");
}

#[test]
fn a_removed_message_is_drawn() {
    let redaction = EventContent::Redaction(Some("$1".to_owned()), String::new());
    let room = room(vec![text("$1", "a"), event("$2", redaction)]);
    assert_eq!(drawn(&room, "$1", false), "[5] ^{[@you:x White]/ deleted message}");
    assert_eq!(drawn(&room, "$1", true), "[5] ^{[@you:x White]~: ^a}{/ (deleted)}");
}

#[test]
fn an_edited_message_is_drawn() {
    let edit = |id: &str, body: &str| {
        of_kind(id, body, MessageKind::Text, Relation::Replacement("$1".to_owned()))
    };
    let room = room(vec![text("$1", "a"), edit("$2", "b"), edit("$3", "c")]);
    assert_eq!(drawn(&room, "$1", false), "[5] ^{[@you:x White]~: ^c}{/ (edited)}");
    assert_eq!(
        drawn(&room, "$1", true),
        "[5] ^{<{[@you:x White]~: ^a}>}{<\n[5] {[@you:x White]~: ^b}>}{<\n[5] {[@you:x White]~: ^c}>}"
    );
}

#[test]
fn reactions_are_drawn() {
    let react = |id: &str, key: &str| {
        event(id, EventContent::Reaction("$1".to_owned(), key.to_owned()))
    };
    let room = room(vec![text("$1", "a"), react("$2", "+"), react("$3", "-"), react("$4", "+")]);
    assert_eq!(
        drawn(&room, "$1", false),
        "[5] ^{[@you:x White]~: ^a}{/\nReactions: }+{/ 2}  -  "
    );
    assert_eq!(
        drawn(&room, "$1", true),
        "[5] ^{[@you:x White]~: ^a}{/\nReactions: }\n[@you:x White] [@you:x White] +\n[@you:x White] -"
    );
}

#[test]
fn unknown_users_have_the_default_color() {
    let mut other = text("$1", "a");
    other.sender = "@new:x".to_owned();
    let room = room(vec![other]);
    assert_eq!(drawn(&room, "$1", false), "[5] ^{[@new:x Default]~: ^a}");
    assert_eq!(room.user_colors.get("@you:x"), Some(&Color::White));
}

#[test]
fn a_preview_is_cut_off() {
    let room = room(vec![text("$1", "a")]);
    let mut out = Drawing::new();
    draw_event_preview(REPLY_PREFIX, &room.messages.message_from_id("$1").unwrap(), &room, &mut out);
    assert_eq!(shown(&out), "((┏➤ {[@you:x White]~: ^a}))");
    assert!(!preview_overflows(0, 9, 10));
    assert!(preview_overflows(0, 10, 10));
    assert!(preview_overflows(1, 0, 10));
}

#[test]
fn a_special_message_is_previewed() {
    let mut room = room(vec![text("$1", "a")]);
    assert!(msg_edit_preview(&room).is_none());
    let message = text("$1", "a").to_message_event().unwrap();
    room.tui.msg_edit_type = SendMessageType::Reply("$1".to_owned(), message);
    assert_eq!(shown(&msg_edit_preview(&room).unwrap()), "((┏➤ [@you:x White]~: ^a))");
    let message = text("$1", "a").to_message_event().unwrap();
    room.tui.msg_edit_type = SendMessageType::Edit("$1".to_owned(), message);
    assert_eq!(shown(&msg_edit_preview(&room).unwrap()), "((Editing: [@you:x White]~: ^a))");
}

#[test]
fn details_depend_on_the_setting() {
    assert!(detailed(EventDetail::Full, false));
    assert!(!detailed(EventDetail::Reduced, true));
    assert!(detailed(EventDetail::Selected, true));
    assert!(!detailed(EventDetail::Selected, false));
}

fn selected(state: &State) -> Option<&str> {
    match &state.rooms[0].tui.selection {
        MessageSelection::Newest => None,
        MessageSelection::Specific(id) => Some(id),
    }
}

#[test]
fn messages_are_scrolled_through() {
    let mut s = state(vec![text("$1", "a"), text("$2", "b")]);
    assert_eq!(MessagesMut(&mut s).scroll_forwards(), Err(()));
    assert_eq!(MessagesMut(&mut s).scroll_to_end(), Err(()));
    assert_eq!(MessagesMut(&mut s).scroll_backwards(), Ok(()));
    assert_eq!(selected(&s), Some("$2"));
    assert_eq!(MessagesMut(&mut s).scroll_backwards(), Ok(()));
    assert_eq!(selected(&s), Some("$1"));
    // Older messages are not known yet.
    assert_eq!(MessagesMut(&mut s).scroll_backwards(), Err(()));
    assert_eq!(MessagesMut(&mut s).scroll_forwards(), Ok(()));
    assert_eq!(selected(&s), Some("$2"));
    assert_eq!(MessagesMut(&mut s).scroll_forwards(), Ok(()));
    assert_eq!(selected(&s), None);
    let _ = MessagesMut(&mut s).scroll_backwards();
    assert_eq!(MessagesMut(&mut s).scroll_to_end(), Ok(()));
    assert_eq!(selected(&s), None);
    let _ = MessagesMut(&mut s).scroll_backwards();
    assert_eq!(MessagesMut(&mut s).deselect_message(), Ok(()));
    assert_eq!(selected(&s), None);
    s.rooms[0].tui.selection = MessageSelection::Specific("$9".to_owned());
    assert_eq!(MessagesMut(&mut s).scroll_backwards(), Err(()));
    assert_eq!(MessagesMut(&mut s).scroll_forwards(), Err(()));
    let mut none = State::new(Vec::new(), "@you:x".to_owned());
    assert_eq!(MessagesMut(&mut none).scroll_backwards(), Err(()));
}

#[test]
fn the_newest_messages_are_laid_out_upwards() {
    let s = state(vec![text("$1", "a"), text("$2", "b"), text("$3", "c")]);
    let cache = &s.rooms[0].messages;
    let layout = match Messages(&s).draw(10) {
        MessagesLayout::Newest(layout) => layout,
        _ => panic!("nothing is selected"),
    };
    assert!(layout.query.is_none() && layout.symbol_row.is_none());
    let mut up = layout.messages.unwrap();
    assert!(matches!(&up.at, WalkPoint::Message(id) if id == "$3"));
    assert_eq!(up.place(cache, 4), Some(Rows { top: 6, height: 4 }));
    assert!(matches!(&up.at, WalkPoint::Message(id) if id == "$2"));
    assert_eq!(up.place(cache, 6), Some(Rows { top: 0, height: 6 }));
    assert!(up.query().is_none());
    assert_eq!(up.place(cache, 1), None);
    assert!(matches!(up.at, WalkPoint::End));
    let mut up = draw_newest(cache, 3).messages.unwrap();
    for top in [2, 1, 0] {
        assert_eq!(up.place(cache, 1), Some(Rows { top, height: 1 }));
    }
    assert_eq!(up.query(), Some(MessageQuery::BeforeCache));
}

#[test]
fn missing_messages_are_fetched() {
    let fresh = RoomState::from_room(RoomInfo {
        id: "!a".to_owned(),
        name: "A".to_owned(),
        latest_read_message: None,
        num_unread_notifications: 0,
        own_user_id: "@you:x".to_owned(),
        joined_user_ids: Vec::new(),
    });
    let layout = draw_newest(&fresh.messages, 10);
    assert_eq!(layout.query, Some(MessageQuery::Newest));
    assert_eq!(layout.symbol_row, Some(9));
    assert!(layout.messages.is_none());
    let layout = draw_newest(&room(Vec::new()).messages, 0);
    assert_eq!(layout.query, Some(MessageQuery::BeforeCache));
    assert_eq!(layout.symbol_row, Some(0));
    let mut room = room(vec![text("$1", "a")]);
    room.messages.update(MessageQueryResult {
        query: MessageQuery::AfterCache,
        events: MessageBatch {
            chunk: vec![Some(text("$2", "b"))],
            state_events: QUERY_BATCH_SIZE_LIMIT as usize,
            start: None,
            end: Some("end".to_owned()),
        },
    });
    let up = draw_newest(&room.messages, 10).messages.unwrap();
    assert_eq!(up.height, 9);
    assert!(matches!(&up.at, WalkPoint::Message(id) if id == "$2"));
    let mut measuring = Measuring::new(&room.messages, "$2", 10);
    measuring.add(&room.messages, 2);
    assert_eq!(measuring.collected, 3);
    let mut below = draw_specific(&room.messages, "$2", 10, 3).below;
    assert_eq!(below.place(&room.messages, 2, "$2"), Some((Rows { top: 7, height: 2 }, true)));
    assert_eq!(below.query(&room.messages), Some(MessageQuery::AfterCache));
}

#[test]
fn a_selected_message_is_kept_in_view() {
    let events = (1..9).map(|i| text(&format!("${}", i), "a")).collect();
    let mut s = state(events);
    s.rooms[0].tui.selection = MessageSelection::Specific("$4".to_owned());
    let mut measuring = match Messages(&s).draw(10) {
        MessagesLayout::Specific(id, measuring) => {
            assert_eq!(id, "$4");
            measuring
        }
        _ => panic!("a message is selected"),
    };
    let cache = &s.rooms[0].messages;
    let mut added = 0;
    while let WalkPoint::Message(_) = measuring.at {
        measuring.add(cache, 2);
        added += 1;
    }
    // The events from the selected one on fill more than half of the window.
    assert_eq!(added, 3);
    assert_eq!(measuring.collected, 6);
    let layout = draw_specific(cache, "$4", 10, measuring.collected);
    let mut above = layout.above.unwrap();
    assert_eq!(above.height, 4);
    assert!(matches!(&above.at, WalkPoint::Message(id) if id == "$3"));
    assert_eq!(above.place(cache, 2), Some(Rows { top: 2, height: 2 }));
    let mut below = layout.below;
    assert_eq!(below.place(cache, 2, "$4"), Some((Rows { top: 4, height: 2 }, true)));
    assert_eq!(below.place(cache, 2, "$4"), Some((Rows { top: 6, height: 2 }, false)));
    assert_eq!(below.place(cache, 2, "$4"), Some((Rows { top: 8, height: 2 }, false)));
    assert_eq!(below.place(cache, 2, "$4"), None);
    assert!(below.query(cache).is_none());
    // A message that is not known is searched for.
    let unknown = draw_specific(cache, "$0", 10, 1);
    assert!(unknown.above.is_none());
    assert_eq!(unknown.below.query(cache), Some(MessageQuery::BeforeCache));
}
