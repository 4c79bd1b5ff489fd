//! What runs around the interface: the main loop, notifications, colours, signals, log files, the
//! login and the management of devices.

use std::collections::hash_map::DefaultHasher;
use std::hash::{Hash, Hasher};

use nix::sys::signal::Signal;
use sparse::config::NotificationStyle;
use sparse::devices::{device_line, HEADING};
use sparse::event::{
    Event, EventContent, MembershipChange, MessageKind, Relation, RoomMessage, StateChange,
};
use sparse::log::{init as init_log, log_file_format, removal_result, Rotation};
use sparse::logout::{after_delete, after_password, device_ids, DeleteReply, DeleteStep};
use sparse::session::{command, config_file, device_name, login, Command, LoginAction, LoginEvent};
use sparse::text::trim;
use sparse::tui_app::colors::{assign_colors, calculate_user_colors, Color, ColorWish, NUM_COLORS};
use sparse::tui_app::notification::{handle_notification, NotifiedEvent};
use sparse::tui_app::signals::{signals_to_block, signals_to_wait, SignalKind};
use sparse::tui_app::tui::run::{
    bottom_bar, Event as LoopInput, InputTarget, LoopAction, LoopEvent, TuiLoop, DRAW_TIMEOUT,
};
use sparse::tui_app::tui::{BuiltinMode, Mode, TuiState};
use sparse::tui_app::{changes_room_info, init, RoomInfo, RoomState, State};
use sparse::verification_common::{
    emoji_line, event_line, lookup, numbers_line, print_result, run_verify_loop,
    wait_for_confirmation, Confirmation, Emoji, Found, Lookup, LoopCtrl, VerificationAction,
    VerificationEvent,
};

fn s(text: &str) -> String {
    text.to_owned()
}

fn strings(texts: &[&str]) -> Vec<String> {
    texts.iter().map(|t| s(t)).collect()
}

#[test]
fn the_main_loop() {
    let (mut tui, action) = TuiLoop::new();
    assert_eq!(action, LoopAction::Draw);
    assert_eq!(DRAW_TIMEOUT, 16);
    assert_eq!(tui.step(LoopEvent::Drawn), LoopAction::Wait);
    assert_eq!(tui.step(LoopEvent::Received(LoopInput::Update)), LoopAction::WaitForMore);
    assert_eq!(tui.step(LoopEvent::Received(LoopInput::Bell)), LoopAction::EmitBell);
    assert_eq!(tui.step(LoopEvent::Done(true)), LoopAction::WaitForMore);
    assert_eq!(tui.step(LoopEvent::Received(LoopInput::Input)), LoopAction::HandleInput);
    assert_eq!(tui.step(LoopEvent::Done(true)), LoopAction::WaitForMore);
    assert_eq!(tui.step(LoopEvent::TimedOut), LoopAction::Draw);
    assert_eq!(tui.step(LoopEvent::Drawn), LoopAction::Wait);
    let signal = |kind| LoopEvent::Received(LoopInput::Signal(kind));
    assert_eq!(tui.step(signal(Some(SignalKind::WindowChange))), LoopAction::WaitForMore);
    assert_eq!(tui.step(signal(Some(SignalKind::Stop))), LoopAction::Suspend);
    assert_eq!(tui.step(LoopEvent::Done(true)), LoopAction::WaitForMore);
    assert_eq!(tui.step(signal(None)), LoopAction::WarnSignal);
    assert_eq!(tui.step(LoopEvent::Done(true)), LoopAction::WaitForMore);
    // Once asked to end, the loop takes what is still there and does not draw again.
    assert_eq!(tui.step(signal(Some(SignalKind::Terminate))), LoopAction::WaitForMore);
    assert!(!tui.run);
    assert_eq!(tui.step(LoopEvent::Received(LoopInput::Update)), LoopAction::WaitForMore);
    assert_eq!(tui.step(LoopEvent::TimedOut), LoopAction::Exit);
}

#[test]
fn the_main_loop_ends() {
    let (mut tui, _) = TuiLoop::new();
    assert_eq!(tui.step(LoopEvent::QuerySinkClosed), LoopAction::Exit);
    let (mut tui, _) = TuiLoop::new();
    assert_eq!(tui.step(LoopEvent::Received(LoopInput::Input)), LoopAction::HandleInput);
    // The user quits.
    assert_eq!(tui.step(LoopEvent::Done(false)), LoopAction::WaitForMore);
    assert_eq!(tui.step(LoopEvent::TimedOut), LoopAction::Exit);
}

#[test]
fn input_goes_where_the_mode_says() {
    let room = RoomState::from_room(RoomInfo {
        id: s("!a"),
        name: s("A"),
        latest_read_message: None,
        num_unread_notifications: 0,
        own_user_id: s("@me:x"),
        joined_user_ids: Vec::new(),
    });
    let mut state = State::new(vec![room], s("@me:x"));
    for (mode, target) in [
        (BuiltinMode::Normal, InputTarget::Nowhere),
        (BuiltinMode::Insert, InputTarget::Message),
        (BuiltinMode::Command, InputTarget::CommandLine),
        (BuiltinMode::RoomFilter, InputTarget::RoomFilter),
        (BuiltinMode::RoomFilterUnread, InputTarget::RoomFilter),
    ] {
        state.tui.push_mode(Mode::Builtin(mode));
        assert_eq!(state.input_target(), target);
    }
    let mut state = State::new(Vec::new(), s("@me:x"));
    state.tui.push_mode(Mode::Builtin(BuiltinMode::Insert));
    assert_eq!(state.input_target(), InputTarget::Nowhere);
}

#[test]
fn the_bar_at_the_bottom() {
    let mut tui = TuiState::new(None);
    let bar = bottom_bar(&tui);
    assert!(bar.message.is_none() && !bar.shows_command_line);
    assert_eq!((bar.mode.as_str(), bar.keys.as_str()), ("normal", ""));
    tui.push_mode(Mode::Custom(s("c"), BuiltinMode::Command));
    tui.previous_keys.0.push(sparse::key::Key::Esc);
    let bar = bottom_bar(&tui);
    assert!(bar.message.is_none() && bar.shows_command_line);
    assert_eq!((bar.mode.as_str(), bar.keys.as_str()), ("c", "<Esc>"));
    tui.last_error_message = Some(s("oh"));
    let bar = bottom_bar(&tui);
    assert_eq!(bar.message, Some(s("oh")));
    assert!(!bar.shows_command_line);
}

fn notified(sender: &str, kind: MessageKind) -> NotifiedEvent {
    NotifiedEvent::Event(Event {
        event_id: s("$1"),
        sender: s(sender),
        timestamp: 0,
        content: EventContent::Message(RoomMessage {
            body: s("body"),
            kind,
            relates_to: Relation::Unrelated,
            debug: String::new(),
        }),
    })
}

#[test]
fn notifications() {
    let show = |event: &NotifiedEvent, direct: bool, style: NotificationStyle| {
        handle_notification(true, event, Some("@me:x"), direct, "Room", style)
            .map(|n| (n.summary, n.body))
    };
    let full = NotificationStyle::Full;
    let event = notified("@you:x", MessageKind::Text);
    assert_eq!(show(&event, true, full), Some((s("@you:x"), Some(s("body")))));
    assert_eq!(show(&event, false, full), Some((s("@you:x in Room"), Some(s("body")))));
    assert_eq!(show(&event, false, NotificationStyle::NameAndGroup), Some((s("@you:x in Room"), None)));
    assert_eq!(show(&event, false, NotificationStyle::NameOnly), Some((s("@you:x"), None)));
    assert_eq!(show(&event, false, NotificationStyle::Disabled), None);
    assert_eq!(show(&notified("@me:x", MessageKind::Text), false, full), None);
    assert_eq!(show(&NotifiedEvent::Foreign, false, full), None);
    assert_eq!(show(&NotifiedEvent::Unreadable, false, full), None);
    assert!(handle_notification(false, &event, None, true, "Room", full).is_none());
    for (kind, text) in [
        (MessageKind::Image, "sent an image"),
        (MessageKind::Audio, "sent an audio message"),
        (MessageKind::Video, "sent a video"),
        (MessageKind::File, "sent a file"),
        (MessageKind::Notice, ""),
    ] {
        let shown = show(&notified("@you:x", kind), true, full).unwrap();
        assert_eq!(shown.1, Some(s(text)));
    }
}

#[test]
fn changes_of_a_room_itself() {
    assert!(changes_room_info(&StateChange::Name(None)));
    assert!(changes_room_info(&StateChange::CanonicalAlias(None)));
    assert!(changes_room_info(&StateChange::Member(MembershipChange::Joined, None)));
    assert!(!changes_room_info(&StateChange::Topic(s("t"))));
}

#[test]
fn colors_are_given_out() {
    let wish = |id: &str, position: usize| ColorWish { id: s(id), position };
    let colors = assign_colors("me", &vec![wish("a", 2), wish("b", 2), wish("c", 5), wish("d", 5)]);
    assert_eq!(colors.get("me"), Some(&Color::White));
    let color = |id: &str| *colors.get(id).unwrap();
    // Who comes later takes the next colour that is free.
    let all: Vec<Color> = ["a", "b", "c", "d"].iter().map(|id| color(id)).collect();
    for i in 0..all.len() {
        assert!(all[i] != Color::White && all[i] != Color::Default);
        for j in 0..i {
            assert!(all[i] != all[j]);
        }
    }
}

#[test]
fn users_have_colors() {
    let users = strings(&["@me:x", "@a:x", "@b:x", "@c:x", "@d:x", "@e:x", "@f:x"]);
    let colors = calculate_user_colors("@me:x", &users);
    assert_eq!(colors.get("@me:x"), Some(&Color::White));
    let mut seen: Vec<Color> = Vec::new();
    for user in &users[1..] {
        let color = *colors.get(user).unwrap();
        assert!(color != Color::White && color != Color::Default);
        assert!(!seen.contains(&color));
        seen.push(color);
    }
    assert_eq!(seen.len(), NUM_COLORS);
    // With more users than colours each still has one, and it is the same each time.
    let many: Vec<String> = (0..40).map(|i| format!("@u{}:x", i)).collect();
    let colors = calculate_user_colors("@me:x", &many);
    let again = calculate_user_colors("@me:x", &many);
    let mut different: Vec<Color> = Vec::new();
    for user in &many {
        let color = *colors.get(user).unwrap();
        assert_eq!(again.get(user), Some(&color));
        assert!(color != Color::White && color != Color::Default);
        if !different.contains(&color) {
            different.push(color);
        }
    }
    assert_eq!(different.len(), NUM_COLORS);
}

#[test]
fn colors_are_spread_evenly() {
    for n in [0, 1, 5, 6, 7, 20, 36, 41] {
        let users: Vec<String> = (0..n).map(|i| format!("@u{}:x", i)).collect();
        let colors = calculate_user_colors("@me:x", &users);
        let count = |c: Color| users.iter().filter(|u| colors.get(u) == Some(&c)).count();
        let available =
            [Color::Red, Color::Blue, Color::Cyan, Color::Green, Color::Yellow, Color::Magenta];
        for a in available {
            for b in available {
                assert!(count(a) <= count(b) + 1);
            }
        }
        // Also where all want the same colour first.
        let wishes: Vec<ColorWish> =
            (0..n).map(|i| ColorWish { id: format!("@u{}:x", i), position: 3 }).collect();
        let colors = assign_colors("@me:x", &wishes);
        let count = |c: Color| users.iter().filter(|u| colors.get(u) == Some(&c)).count();
        for a in available {
            assert!(count(a) == n / NUM_COLORS || count(a) == n / NUM_COLORS + 1);
        }
    }
}

#[test]
fn whitespace_is_trimmed() {
    assert_eq!(trim(""), "");
    assert_eq!(trim(" \t\n"), "");
    assert_eq!(trim("\u{3000}a b\u{200b}\r\n"), "a b\u{200b}");
    for c in '\0'..=char::MAX {
        let text = format!("{}x{}", c, c);
        assert_eq!(trim(&text), text.trim());
    }
}

#[test]
fn the_color_tried_first_depends_on_the_hash() {
    let available =
        [Color::Red, Color::Blue, Color::Cyan, Color::Green, Color::Yellow, Color::Magenta];
    for i in 0..20 {
        let user = format!("@user{}:x", i);
        let mut hasher = DefaultHasher::new();
        user.hash(&mut hasher);
        let expected = available[hasher.finish() as usize % NUM_COLORS];
        let colors = calculate_user_colors("@me:x", &vec![user.clone()]);
        assert_eq!(colors.get(&user), Some(&expected));
    }
}

#[test]
fn signals() {
    let wait = signals_to_wait();
    for signal in [Signal::SIGWINCH, Signal::SIGTSTP, Signal::SIGTERM] {
        assert!(wait.contains(signal));
    }
    assert!(!wait.contains(Signal::SIGCONT));
    assert!(!wait.contains(Signal::SIGINT));
    for set in [signals_to_block(), init()] {
        for signal in [Signal::SIGWINCH, Signal::SIGTSTP, Signal::SIGTERM, Signal::SIGCONT] {
            assert!(set.contains(signal));
        }
        assert!(!set.contains(Signal::SIGINT));
    }
}

#[test]
fn old_log_files_are_removed() {
    assert_eq!(log_file_format(), "sparse.log.%Y-%m-%d_%H:%M:%S");
    let names = || -> Vec<Vec<u8>> {
        ["sparse.log.3", "other", "sparse.log.1", "sparse.log", "sparse.log.2", "sparse.log.10"]
            .iter()
            .map(|n| n.as_bytes().to_vec())
            .collect()
    };
    let removed = |rotation: Rotation| -> Vec<String> {
        let files = init_log(rotation, names());
        files.into_iter().map(|n| String::from_utf8(n).unwrap()).collect()
    };
    assert!(removed(Rotation::Never).is_empty());
    assert!(removed(Rotation::Keep(5)).is_empty());
    assert_eq!(removed(Rotation::Keep(4)), ["sparse.log.1"]);
    assert_eq!(removed(Rotation::Keep(2)), ["sparse.log.1", "sparse.log.10", "sparse.log.2"]);
    assert_eq!(removed(Rotation::Keep(1)).len(), 4);
    assert_eq!(removed(Rotation::Keep(0)).len(), 4);
    assert_eq!(removal_result(&vec![]), Ok(()));
    assert_eq!(removal_result(&vec![true, true]), Ok(()));
    assert_eq!(removal_result(&vec![true, false]), Err(s("Error deleting old log files")));
}

#[test]
fn what_the_program_starts_with() {
    assert_eq!(command(None), Command::Tui);
    assert_eq!(command(Some(Command::VerifyWait)), Command::VerifyWait);
    assert_eq!(config_file(Some(s("a")), s("b"), true), Some(s("a")));
    assert_eq!(config_file(None, s("b"), true), Some(s("b")));
    assert_eq!(config_file(None, s("b"), false), None);
    assert_eq!(device_name(Some("host")), "sparse on host");
    assert_eq!(device_name(None), "sparse");
}

#[test]
fn the_login() {
    assert_eq!(login(LoginEvent::Restored(true)), LoginAction::Proceed);
    assert_eq!(login(LoginEvent::Restored(false)), LoginAction::Introduce);
    assert_eq!(login(LoginEvent::Password(Ok(s("")))), LoginAction::AskPassword(None));
    assert_eq!(login(LoginEvent::Password(Ok(s("p")))), LoginAction::TryPassword(s("p")));
    assert_eq!(login(LoginEvent::Password(Err(s("e")))), LoginAction::Panic(s("e")));
    assert_eq!(login(LoginEvent::LoggedIn), LoginAction::StoreSession);
    assert_eq!(login(LoginEvent::Refused(s("no"))), LoginAction::AskPassword(Some(s("no"))));
    assert_eq!(
        login(LoginEvent::Failed(s("e"))),
        LoginAction::Panic(s("Unexpected error: e"))
    );
}

#[test]
fn the_list_of_devices() {
    assert_eq!(HEADING, "ID\tDevice name\tverified\tcurrent");
    assert_eq!(device_line("A", Some("phone"), Some(true), "B"), "A\tphone\ttrue");
    assert_eq!(device_line("A", Some("phone"), Some(false), "A"), "A\tphone\tfalse\t*");
    assert_eq!(device_line("A", None, None, "B"), "A\t\tunknown");
}

#[test]
fn logging_out_devices() {
    let available = strings(&["A", "B", "C"]);
    assert_eq!(device_ids(&available, &strings(&["C", "A"])), Ok(strings(&["C", "A"])));
    assert_eq!(device_ids(&available, &strings(&[])), Ok(vec![]));
    assert_eq!(
        device_ids(&available, &strings(&["A", "X", "Y"])),
        Err(s("'X' is not the id one of your devices."))
    );
    assert_eq!(after_delete(DeleteReply::Deleted), DeleteStep::Panic);
    assert_eq!(after_delete(DeleteReply::NeedsAuthentication), DeleteStep::AskPassword);
    assert_eq!(after_delete(DeleteReply::Failed), DeleteStep::Stop);
    assert_eq!(after_password(""), DeleteStep::Stop);
    assert_eq!(after_password("p"), DeleteStep::DeleteWithPassword);
}

#[test]
fn the_verification_of_a_device() {
    let found = Found::Found { done: false };
    let done = Found::Found { done: true };
    let go_on = |action| (action, LoopCtrl::Continue);
    assert_eq!(lookup(VerificationEvent::Ready), Lookup::Request);
    assert_eq!(lookup(VerificationEvent::Mac), Lookup::Sas);
    assert_eq!(lookup(VerificationEvent::Cancel), Lookup::Nothing);
    for (event, action) in [
        (VerificationEvent::Request, VerificationAction::AcceptRequestAndStart),
        (VerificationEvent::Ready, VerificationAction::StartSas),
        (VerificationEvent::Start, VerificationAction::AcceptSas),
        (VerificationEvent::Key, VerificationAction::AskForConfirmation),
        (VerificationEvent::Mac, VerificationAction::Ignore),
        (VerificationEvent::Accept, VerificationAction::Ignore),
        (VerificationEvent::Other, VerificationAction::Ignore),
    ] {
        assert_eq!(run_verify_loop(event, found), go_on(action));
        assert_eq!(run_verify_loop(event, Found::Nothing), go_on(VerificationAction::Ignore));
    }
    for event in [VerificationEvent::Mac, VerificationEvent::Accept] {
        assert_eq!(
            run_verify_loop(event, done),
            (VerificationAction::PrintResult, LoopCtrl::Break)
        );
    }
    assert_eq!(
        run_verify_loop(VerificationEvent::Cancel, Found::Nothing),
        (VerificationAction::Ignore, LoopCtrl::Break)
    );
}

#[test]
fn what_is_printed_during_a_verification() {
    assert_eq!(event_line(VerificationEvent::Request, "e"), "== Request e");
    assert_eq!(event_line(VerificationEvent::Start, "e"), "== Start: e");
    assert_eq!(event_line(VerificationEvent::Cancel, "r"), "Verification has been canceled r");
    let emoji = |symbol: &str, description: &str| Emoji {
        symbol: s(symbol),
        description: s(description),
    };
    assert_eq!(
        emoji_line(&vec![emoji("🐶", "Dog"), emoji("🐱", "Cat")]),
        "Emoji:🐶 (Dog) 🐱 (Cat) "
    );
    assert_eq!(numbers_line(1, 20, 65535), "Numbers: 1-20-65535");
    assert_eq!(
        print_result("@a:x", "DEV", "Verified"),
        "Successfully verified device @a:x DEV Verified"
    );
    assert_eq!(wait_for_confirmation(" \tYes\u{a0}\n"), Confirmation::Confirm);
    assert_eq!(wait_for_confirmation("yes"), Confirmation::Confirm);
    assert_eq!(wait_for_confirmation("y es"), Confirmation::Cancel);
    assert_eq!(wait_for_confirmation("no\n"), Confirmation::Cancel);
}
