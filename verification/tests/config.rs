//! The configuration.

use sparse::config::{
    Config, ConfigBuilder, ConfigCall, ModeSet, NotificationStyle, APP_NAME, DEFAULT_OPEN_PROG,
};
use sparse::id::HostName;
use sparse::key::{parse_keys, Keys};
use sparse::keymap::KeyMapFunctionResult;
use sparse::tui_app::tui::actions::Action;
use sparse::tui_app::tui::{BuiltinMode, Mode};

fn s(text: &str) -> String {
    text.to_owned()
}

fn configured(calls: Vec<ConfigCall>) -> ConfigBuilder {
    let mut builder = ConfigBuilder::new();
    for call in calls {
        assert!(builder.can_configure(&call));
        builder.configure(call).unwrap();
    }
    builder
}

fn finished(mut calls: Vec<ConfigCall>) -> Config {
    calls.push(ConfigCall::Host(s("example.org:8448")));
    calls.push(ConfigCall::User(s("anna")));
    configured(calls).finalize().unwrap()
}

fn found(config: &Config, mode: &str, keys: &str) -> Option<u64> {
    let mode = config.modes.get(mode).unwrap();
    match config.keymaps.find_action(&mode, &Keys(parse_keys(keys).unwrap())) {
        KeyMapFunctionResult::Found(Action(n)) => Some(n),
        _ => None,
    }
}

#[test]
fn host_and_user_are_needed() {
    assert_eq!(ConfigBuilder::new().finalize().err().unwrap(), "Host not configured.");
    let builder = configured(vec![ConfigCall::User(s("anna"))]);
    assert_eq!(builder.finalize().err().unwrap(), "Host not configured.");
    let builder = configured(vec![ConfigCall::Host(s("example.org"))]);
    assert_eq!(builder.finalize().err().unwrap(), "User not configured.");
}

#[test]
fn defaults_of_the_configuration() {
    let config = finished(vec![]);
    assert_eq!(config.host.as_str(), "example.org:8448");
    assert_eq!(config.user, "anna");
    assert_eq!(config.notification_style, NotificationStyle::Full);
    assert_eq!(config.file_open_program, DEFAULT_OPEN_PROG);
    assert_eq!(config.url_open_program, "xdg-open");
}

#[test]
fn the_user_id_has_no_port() {
    let config = finished(vec![]);
    assert_eq!(config.user_id(), "@anna:example.org");
    assert_eq!(config.data_dir(), [APP_NAME, "@anna:example.org"]);
    assert_eq!(config.session_file_path(), ["sparse", "@anna:example.org", "session"]);
}

#[test]
fn settings_are_taken_over() {
    let config = finished(vec![
        ConfigCall::NotificationStyle(s("nameonly")),
        ConfigCall::FileOpenProgram(s("open")),
        ConfigCall::UrlOpenProgram(s("browse")),
        ConfigCall::User(s("otto")),
    ]);
    assert_eq!(config.notification_style, NotificationStyle::NameOnly);
    assert_eq!(config.file_open_program, "open");
    assert_eq!(config.url_open_program, "browse");
    let mut builder = configured(vec![ConfigCall::User(s("otto"))]);
    builder.set_user(s("anna"));
    builder.set_host(HostName::parse("[::1]:80").unwrap());
    assert_eq!(builder.finalize().unwrap().user_id(), "@anna:[::1]");
}

#[test]
fn notification_styles_have_names() {
    assert_eq!(NotificationStyle::from_str("disabled"), Ok(NotificationStyle::Disabled));
    assert_eq!(NotificationStyle::from_str("nameandgroup"), Ok(NotificationStyle::NameAndGroup));
    assert_eq!(NotificationStyle::from_str("full"), Ok(NotificationStyle::default()));
    assert_eq!(
        NotificationStyle::from_str("loud"),
        Err(s("'loud' is not a valid notification style"))
    );
}

#[test]
fn refused_calls_change_nothing() {
    let mut builder = configured(vec![
        ConfigCall::Host(s("example.org")),
        ConfigCall::User(s("anna")),
        ConfigCall::DefineMode(s("mine"), s("normal")),
        ConfigCall::Bind(s("x"), s("normal"), Action(1)),
    ]);
    let mut refuse = |call: ConfigCall| builder.configure(call).unwrap_err();
    assert_eq!(refuse(ConfigCall::DefineMode(s("m"), s("odd"))), "'odd' is not a builtin mode");
    assert_eq!(
        refuse(ConfigCall::DefineMode(s("mine"), s("insert"))),
        "Mode 'mine' already exists"
    );
    assert_eq!(
        refuse(ConfigCall::DefineMode(s("insert"), s("normal"))),
        "Mode 'insert' already exists"
    );
    assert_eq!(refuse(ConfigCall::OnEnter(s("odd"), Action(7))), "No such mode 'odd'");
    assert_eq!(refuse(ConfigCall::OnLeave(s("odd"), Action(7))), "No such mode 'odd'");
    assert_eq!(
        refuse(ConfigCall::Bind(s("x"), s("odd"), Action(7))),
        "Mode 'odd' is not defined"
    );
    assert_eq!(
        refuse(ConfigCall::Bind(s("ß"), s("normal"), Action(7))),
        "'ß' is not a valid key sequence"
    );
    assert_eq!(
        refuse(ConfigCall::Bind(s("x"), s("normal"), Action(7))),
        "Key binding 'x' already exists"
    );
    assert_eq!(
        refuse(ConfigCall::Unbind(s("<C-y>"), s("normal"))),
        "No binding of <C-y> in mode normal exists"
    );
    assert_eq!(refuse(ConfigCall::Unbind(s("x"), s("odd"))), "Mode 'odd' is not defined");
    assert_eq!(refuse(ConfigCall::Unbind(s("ß"), s("normal"))), "'ß' is not a valid key sequence");
    assert_eq!(
        refuse(ConfigCall::NotificationStyle(s("odd"))),
        "'odd' is not a valid notification style"
    );
    let expected = ruma::ServerName::parse("ex ample").unwrap_err().to_string();
    assert_eq!(refuse(ConfigCall::Host(s("ex ample"))), expected);
    let config = builder.finalize().unwrap();
    assert_eq!(config.host.as_str(), "example.org");
    assert_eq!(found(&config, "normal", "x"), Some(1));
    assert_eq!(config.modes.get("mine").unwrap().builtin_mode(), BuiltinMode::Normal);
}

#[test]
fn bindings_belong_to_a_mode() {
    let config = finished(vec![
        ConfigCall::DefineMode(s("mine"), s("roomfilter")),
        ConfigCall::Bind(s("x"), s("normal"), Action(1)),
        ConfigCall::Bind(s("x"), s("mine"), Action(2)),
        ConfigCall::Bind(s("yy"), s("normal"), Action(3)),
        ConfigCall::Unbind(s("yy"), s("normal")),
    ]);
    assert_eq!(found(&config, "normal", "x"), Some(1));
    assert_eq!(found(&config, "mine", "x"), Some(2));
    assert_eq!(found(&config, "normal", "yy"), None);
    let config = finished(vec![
        ConfigCall::Bind(s("x"), s("normal"), Action(1)),
        ConfigCall::ClearBindings,
    ]);
    assert_eq!(found(&config, "normal", "x"), None);
}

#[test]
fn a_second_script_is_loaded_in_addition() {
    let mut builder = configured(vec![
        ConfigCall::DefineMode(s("mine"), s("roomfilter")),
        ConfigCall::Bind(s("x"), s("normal"), Action(1)),
        ConfigCall::Bind(s("gg"), s("mine"), Action(2)),
        ConfigCall::OnEnter(s("mine"), Action(3)),
        ConfigCall::OnEnter(s("normal"), Action(4)),
        ConfigCall::NotificationStyle(s("nameonly")),
        ConfigCall::FileOpenProgram(s("open")),
        ConfigCall::UrlOpenProgram(s("browse")),
        ConfigCall::Host(s("example.org")),
        ConfigCall::User(s("anna")),
    ]);
    for call in vec![
        ConfigCall::DefineMode(s("other"), s("insert")),
        ConfigCall::Bind(s("y"), s("normal"), Action(5)),
        ConfigCall::Bind(s("x"), s("other"), Action(6)),
        ConfigCall::OnEnter(s("normal"), Action(7)),
        ConfigCall::FileOpenProgram(s("show")),
    ] {
        builder.configure(call).unwrap();
    }
    // What is refused changes nothing, and what is tried behind it still counts.
    assert!(builder.configure(ConfigCall::Bind(s("g"), s("mine"), Action(8))).is_err());
    assert!(builder.configure(ConfigCall::Unbind(s("z"), s("normal"))).is_err());
    assert!(builder.configure(ConfigCall::Host(s("ex ample"))).is_err());
    builder.configure(ConfigCall::Bind(s("z"), s("mine"), Action(9))).unwrap();
    let config = builder.finalize().unwrap();
    assert_eq!(found(&config, "normal", "x"), Some(1));
    assert_eq!(found(&config, "mine", "gg"), Some(2));
    assert_eq!(found(&config, "normal", "y"), Some(5));
    assert_eq!(found(&config, "other", "x"), Some(6));
    assert_eq!(found(&config, "mine", "z"), Some(9));
    let mine = config.modes.get("mine").unwrap();
    assert_eq!(mine.builtin_mode(), BuiltinMode::RoomFilter);
    assert_eq!(config.modes.get_on_enter(&mine), Some(Action(3)));
    let normal = config.modes.get("normal").unwrap();
    assert_eq!(config.modes.get_on_enter(&normal), Some(Action(7)));
    assert_eq!(config.notification_style, NotificationStyle::NameOnly);
    assert_eq!(config.file_open_program, "show");
    assert_eq!(config.url_open_program, "browse");
    assert_eq!(config.user_id(), "@anna:example.org");
}

#[test]
fn the_empty_key_sequence_needs_bindings() {
    let builder = ConfigBuilder::new();
    assert!(!builder.can_configure(&ConfigCall::Bind(s(""), s("normal"), Action(1))));
    assert!(!builder.can_configure(&ConfigCall::Unbind(s(""), s("normal"))));
    assert!(builder.can_configure(&ConfigCall::Bind(s(""), s("odd"), Action(1))));
    let mut builder = configured(vec![ConfigCall::Bind(s("x"), s("normal"), Action(1))]);
    let call = ConfigCall::Bind(s(""), s("normal"), Action(2));
    assert!(builder.can_configure(&call));
    assert_eq!(
        builder.configure(call).unwrap_err(),
        "Key binding '' is a prefix of the existing binding 'x'"
    );
}

#[test]
fn modes_are_found_by_name() {
    let mut modes = ModeSet::new();
    assert!(modes.get("mine").is_none());
    assert_eq!(modes.define(s("mine"), BuiltinMode::Insert), Ok(()));
    assert_eq!(modes.define(s("mine"), BuiltinMode::Normal), Err(()));
    assert_eq!(modes.define(s("normal"), BuiltinMode::Normal), Err(()));
    assert!(modes.get("mine").unwrap().same_as(&Mode::Custom(s("mine"), BuiltinMode::Insert)));
    assert!(modes.get("normal").unwrap().same_as(&Mode::Builtin(BuiltinMode::Normal)));
}

#[test]
fn hooks_of_modes() {
    let config = finished(vec![
        ConfigCall::OnEnter(s("insert"), Action(1)),
        ConfigCall::OnLeave(s("normal"), Action(2)),
    ]);
    let insert = config.modes.get("insert").unwrap();
    let normal = config.modes.get("normal").unwrap();
    assert_eq!(config.modes.get_on_enter(&insert), Some(Action(1)));
    assert_eq!(config.modes.get_on_leave(&insert), None);
    // Both kinds of hooks are kept with those for entering a mode.
    assert_eq!(config.modes.get_on_enter(&normal), Some(Action(2)));
    assert_eq!(config.modes.get_on_leave(&normal), None);
}

#[test]
fn host_names_are_checked() {
    assert_eq!(HostName::parse("example.org").unwrap().host(), "example.org");
    assert_eq!(HostName::parse("example.org:80").unwrap().host(), "example.org");
    assert_eq!(HostName::parse("[2001:db8::1]:80").unwrap().host(), "[2001:db8::1]");
    assert!(HostName::parse("").is_err());
    assert!(HostName::parse("https://example.org").is_err());
}
