//! Keys, key sequences and what they are bound to.

use sparse::key::{parse_keys, Key, Keys};
use sparse::keymap::{KeyMap, KeyMapFunctionResult, KeyMaps};
use sparse::tui_app::tui::actions::Action;
use sparse::tui_app::tui::{BuiltinMode, Mode};

fn keys(s: &str) -> Keys {
    Keys(parse_keys(s).unwrap())
}

#[test]
fn key_names_are_read() {
    assert_eq!(parse_keys("").unwrap(), vec![]);
    assert_eq!(parse_keys("ab").unwrap(), vec![Key::Char('a'), Key::Char('b')]);
    assert_eq!(
        parse_keys("<Esc>x<C-a><Return><c-m><C-m><Space><C-[><PgUp>").unwrap(),
        vec![
            Key::Esc,
            Key::Char('x'),
            Key::Ctrl('a'),
            Key::Char('\n'),
            Key::Ctrl('m'),
            Key::Char('\n'),
            Key::Char(' '),
            Key::Esc,
            Key::PageUp,
        ]
    );
    // What is no name is a key for each character.
    assert_eq!(
        parse_keys("<A>").unwrap(),
        vec![Key::Char('<'), Key::Char('A'), Key::Char('>')]
    );
}

#[test]
fn invalid_keys_are_refused() {
    assert_eq!(parse_keys("a b").unwrap_err(), "'a b' is not a valid key sequence");
    assert_eq!(parse_keys("ü").unwrap_err(), "'ü' is not a valid key sequence");
}

#[test]
fn keys_are_written_as_they_are_read() {
    for s in ["<Esc>x<C-a><Return>", "abc", "<Left><Right><Up><Down>", "<Backspace><Delete>"] {
        assert_eq!(keys(s).to_string(), s);
    }
    assert_eq!(Key::Ctrl('w').to_string(), "<C-w>");
    assert_eq!(Key::Char('q').to_string(), "q");
    assert_eq!(Key::F(11).to_string(), "<F11>");
    assert_eq!(Key::Alt('x').to_string(), "<A-x>");
    assert_eq!(Key::PageUp.to_string(), "<PageUp>");
    assert_eq!(Key::Unknown.to_string(), "<UnknownKey>");
}

#[test]
fn keys_that_were_read_are_read_back() {
    for s in ["<A>", "<<Esc>", "<C-<>", "<C-<Esc>", "<C-<<>>", "<Esc", "<c-a><", "<C-m><Tab><C-[>", "<C<C-x>->"] {
        let read = parse_keys(s).unwrap();
        let text = Keys(read.clone()).to_string();
        assert_eq!(parse_keys(&text).unwrap(), read);
    }
    assert_eq!(keys("<c-a><C-m><<").to_string(), "<C-a><Return><<");
}

#[test]
fn bindings_are_found() {
    let mut map = KeyMap::default();
    assert!(!map.has_bindings());
    map.add_binding(keys("gg"), Action(1)).unwrap();
    map.add_binding(keys("g<Esc>"), Action(2)).unwrap();
    assert!(map.has_bindings());
    assert!(matches!(map.find(&keys("gg")), KeyMapFunctionResult::Found(Action(1))));
    assert!(matches!(map.find(&keys("g<Esc>")), KeyMapFunctionResult::Found(Action(2))));
    assert!(matches!(map.find(&keys("x")), KeyMapFunctionResult::NotFound));
    assert!(matches!(map.find(&keys("gx")), KeyMapFunctionResult::NotFound));
    match map.find(&keys("ggh")) {
        KeyMapFunctionResult::FoundPrefix(k) => assert_eq!(k.to_string(), "gg"),
        _ => panic!("no prefix found"),
    }
    match map.find(&keys("g")) {
        KeyMapFunctionResult::IsPrefix(k) => {
            assert!(["gg", "g<Esc>"].contains(&k.to_string().as_str()))
        }
        _ => panic!("not a prefix"),
    }
    match map.find(&keys("")) {
        KeyMapFunctionResult::IsPrefix(k) => {
            assert!(["gg", "g<Esc>"].contains(&k.to_string().as_str()))
        }
        _ => panic!("not a prefix"),
    }
}

#[test]
fn conflicting_bindings_are_refused() {
    let mut map = KeyMap::default();
    map.add_binding(keys("gg"), Action(1)).unwrap();
    let mut refuse = |s: &str| map.add_binding(keys(s), Action(2)).unwrap_err();
    assert_eq!(refuse("gg"), "Key binding 'gg' already exists");
    assert_eq!(
        refuse("ggg"),
        "Existing key binding 'gg' is a prefix of the desired binding 'ggg'"
    );
    assert_eq!(refuse("g"), "Key binding 'g' is a prefix of the existing binding 'gg'");
    assert!(matches!(map.find(&keys("gg")), KeyMapFunctionResult::Found(Action(1))));
}

#[test]
fn a_removed_binding_is_gone() {
    let mut map = KeyMap::default();
    map.add_binding(keys("gga"), Action(1)).unwrap();
    map.add_binding(keys("ggb"), Action(2)).unwrap();
    map.remove(&keys("gga"));
    assert!(matches!(map.find(&keys("gga")), KeyMapFunctionResult::NotFound));
    assert!(matches!(map.find(&keys("ggb")), KeyMapFunctionResult::Found(Action(2))));
    map.remove(&keys("gg"));
    assert!(matches!(map.find(&keys("ggb")), KeyMapFunctionResult::Found(Action(2))));
    map.remove(&keys("ggb"));
    assert!(!map.has_bindings());
    assert!(matches!(map.find(&keys("g")), KeyMapFunctionResult::NotFound));
    map.add_binding(keys("g"), Action(3)).unwrap();
    assert!(matches!(map.find(&keys("g")), KeyMapFunctionResult::Found(Action(3))));
}

#[test]
fn each_mode_has_its_bindings() {
    let normal = Mode::Builtin(BuiltinMode::Normal);
    let custom = Mode::Custom("mine".to_owned(), BuiltinMode::Normal);
    let mut maps = KeyMaps::new();
    assert!(matches!(maps.find_action(&normal, &keys("x")), KeyMapFunctionResult::NotFound));
    maps.bind(&normal, keys("x"), Action(1)).unwrap();
    maps.bind(&custom, keys("x"), Action(2)).unwrap();
    assert!(matches!(maps.find_action(&normal, &keys("x")), KeyMapFunctionResult::Found(Action(1))));
    assert!(matches!(maps.find_action(&custom, &keys("x")), KeyMapFunctionResult::Found(Action(2))));
    assert!(maps.has_bindings(&normal));
    assert!(!maps.has_bindings(&Mode::Builtin(BuiltinMode::Insert)));
    assert!(maps.unbind(&normal, &keys("x")));
    assert!(!maps.unbind(&normal, &keys("x")));
    assert!(!maps.has_bindings(&normal));
    maps.clear_bindings();
    assert!(matches!(maps.find_action(&custom, &keys("x")), KeyMapFunctionResult::NotFound));
}
