//! The configuration of the client.

use vstd::hash_map::StringHashMap;
use vstd::prelude::*;

use crate::id::{host_part, law_host_stands_before_the_port, server_name_error, HostName};
use crate::key::{invalid_keys, keys_from, keys_text, parse_keys, Key, Keys};
use crate::keymap::{
    conflict_text, finds, law_bindings_are_prefix_free, prefix_free, FindView, KeyMaps,
};
use crate::text::{embedded, joined, same};
use crate::tui_app::tui::actions::Action;
use crate::tui_app::tui::{builtin_mode_named, BuiltinMode, Mode, ModeView};

verus! {

/// The name of the program.
pub const APP_NAME: &'static str = "sparse";

/// The program that opens files and links where none is configured.
pub const DEFAULT_OPEN_PROG: &'static str = "xdg-open";

/// The modes that were defined, and the functions to run when a mode is entered or left.
#[verifier::ext_equal]
pub struct ModeSetView {
    pub custom: Map<Seq<char>, BuiltinMode>,
    pub on_enter: Map<Seq<char>, Action>,
    pub on_leave: Map<Seq<char>, Action>,
}

impl ModeSetView {
    /// The mode with a name. The modes that the client knows by itself come first.
    pub open spec fn get(self, name: Seq<char>) -> Option<ModeView> {
        match builtin_mode_named(name) {
            Some(m) => Some(ModeView::Builtin(m)),
            None => if self.custom.contains_key(name) {
                Some(ModeView::Custom(name, self.custom[name]))
            } else {
                None
            },
        }
    }
}

/// The modes that were defined, and the functions to run when a mode is entered or left.
pub struct ModeSet {
    custom: StringHashMap<BuiltinMode>,
    on_enter: StringHashMap<Action>,
    on_leave: StringHashMap<Action>,
}

impl View for ModeSet {
    type V = ModeSetView;

    closed spec fn view(&self) -> ModeSetView {
        ModeSetView { custom: self.custom@, on_enter: self.on_enter@, on_leave: self.on_leave@ }
    }
}

impl ModeSet {
    /// No modes but those that the client knows by itself.
    pub fn new() -> (res: ModeSet)
        ensures
            res@ == (ModeSetView {
                custom: Map::empty(),
                on_enter: Map::empty(),
                on_leave: Map::empty(),
            }),
    {
        ModeSet {
            custom: StringHashMap::new(),
            on_enter: StringHashMap::new(),
            on_leave: StringHashMap::new(),
        }
    }

    /// Defines a mode, unless there is one with that name.
    pub fn define(&mut self, name: String, base: BuiltinMode) -> (res: Result<(), ()>)
        ensures
            match old(self)@.get(name@) {
                None => res is Ok && final(self)@ == (ModeSetView {
                    custom: old(self)@.custom.insert(name@, base),
                    ..old(self)@
                }),
                Some(_) => res is Err && final(self)@ == old(self)@,
            },
    {
        if self.get(name.as_str()).is_none() {
            self.custom.insert(name, base);
            Ok(())
        } else {
            Err(())
        }
    }

    /// The mode with a name.
    pub fn get(&self, name: &str) -> (res: Option<Mode>)
        ensures
            match res {
                Some(m) => self@.get(name@) == Some(m@),
                None => self@.get(name@) is None,
            },
    {
        if let Ok(m) = BuiltinMode::from_str(name) {
            Some(Mode::Builtin(m))
        } else if let Some(m) = self.custom.get(name) {
            Some(Mode::Custom(name.to_owned(), *m))
        } else {
            None
        }
    }

    /// Sets the function to run when a mode is entered.
    pub fn define_on_enter(&mut self, mode: &Mode, f: Action)
        ensures
            final(self)@ == (ModeSetView {
                on_enter: old(self)@.on_enter.insert(mode@.name(), f),
                ..old(self)@
            }),
    {
        self.on_enter.insert(mode.to_string(), f);
    }

    /// The function to run when a mode is entered.
    pub fn get_on_enter(&self, mode: &Mode) -> (res: Option<Action>)
        ensures
            match res {
                Some(f) => self@.on_enter.contains_key(mode@.name())
                    && self@.on_enter[mode@.name()] == f,
                None => !self@.on_enter.contains_key(mode@.name()),
            },
    {
        match self.on_enter.get(mode.as_str()) {
            Some(f) => Some(*f),
            None => None,
        }
    }

    /// Sets the function to run when a mode is left. It is put with the functions to run when a
    /// mode is entered, so it takes the place of that one and runs at that time.
    pub fn define_on_leave(&mut self, mode: &Mode, f: Action)
        ensures
            final(self)@ == (ModeSetView {
                on_enter: old(self)@.on_enter.insert(mode@.name(), f),
                ..old(self)@
            }),
    {
        self.on_enter.insert(mode.to_string(), f);
    }

    /// The function to run when a mode is left.
    pub fn get_on_leave(&self, mode: &Mode) -> (res: Option<Action>)
        ensures
            match res {
                Some(f) => self@.on_leave.contains_key(mode@.name())
                    && self@.on_leave[mode@.name()] == f,
                None => !self@.on_leave.contains_key(mode@.name()),
            },
    {
        match self.on_leave.get(mode.as_str()) {
            Some(f) => Some(*f),
            None => None,
        }
    }
}

/// How much a notification shows.
#[derive(Copy, Clone, Debug, PartialEq, Eq, Structural)]
pub enum NotificationStyle {
    Disabled,
    NameOnly,
    NameAndGroup,
    Full,
}

impl Default for NotificationStyle {
    fn default() -> (res: Self)
        ensures
            res is Full,
    {
        NotificationStyle::Full
    }
}

/// The notification style with a name.
pub open spec fn notification_style_named(name: Seq<char>) -> Option<NotificationStyle> {
    if name == "disabled"@ {
        Some(NotificationStyle::Disabled)
    } else if name == "nameonly"@ {
        Some(NotificationStyle::NameOnly)
    } else if name == "nameandgroup"@ {
        Some(NotificationStyle::NameAndGroup)
    } else if name == "full"@ {
        Some(NotificationStyle::Full)
    } else {
        None
    }
}

impl NotificationStyle {
    /// The notification style with a name.
    pub fn from_str(s: &str) -> (res: Result<NotificationStyle, String>)
        ensures
            match notification_style_named(s@) {
                Some(n) => res matches Ok(m) && m == n,
                None => res matches Err(m) && m@ == "'"@ + s@
                    + "' is not a valid notification style"@,
            },
    {
        if same(s, "disabled") {
            Ok(NotificationStyle::Disabled)
        } else if same(s, "nameonly") {
            Ok(NotificationStyle::NameOnly)
        } else if same(s, "nameandgroup") {
            Ok(NotificationStyle::NameAndGroup)
        } else if same(s, "full") {
            Ok(NotificationStyle::Full)
        } else {
            Err(embedded("'", s, "' is not a valid notification style"))
        }
    }
}

/// The finished configuration.
pub struct Config {
    pub host: HostName,
    pub user: String,
    pub notification_style: NotificationStyle,
    pub file_open_program: String,
    pub url_open_program: String,
    pub keymaps: KeyMaps,
    pub modes: ModeSet,
}

/// The id of a user on a host.
pub open spec fn full_user_id(user: Seq<char>, host: Seq<char>) -> Seq<char> {
    "@"@ + user + ":"@ + host_part(host)
}

impl Config {
    /// The id of the user.
    pub fn user_id(&self) -> (res: String)
        ensures
            res@ == full_user_id(self.user@, self.host@),
    {
        let mut s = embedded("@", self.user.as_str(), ":");
        s.append(self.host.host().as_str());
        s
    }

    /// The directory of the client's data: the parts of its path below the local data directory.
    pub fn data_dir(&self) -> (res: Vec<String>)
        ensures
            res@.len() == 2,
            res@[0]@ == APP_NAME@,
            res@[1]@ == full_user_id(self.user@, self.host@),
    {
        let mut parts: Vec<String> = Vec::new();
        parts.push(APP_NAME.to_owned());
        parts.push(self.user_id());
        parts
    }

    /// The file that the session is stored in: the parts of its path below the local data
    /// directory.
    pub fn session_file_path(&self) -> (res: Vec<String>)
        ensures
            res@.len() == 3,
            res@[0]@ == APP_NAME@,
            res@[1]@ == full_user_id(self.user@, self.host@),
            res@[2]@ == "session"@,
    {
        let mut parts = self.data_dir();
        parts.push("session".to_owned());
        parts
    }
}

/// A call of one of the functions that a configuration file can use, with its arguments.
pub enum ConfigCall {
    /// `define_mode(name, base)`
    DefineMode(String, String),
    /// `on_enter(mode, function)`
    OnEnter(String, Action),
    /// `on_leave(mode, function)`
    OnLeave(String, Action),
    /// `bind(keys, mode, function)`
    Bind(String, String, Action),
    /// `unbind(keys, mode)`
    Unbind(String, String),
    /// `clear_bindings()`
    ClearBindings,
    /// `host(name)`
    Host(String),
    /// `user(name)`
    User(String),
    /// `notification_style(name)`
    NotificationStyle(String),
    /// `file_open_program(name)`
    FileOpenProgram(String),
    /// `url_open_program(name)`
    UrlOpenProgram(String),
}

/// What is configured so far.
#[verifier::ext_equal]
pub struct ConfigView {
    pub keymaps: Map<ModeView, Map<Seq<Key>, Action>>,
    pub modes: ModeSetView,
    pub host: Option<Seq<char>>,
    pub user: Option<Seq<char>>,
    pub notification_style: NotificationStyle,
    pub file_open_program: Seq<char>,
    pub url_open_program: Seq<char>,
}

impl ConfigView {
    /// The bindings of a mode.
    pub open spec fn bindings(self, mode: ModeView) -> Map<Seq<Key>, Action> {
        if self.keymaps.contains_key(mode) {
            self.keymaps[mode]
        } else {
            Map::empty()
        }
    }

    /// The configuration with other bindings in a mode.
    pub open spec fn with_bindings(
        self,
        mode: ModeView,
        bindings: Map<Seq<Key>, Action>,
    ) -> ConfigView {
        ConfigView { keymaps: self.keymaps.insert(mode, bindings), ..self }
    }
}

/// Whether a call can be answered. Looking up the empty key sequence in a mode without bindings is
/// out of the question.
pub open spec fn is_answerable(c: ConfigView, call: ConfigCall) -> bool {
    match call {
        ConfigCall::Bind(keys, mode, _) => keys_from(keys@, 0) == Some(Seq::<Key>::empty()) ==> (
        c.modes.get(mode@) matches Some(m) ==> exists|k: Seq<Key>| c.bindings(m).contains_key(k)),
        ConfigCall::Unbind(keys, mode) => keys_from(keys@, 0) == Some(Seq::<Key>::empty()) ==> (
        c.modes.get(mode@) matches Some(m) ==> exists|k: Seq<Key>| c.bindings(m).contains_key(k)),
        _ => true,
    }
}

/// Whether a call may lead from one configuration to another with the given answer. Nothing is
/// left open but which one of several conflicting bindings the message names.
pub open spec fn configured(
    c: ConfigView,
    call: ConfigCall,
    after: ConfigView,
    res: Result<(), Seq<char>>,
) -> bool {
    match call {
        ConfigCall::DefineMode(name, base) => match builtin_mode_named(base@) {
            None => after == c && res == Err::<(), Seq<char>>(
                "'"@ + base@ + "' is not a builtin mode"@,
            ),
            Some(m) => if c.modes.get(name@) is None {
                &&& after == (ConfigView {
                    modes: ModeSetView { custom: c.modes.custom.insert(name@, m), ..c.modes },
                    ..c
                })
                &&& res is Ok
            } else {
                after == c && res == Err::<(), Seq<char>>("Mode '"@ + name@ + "' already exists"@)
            },
        },
        ConfigCall::OnEnter(name, f) => match c.modes.get(name@) {
            None => after == c && res == Err::<(), Seq<char>>("No such mode '"@ + name@ + "'"@),
            Some(m) => {
                &&& after == (ConfigView {
                    modes: ModeSetView { on_enter: c.modes.on_enter.insert(m.name(), f), ..c.modes },
                    ..c
                })
                &&& res is Ok
            },
        },
        ConfigCall::OnLeave(name, f) => match c.modes.get(name@) {
            None => after == c && res == Err::<(), Seq<char>>("No such mode '"@ + name@ + "'"@),
            Some(m) => {
                &&& after == (ConfigView {
                    modes: ModeSetView { on_enter: c.modes.on_enter.insert(m.name(), f), ..c.modes },
                    ..c
                })
                &&& res is Ok
            },
        },
        ConfigCall::Bind(keys, mode, f) => match keys_from(keys@, 0) {
            None => after == c && res == Err::<(), Seq<char>>(invalid_keys(keys@)),
            Some(k) => match c.modes.get(mode@) {
                None => after == c && res == Err::<(), Seq<char>>(
                    "Mode '"@ + mode@ + "' is not defined"@,
                ),
                Some(m) => match res {
                    Ok(_) => {
                        &&& finds(c.bindings(m), k, FindView::NotFound)
                        &&& after == c.with_bindings(m, c.bindings(m).insert(k, f))
                    },
                    Err(e) => {
                        &&& after == c.with_bindings(m, c.bindings(m))
                        &&& exists|found: FindView|
                            !(found is NotFound) && #[trigger] finds(c.bindings(m), k, found) && e
                                == conflict_text(k, found)
                    },
                },
            },
        },
        ConfigCall::Unbind(keys, mode) => match keys_from(keys@, 0) {
            None => after == c && res == Err::<(), Seq<char>>(invalid_keys(keys@)),
            Some(k) => match c.modes.get(mode@) {
                None => after == c && res == Err::<(), Seq<char>>(
                    "Mode '"@ + mode@ + "' is not defined"@,
                ),
                Some(m) => {
                    &&& after == c.with_bindings(m, c.bindings(m).remove(k))
                    &&& res == (if c.bindings(m).contains_key(k) {
                        Ok(())
                    } else {
                        Err(
                            "No binding of "@ + keys_text(k) + " in mode "@ + mode@ + " exists"@,
                        )
                    })
                },
            },
        },
        ConfigCall::ClearBindings => {
            &&& after == (ConfigView {
                keymaps: c.keymaps.map_values(
                    |m: Map<Seq<Key>, Action>| Map::<Seq<Key>, Action>::empty(),
                ),
                ..c
            })
            &&& res is Ok
        },
        ConfigCall::Host(name) => match server_name_error(name@) {
            None => after == (ConfigView { host: Some(name@), ..c }) && res is Ok,
            Some(m) => after == c && res == Err::<(), Seq<char>>(m),
        },
        ConfigCall::User(name) => after == (ConfigView { user: Some(name@), ..c }) && res is Ok,
        ConfigCall::NotificationStyle(name) => match notification_style_named(name@) {
            Some(n) => after == (ConfigView { notification_style: n, ..c }) && res is Ok,
            None => after == c && res == Err::<(), Seq<char>>(
                "'"@ + name@ + "' is not a valid notification style"@,
            ),
        },
        ConfigCall::FileOpenProgram(p) => after == (ConfigView { file_open_program: p@, ..c })
            && res is Ok,
        ConfigCall::UrlOpenProgram(p) => after == (ConfigView { url_open_program: p@, ..c })
            && res is Ok,
    }
}

/// The answer of a call with its message as characters.
pub open spec fn answer(res: Result<(), String>) -> Result<(), Seq<char>> {
    match res {
        Ok(_) => Ok(()),
        Err(m) => Err(m@),
    }
}

/// The configuration as it is put together.
pub struct ConfigBuilder {
    keymaps: KeyMaps,
    host: Option<HostName>,
    user: Option<String>,
    notification_style: NotificationStyle,
    file_open_program: String,
    url_open_program: String,
    modes: ModeSet,
}

impl View for ConfigBuilder {
    type V = ConfigView;

    closed spec fn view(&self) -> ConfigView {
        ConfigView {
            keymaps: self.keymaps@,
            modes: self.modes@,
            host: match self.host {
                Some(h) => Some(h@),
                None => None,
            },
            user: match self.user {
                Some(u) => Some(u@),
                None => None,
            },
            notification_style: self.notification_style,
            file_open_program: self.file_open_program@,
            url_open_program: self.url_open_program@,
        }
    }
}

impl ConfigBuilder {
    /// The bindings are in order.
    pub closed spec fn wf(&self) -> bool {
        self.keymaps.wf()
    }

    /// The configuration before anything was configured.
    pub fn new() -> (res: ConfigBuilder)
        ensures
            res.wf(),
            res@ == (ConfigView {
                keymaps: Map::empty(),
                modes: ModeSetView {
                    custom: Map::empty(),
                    on_enter: Map::empty(),
                    on_leave: Map::empty(),
                },
                host: None,
                user: None,
                notification_style: NotificationStyle::Full,
                file_open_program: DEFAULT_OPEN_PROG@,
                url_open_program: DEFAULT_OPEN_PROG@,
            }),
    {
        ConfigBuilder {
            keymaps: KeyMaps::new(),
            host: None,
            user: None,
            notification_style: NotificationStyle::default(),
            file_open_program: DEFAULT_OPEN_PROG.to_owned(),
            url_open_program: DEFAULT_OPEN_PROG.to_owned(),
            modes: ModeSet::new(),
        }
    }

    /// The finished configuration. A host and a user have to be configured.
    pub fn finalize(self) -> (res: Result<Config, String>)
        requires
            self.wf(),
        ensures
            match (self@.host, self@.user) {
                (None, _) => res matches Err(m) && m@ == "Host not configured."@,
                (Some(_), None) => res matches Err(m) && m@ == "User not configured."@,
                (Some(h), Some(u)) => res matches Ok(c) && c.host@ == h && c.user@ == u
                    && c.notification_style == self@.notification_style && c.file_open_program@
                    == self@.file_open_program && c.url_open_program@ == self@.url_open_program
                    && c.keymaps.wf() && c.keymaps@ == self@.keymaps && c.modes@ == self@.modes,
            },
    {
        let host = match self.host {
            Some(h) => h,
            None => return Err("Host not configured.".to_owned()),
        };
        let user = match self.user {
            Some(u) => u,
            None => return Err("User not configured.".to_owned()),
        };
        Ok(
            Config {
                host,
                user,
                notification_style: self.notification_style,
                file_open_program: self.file_open_program,
                url_open_program: self.url_open_program,
                keymaps: self.keymaps,
                modes: self.modes,
            },
        )
    }

    /// Sets the host.
    pub fn set_host(&mut self, host: HostName)
        requires
            old(self).wf(),
        ensures
            final(self).wf(),
            final(self)@ == (ConfigView { host: Some(host@), ..old(self)@ }),
    {
        self.host = Some(host);
    }

    /// Sets the user.
    pub fn set_user(&mut self, user: String)
        requires
            old(self).wf(),
        ensures
            final(self).wf(),
            final(self)@ == (ConfigView { user: Some(user@), ..old(self)@ }),
    {
        self.user = Some(user);
    }

    fn define_mode(&mut self, name: String, base: String) -> (res: Result<(), String>)
        requires
            old(self).wf(),
        ensures
            final(self).wf(),
            configured(old(self)@, ConfigCall::DefineMode(name, base), final(self)@, answer(res)),
    {
        match BuiltinMode::from_str(base.as_str()) {
            Ok(m) => {
                let message = embedded("Mode '", name.as_str(), "' already exists");
                match self.modes.define(name, m) {
                    Ok(_) => Ok(()),
                    Err(_) => Err(message),
                }
            },
            Err(_) => Err(embedded("'", base.as_str(), "' is not a builtin mode")),
        }
    }

    fn on_enter(&mut self, name: String, f: Action) -> (res: Result<(), String>)
        requires
            old(self).wf(),
        ensures
            final(self).wf(),
            configured(old(self)@, ConfigCall::OnEnter(name, f), final(self)@, answer(res)),
    {
        match self.modes.get(name.as_str()) {
            Some(mode) => {
                self.modes.define_on_enter(&mode, f);
                Ok(())
            },
            None => Err(embedded("No such mode '", name.as_str(), "'")),
        }
    }

    fn on_leave(&mut self, name: String, f: Action) -> (res: Result<(), String>)
        requires
            old(self).wf(),
        ensures
            final(self).wf(),
            configured(old(self)@, ConfigCall::OnLeave(name, f), final(self)@, answer(res)),
    {
        match self.modes.get(name.as_str()) {
            Some(mode) => {
                self.modes.define_on_leave(&mode, f);
                Ok(())
            },
            None => Err(embedded("No such mode '", name.as_str(), "'")),
        }
    }

    fn bind(&mut self, keys: String, mode: String, f: Action) -> (res: Result<(), String>)
        requires
            old(self).wf(),
            is_answerable(old(self)@, ConfigCall::Bind(keys, mode, f)),
        ensures
            final(self).wf(),
            configured(old(self)@, ConfigCall::Bind(keys, mode, f), final(self)@, answer(res)),
    {
        let k = match parse_keys(keys.as_str()) {
            Ok(k) => Keys(k),
            Err(e) => return Err(e),
        };
        let m = match self.modes.get(mode.as_str()) {
            Some(m) => m,
            None => return Err(embedded("Mode '", mode.as_str(), "' is not defined")),
        };
        proof {
            if k@.len() == 0 {
                assert(k@ =~= Seq::<Key>::empty());
            }
            assert(self.keymaps.bindings(m@) == self@.bindings(m@));
        }
        self.keymaps.bind(&m, k, f)
    }

    fn unbind(&mut self, keys: String, mode: String) -> (res: Result<(), String>)
        requires
            old(self).wf(),
            is_answerable(old(self)@, ConfigCall::Unbind(keys, mode)),
        ensures
            final(self).wf(),
            configured(old(self)@, ConfigCall::Unbind(keys, mode), final(self)@, answer(res)),
    {
        let k = match parse_keys(keys.as_str()) {
            Ok(k) => Keys(k),
            Err(e) => return Err(e),
        };
        let m = match self.modes.get(mode.as_str()) {
            Some(m) => m,
            None => return Err(embedded("Mode '", mode.as_str(), "' is not defined")),
        };
        proof {
            if k@.len() == 0 {
                assert(k@ =~= Seq::<Key>::empty());
            }
            assert(self.keymaps.bindings(m@) == self@.bindings(m@));
        }
        if self.keymaps.unbind(&m, &k) {
            Ok(())
        } else {
            let mut message = joined("No binding of ", k.to_string().as_str());
            message.append(" in mode ");
            message.append(mode.as_str());
            message.append(" exists");
            Err(message)
        }
    }

    /// Whether a call can be answered.
    pub fn can_configure(&self, call: &ConfigCall) -> (res: bool)
        requires
            self.wf(),
        ensures
            res == is_answerable(self@, *call),
    {
        let (keys, mode) = match call {
            ConfigCall::Bind(keys, mode, _) => (keys, mode),
            ConfigCall::Unbind(keys, mode) => (keys, mode),
            _ => return true,
        };
        match (parse_keys(keys.as_str()), self.modes.get(mode.as_str())) {
            (Ok(k), Some(m)) => {
                proof {
                    if k@.len() == 0 {
                        assert(k@ =~= Seq::<Key>::empty());
                    }
                    assert(self.keymaps.bindings(m@) == self@.bindings(m@));
                }
                k.len() > 0 || self.keymaps.has_bindings(&m)
            },
            _ => true,
        }
    }

    /// Carries out a call that the configuration file makes.
    pub fn configure(&mut self, call: ConfigCall) -> (res: Result<(), String>)
        requires
            old(self).wf(),
            is_answerable(old(self)@, call),
        ensures
            final(self).wf(),
            configured(old(self)@, call, final(self)@, answer(res)),
    {
        match call {
            ConfigCall::DefineMode(name, base) => self.define_mode(name, base),
            ConfigCall::OnEnter(name, f) => self.on_enter(name, f),
            ConfigCall::OnLeave(name, f) => self.on_leave(name, f),
            ConfigCall::Bind(keys, mode, f) => self.bind(keys, mode, f),
            ConfigCall::Unbind(keys, mode) => self.unbind(keys, mode),
            ConfigCall::ClearBindings => {
                self.keymaps.clear_bindings();
                Ok(())
            },
            ConfigCall::Host(name) => match HostName::parse(name.as_str()) {
                Ok(host) => {
                    self.host = Some(host);
                    Ok(())
                },
                Err(e) => Err(e),
            },
            ConfigCall::User(name) => {
                self.user = Some(name);
                Ok(())
            },
            ConfigCall::NotificationStyle(name) => match NotificationStyle::from_str(
                name.as_str(),
            ) {
                Ok(style) => {
                    self.notification_style = style;
                    Ok(())
                },
                Err(e) => Err(e),
            },
            ConfigCall::FileOpenProgram(program) => {
                self.file_open_program = program;
                Ok(())
            },
            ConfigCall::UrlOpenProgram(program) => {
                self.url_open_program = program;
                Ok(())
            },
        }
    }
}

/// A mode that was defined is found under its name, and no other name changes its meaning. The
/// names of the modes that the client knows by itself never do.
pub proof fn law_defined_mode_is_found(
    c: ConfigView,
    name: String,
    base: String,
    after: ConfigView,
    other: Seq<char>,
)
    requires
        configured(c, ConfigCall::DefineMode(name, base), after, Ok(())),
    ensures
        builtin_mode_named(base@) matches Some(m) && after.modes.get(name@) == Some(
            ModeView::Custom(name@, m),
        ),
        other != name@ ==> after.modes.get(other) == c.modes.get(other),
        builtin_mode_named(other) matches Some(m) ==> after.modes.get(other) == Some(
            ModeView::Builtin(m),
        ),
{
}

/// A call that is refused changes no binding, no mode and no setting.
pub proof fn law_refused_call_changes_nothing(
    c: ConfigView,
    call: ConfigCall,
    after: ConfigView,
    message: Seq<char>,
    mode: ModeView,
)
    requires
        configured(c, call, after, Err(message)),
    ensures
        after.bindings(mode) == c.bindings(mode),
        after == (ConfigView { keymaps: after.keymaps, ..c }),
{
    if let ConfigCall::Unbind(keys, m) = call {
        if let Some(k) = keys_from(keys@, 0) {
            if let Some(v) = c.modes.get(m@) {
                assert(c.bindings(v).remove(k) =~= c.bindings(v));
            }
        }
    }
}

/// Keys that were bound in a mode are found there, and nothing else changes. Taking the binding
/// away succeeds and leads back to the bindings before.
pub proof fn law_unbind_undoes_bind(
    c: ConfigView,
    keys: String,
    mode: String,
    f: Action,
    bound: ConfigView,
    after: ConfigView,
    res: Result<(), Seq<char>>,
    other: ModeView,
)
    requires
        configured(c, ConfigCall::Bind(keys, mode, f), bound, Ok(())),
        configured(bound, ConfigCall::Unbind(keys, mode), after, res),
    ensures
        keys_from(keys@, 0) matches Some(k) && c.modes.get(mode@) matches Some(m) && finds(
            bound.bindings(m),
            k,
            FindView::Found(f),
        ) && (other != m ==> bound.bindings(other) == c.bindings(other)),
        bound == (ConfigView { keymaps: bound.keymaps, ..c }),
        res is Ok,
        after.bindings(other) == c.bindings(other),
        after == (ConfigView { keymaps: after.keymaps, ..c }),
{
    let k = keys_from(keys@, 0)->Some_0;
    let m = c.modes.get(mode@)->Some_0;
    assert(bound.bindings(m) == c.bindings(m).insert(k, f));
    assert(!c.bindings(m).contains_key(k));
    assert(c.bindings(m).insert(k, f).remove(k) =~= c.bindings(m));
}

/// Whatever was configured, no binding of a mode is the beginning of another one of that mode.
pub proof fn law_configured_bindings_are_prefix_free(builder: ConfigBuilder, mode: ModeView)
    requires
        builder.wf(),
    ensures
        prefix_free(builder@.bindings(mode)),
{
    law_bindings_are_prefix_free(builder.keymaps, mode);
    assert(builder.keymaps.bindings(mode) == builder@.bindings(mode));
}

/// What a call is meant to change.
pub enum Change {
    Mode,
    /// The functions of the mode with a name.
    Hook(Seq<char>),
    Binding,
    /// Bindings that go away.
    Removal,
    Host,
    User,
    NotificationStyle,
    FileOpenProgram,
    UrlOpenProgram,
}

/// What a call is meant to change.
pub open spec fn change_of(call: ConfigCall) -> Change {
    match call {
        ConfigCall::DefineMode(_, _) => Change::Mode,
        ConfigCall::OnEnter(name, _) => Change::Hook(name@),
        ConfigCall::OnLeave(name, _) => Change::Hook(name@),
        ConfigCall::Bind(_, _, _) => Change::Binding,
        ConfigCall::Unbind(_, _) => Change::Removal,
        ConfigCall::ClearBindings => Change::Removal,
        ConfigCall::Host(_) => Change::Host,
        ConfigCall::User(_) => Change::User,
        ConfigCall::NotificationStyle(_) => Change::NotificationStyle,
        ConfigCall::FileOpenProgram(_) => Change::FileOpenProgram,
        ConfigCall::UrlOpenProgram(_) => Change::UrlOpenProgram,
    }
}

/// Whether the calls of a script, one after the other, may lead through the given configurations
/// with the given answers.
pub open spec fn script_ran(
    states: Seq<ConfigView>,
    calls: Seq<ConfigCall>,
    answers: Seq<Result<(), Seq<char>>>,
) -> bool {
    &&& states.len() == calls.len() + 1
    &&& answers.len() == calls.len()
    &&& forall|i: int|
        0 <= i < calls.len() ==> configured(
            states[i],
            #[trigger] calls[i],
            states[i + 1],
            answers[i],
        )
}

/// Whether no call of a script that was not refused is meant for a change.
pub open spec fn is_left_alone(
    calls: Seq<ConfigCall>,
    answers: Seq<Result<(), Seq<char>>>,
    change: Change,
) -> bool {
    forall|i: int|
        0 <= i < calls.len() && answers[i] is Ok ==> change_of(#[trigger] calls[i]) != change
}

/// Whether the bindings and modes of a configuration are all in another one.
pub open spec fn is_kept(c: ConfigView, after: ConfigView) -> bool {
    &&& forall|mode: ModeView, keys: Seq<Key>, f: Action|
        finds(c.bindings(mode), keys, FindView::Found(f)) ==> #[trigger] finds(
            after.bindings(mode),
            keys,
            FindView::Found(f),
        )
    &&& forall|name: Seq<char>|
        c.modes.get(name) is Some ==> #[trigger] after.modes.get(name) == c.modes.get(name)
}

/// Whether two configurations have the same function to run when the mode with a name is entered.
pub open spec fn same_hook(c: ConfigView, after: ConfigView, name: Seq<char>) -> bool {
    &&& after.modes.on_enter.contains_key(name) == c.modes.on_enter.contains_key(name)
    &&& after.modes.on_enter[name] == c.modes.on_enter[name]
}

proof fn lemma_call_keeps(
    c: ConfigView,
    call: ConfigCall,
    after: ConfigView,
    res: Result<(), Seq<char>>,
    name: Seq<char>,
)
    requires
        configured(c, call, after, res),
    ensures
        !(res is Ok && change_of(call) is Removal) ==> is_kept(c, after),
        !(res is Ok && change_of(call) == Change::Hook(name)) ==> same_hook(c, after, name),
        !(res is Ok && change_of(call) is Host) ==> after.host == c.host,
        !(res is Ok && change_of(call) is User) ==> after.user == c.user,
        !(res is Ok && change_of(call) is NotificationStyle) ==> after.notification_style
            == c.notification_style,
        !(res is Ok && change_of(call) is FileOpenProgram) ==> after.file_open_program
            == c.file_open_program,
        !(res is Ok && change_of(call) is UrlOpenProgram) ==> after.url_open_program
            == c.url_open_program,
        after.modes.on_leave == c.modes.on_leave,
{
    if !(res is Ok && change_of(call) is Removal) {
        assert forall|mode: ModeView, keys: Seq<Key>, f: Action|
            finds(c.bindings(mode), keys, FindView::Found(f)) implies #[trigger] finds(
            after.bindings(mode),
            keys,
            FindView::Found(f),
        ) by {}
    }
}

/// A script is loaded in addition to what was configured before it. Unless one of its calls takes
/// bindings away, every binding is kept with its action, and every mode with the one that it is
/// based on. Every setting, and every function to run with a mode, that no call sets stays as it
/// was.
pub proof fn law_script_is_loaded_in_addition(
    states: Seq<ConfigView>,
    calls: Seq<ConfigCall>,
    answers: Seq<Result<(), Seq<char>>>,
    name: Seq<char>,
)
    requires
        script_ran(states, calls, answers),
    ensures
        is_left_alone(calls, answers, Change::Removal) ==> is_kept(states.first(), states.last()),
        is_left_alone(calls, answers, Change::Hook(name)) ==> same_hook(
            states.first(),
            states.last(),
            name,
        ),
        is_left_alone(calls, answers, Change::Host) ==> states.last().host == states.first().host,
        is_left_alone(calls, answers, Change::User) ==> states.last().user == states.first().user,
        is_left_alone(calls, answers, Change::NotificationStyle)
            ==> states.last().notification_style == states.first().notification_style,
        is_left_alone(calls, answers, Change::FileOpenProgram) ==> states.last().file_open_program
            == states.first().file_open_program,
        is_left_alone(calls, answers, Change::UrlOpenProgram) ==> states.last().url_open_program
            == states.first().url_open_program,
        states.last().modes.on_leave == states.first().modes.on_leave,
    decreases calls.len(),
{
    if calls.len() > 0 {
        let n = calls.len() - 1;
        let s = states.drop_last();
        let c = calls.drop_last();
        let a = answers.drop_last();
        assert forall|i: int| 0 <= i < c.len() implies configured(
            s[i],
            #[trigger] c[i],
            s[i + 1],
            a[i],
        ) by {
            assert(c[i] == calls[i]);
        }
        law_script_is_loaded_in_addition(s, c, a, name);
        lemma_call_keeps(states[n], calls[n], states[n + 1], answers[n], name);
        assert forall|change: Change| #[trigger] is_left_alone(calls, answers, change) implies is_left_alone(
            c,
            a,
            change,
        ) by {
            assert forall|i: int| 0 <= i < c.len() && a[i] is Ok implies change_of(#[trigger] c[i])
                != change by {
                assert(c[i] == calls[i]);
            }
        }
    }
}

/// Each setting is set by its own call, to what the call says, and by no other one.
pub proof fn law_settings_are_set_by_their_calls(
    c: ConfigView,
    call: ConfigCall,
    after: ConfigView,
    res: Result<(), Seq<char>>,
)
    requires
        configured(c, call, after, res),
    ensures
        call matches ConfigCall::User(name) ==> res is Ok && after.user == Some(name@),
        call matches ConfigCall::Host(name) ==> (res is Ok <==> server_name_error(name@) is None)
            && (res is Ok ==> after.host == Some(name@)),
        call matches ConfigCall::FileOpenProgram(p) ==> res is Ok && after.file_open_program == p@,
        call matches ConfigCall::UrlOpenProgram(p) ==> res is Ok && after.url_open_program == p@,
        !(call is User) ==> after.user == c.user,
        !(call is Host) ==> after.host == c.host,
        !(call is FileOpenProgram) ==> after.file_open_program == c.file_open_program,
        !(call is UrlOpenProgram) ==> after.url_open_program == c.url_open_program,
        !(call is NotificationStyle) ==> after.notification_style == c.notification_style,
        !(call is Bind || call is Unbind || call is ClearBindings) ==> after.keymaps == c.keymaps,
        !(call is DefineMode) ==> after.modes.custom == c.modes.custom,
{
}

/// The names of the notification styles stand for the styles, and no style has two of them.
pub proof fn law_notification_style_is_set_by_name(
    c: ConfigView,
    name: String,
    after: ConfigView,
    res: Result<(), Seq<char>>,
)
    requires
        configured(c, ConfigCall::NotificationStyle(name), after, res),
    ensures
        res is Ok <==> name@ == "disabled"@ || name@ == "nameonly"@ || name@ == "nameandgroup"@
            || name@ == "full"@,
        res is Ok ==> {
            &&& after.notification_style is Disabled <==> name@ == "disabled"@
            &&& after.notification_style is NameOnly <==> name@ == "nameonly"@
            &&& after.notification_style is NameAndGroup <==> name@ == "nameandgroup"@
            &&& after.notification_style is Full <==> name@ == "full"@
        },
{
    reveal_strlit("disabled");
    reveal_strlit("nameonly");
    reveal_strlit("nameandgroup");
    reveal_strlit("full");
    assert("disabled"@[0] != "nameonly"@[0]);
    assert("disabled"@.len() != "nameandgroup"@.len());
    assert("disabled"@.len() != "full"@.len());
    assert("nameonly"@.len() != "nameandgroup"@.len());
    assert("nameonly"@.len() != "full"@.len());
    assert("nameandgroup"@.len() != "full"@.len());
}

/// Taking all bindings away leaves none in any mode. Binding keys in a mode makes them run the
/// function there, and leaves every other binding of every mode as it is.
pub proof fn law_bindings_are_those_that_were_made(
    c: ConfigView,
    keys: String,
    name: String,
    f: Action,
    after: ConfigView,
    k: Seq<Key>,
    m: ModeView,
    other: Seq<Key>,
    mode: ModeView,
    res: Result<(), Seq<char>>,
)
    requires
        keys_from(keys@, 0) == Some(k),
        c.modes.get(name@) == Some(m),
    ensures
        configured(c, ConfigCall::ClearBindings, after, res) ==> !after.bindings(
            mode,
        ).contains_key(other),
        configured(c, ConfigCall::Bind(keys, name, f), after, Ok(())) ==> after.bindings(
            m,
        ).contains_key(k) && after.bindings(m)[k] == f,
        configured(c, ConfigCall::Bind(keys, name, f), after, res) && (mode != m || other != k)
            ==> after.bindings(mode).contains_key(other) == c.bindings(mode).contains_key(other)
            && (c.bindings(mode).contains_key(other) ==> after.bindings(mode)[other] == c.bindings(
            mode,
        )[other]),
        configured(c, ConfigCall::Unbind(keys, name), after, res) && (mode != m || other != k)
            ==> after.bindings(mode).contains_key(other) == c.bindings(mode).contains_key(other),
        configured(c, ConfigCall::Unbind(keys, name), after, res) ==> !after.bindings(
            m,
        ).contains_key(k),
{
}

/// A function for entering a mode is run for that mode and for no other one.
pub proof fn law_function_is_run_for_its_mode(
    c: ConfigView,
    name: String,
    f: Action,
    after: ConfigView,
    other: ModeView,
)
    requires
        configured(c, ConfigCall::OnEnter(name, f), after, Ok(())),
    ensures
        c.modes.get(name@) matches Some(m) && after.modes.on_enter.contains_key(m.name())
            && after.modes.on_enter[m.name()] == f && (other.name() != m.name() ==> same_hook(
            c,
            after,
            other.name(),
        )),
{
}

/// The id of a user is made of the name and the host, without the port of the host.
pub proof fn law_user_id_is_without_port(user: Seq<char>, host: Seq<char>, port: Seq<char>)
    requires
        !host.contains(':'),
        !host.contains(']'),
        !port.contains(']'),
    ensures
        full_user_id(user, host + seq![':'] + port) == seq!['@'] + user + seq![':'] + host,
        full_user_id(user, host) == seq!['@'] + user + seq![':'] + host,
{
    law_host_stands_before_the_port(host, port);
    reveal_strlit("@");
    reveal_strlit(":");
    assert("@"@ =~= seq!['@']);
    assert(":"@ =~= seq![':']);
}

} // verus!
