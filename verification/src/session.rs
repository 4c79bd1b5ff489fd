//! The start of the program: which configuration is read, what is run, and the login.

use vstd::prelude::*;
use vstd::string::*;

use crate::config::APP_NAME;
use crate::text::{embedded, same};

verus! {

/// What the program is asked to do.
#[derive(Debug, PartialEq, Eq)]
pub enum Command {
    /// Start the interactive client.
    Tui,
    /// List the registered devices.
    Devices,
    /// Log out some devices.
    Logout(Vec<String>),
    /// Start the verification of a device.
    VerifyInitiate(String),
    /// Wait for incoming device verifications.
    VerifyWait,
}

/// The command that was given, or the interactive client.
pub fn command(given: Option<Command>) -> (res: Command)
    ensures
        res == (match given {
            Some(command) => command,
            None => Command::Tui,
        }),
{
    match given {
        Some(command) => command,
        None => Command::Tui,
    }
}

/// The configuration file to read: the one that was given, else the default one if it exists.
pub fn config_file(given: Option<String>, default: String, default_exists: bool) -> (res: Option<
    String,
>)
    ensures
        res == (match given {
            Some(file) => Some(file),
            None => if default_exists {
                Some(default)
            } else {
                None
            },
        }),
{
    match given {
        Some(file) => Some(file),
        None => if default_exists {
            Some(default)
        } else {
            None
        },
    }
}

/// The name under which a new device is registered, given the name of the host if it is known.
pub fn device_name(hostname: Option<&str>) -> (res: String)
    ensures
        res@ == (match hostname {
            Some(host) => APP_NAME@ + " on "@ + host@,
            None => APP_NAME@,
        }),
{
    match hostname {
        Some(host) => embedded(APP_NAME, " on ", host),
        None => APP_NAME.to_owned(),
    }
}

/// What happened during the login.
#[derive(Debug)]
pub enum LoginEvent {
    /// The stored session could be used again, or not.
    Restored(bool),
    /// The user was asked for the password: what they gave, or why that failed.
    Password(Result<String, String>),
    /// The server accepted the password.
    LoggedIn,
    /// The server refused it, with a message.
    Refused(String),
    /// Something else went wrong.
    Failed(String),
}

/// What to do next.
#[derive(Debug, PartialEq, Eq)]
pub enum LoginAction {
    /// Say that the session cannot be restored and ask for the password.
    Introduce,
    /// Ask for the password, after printing a message if there is one.
    AskPassword(Option<String>),
    /// Log in with a password.
    TryPassword(String),
    /// Store the new session and go on with it.
    StoreSession,
    /// Go on with the stored session.
    Proceed,
    /// Give up with a message.
    Panic(String),
}

/// Whether an action is what to do next during the login: the password is asked for until the
/// server accepts one. A failure is reported as it is when the password cannot be read, and as an
/// unexpected one when it comes from the server.
pub open spec fn is_next_login_action(event: LoginEvent, action: LoginAction) -> bool {
    match event {
        LoginEvent::Restored(restored) => action == (if restored {
            LoginAction::Proceed
        } else {
            LoginAction::Introduce
        }),
        LoginEvent::Password(Ok(password)) => action == (if password@.len() == 0 {
            LoginAction::AskPassword(None)
        } else {
            LoginAction::TryPassword(password)
        }),
        LoginEvent::Password(Err(e)) => action == LoginAction::Panic(e),
        LoginEvent::LoggedIn => action == LoginAction::StoreSession,
        LoginEvent::Refused(message) => action == LoginAction::AskPassword(Some(message)),
        LoginEvent::Failed(e) => action matches LoginAction::Panic(message) && message@
            == "Unexpected error: "@ + e@,
    }
}

/// Decides what to do next during the login.
pub fn login(event: LoginEvent) -> (res: LoginAction)
    ensures
        is_next_login_action(event, res),
{
    match event {
        LoginEvent::Restored(restored) => if restored {
            LoginAction::Proceed
        } else {
            LoginAction::Introduce
        },
        LoginEvent::Password(Ok(password)) => {
            proof {
                reveal_strlit("");
                if password@.len() == 0 {
                    assert(password@ =~= ""@);
                }
            }
            if same(password.as_str(), "") {
                LoginAction::AskPassword(None)
            } else {
                LoginAction::TryPassword(password)
            }
        },
        LoginEvent::Password(Err(e)) => LoginAction::Panic(e),
        LoginEvent::LoggedIn => LoginAction::StoreSession,
        LoginEvent::Refused(message) => LoginAction::AskPassword(Some(message)),
        LoginEvent::Failed(e) => LoginAction::Panic(
            crate::text::joined("Unexpected error: ", e.as_str()),
        ),
    }
}

/// A session is stored only where the server accepted a password, and a password is tried only where
/// the user gave one that is not empty. The stored session is used only if it could be restored.
pub proof fn law_login_needs_a_session_or_a_password(event: LoginEvent, action: LoginAction)
    requires
        is_next_login_action(event, action),
    ensures
        action is StoreSession ==> event is LoggedIn,
        action is Proceed ==> event == LoginEvent::Restored(true),
        action matches LoginAction::TryPassword(p) ==> p@.len() > 0 && event
            == LoginEvent::Password(Ok(p)),
        action is Panic <==> event is Failed || (event matches LoginEvent::Password(p) && p is Err),
        event matches LoginEvent::Refused(m) ==> action == LoginAction::AskPassword(Some(m)),
        event matches LoginEvent::Password(Ok(p)) ==> p@.len() == 0 ==> action
            == LoginAction::AskPassword(None),
{
}

} // verus!
