//! The events of a room timeline, as far as the client looks into them.

use vstd::prelude::*;

verus! {

/// How a room message refers to another event.
pub enum Relation {
    /// No reference.
    Unrelated,
    /// An answer to the event with the given id.
    Reply(String),
    /// A new version of the event with the given id.
    Replacement(String),
    /// A reference that the client does not act on.
    Other,
}

/// The kinds of room messages.
pub enum MessageKind {
    Text,
    Image,
    Video,
    Audio,
    File,
    Emote,
    Location(String),
    Notice,
    ServerNotice,
    VerificationRequest,
    /// A message of an unknown type; the debug form of its content.
    Custom(String),
    Other,
}

/// The content of a room message.
pub struct RoomMessage {
    pub body: String,
    pub kind: MessageKind,
    pub relates_to: Relation,
    /// The debug form of the message's type with all of its content.
    pub debug: String,
}

/// The steps of a call.
#[derive(Clone, Copy, Debug, PartialEq, Eq, Structural)]
pub enum CallStep {
    Answer,
    Invite,
    Hangup,
    Candidates,
}

/// What happened to a member of a room.
#[derive(Clone, Copy, Debug, PartialEq, Eq, Structural)]
pub enum MembershipChange {
    Unchanged,
    Error,
    Joined,
    Left,
    Banned,
    Unbanned,
    Kicked,
    Invited,
    KickedAndBanned,
    InvitationRejected,
    InvitationRevoked,
    ProfileChanged(bool),
    NotImplemented,
    Other,
}

/// The content of a state event.
pub enum StateChange {
    CanonicalAlias(Option<String>),
    Create,
    Aliases,
    Avatar,
    Encryption,
    GuestAccess(String),
    HistoryVisibility(String),
    JoinRules(String),
    Member(MembershipChange, Option<String>),
    Name(Option<String>),
    PinnedEvents(String),
    ThirdPartyInvite(String),
    Topic(String),
    Other(String),
}

/// The content of an event.
pub enum EventContent {
    /// A message-like event whose content was taken away; the flag tells an encrypted one.
    Redacted(bool),
    Message(RoomMessage),
    /// A reaction: the event it is attached to, and its key.
    Reaction(String, String),
    /// The removal of an event: its id where it is given, and the debug form of the request.
    Redaction(Option<String>, String),
    Encrypted,
    Call(CallStep),
    VerificationStart,
    VerificationStep,
    Feedback,
    Sticker(String),
    CustomMessage(String),
    OtherMessage(String),
    State(StateChange),
    Other(String),
}

/// One event of a room timeline.
pub struct Event {
    pub event_id: String,
    pub sender: String,
    /// When the event was sent, in milliseconds since the epoch.
    pub timestamp: u64,
    pub content: EventContent,
}

impl Event {
    /// The body of a room message, if the event is one.
    pub open spec fn spec_body(&self) -> Option<Seq<char>> {
        match self.content {
            EventContent::Message(m) => Some(m.body@),
            _ => None,
        }
    }

    /// The body of a room message, if the event is one.
    pub fn body(&self) -> (res: Option<&str>)
        ensures
            res is Some == self.spec_body() is Some,
            res matches Some(b) ==> Some(b@) == self.spec_body(),
    {
        match &self.content {
            EventContent::Message(m) => Some(m.body.as_str()),
            _ => None,
        }
    }

    /// The room message, if the event is one.
    pub fn room_message(&self) -> (res: Option<&RoomMessage>)
        ensures
            match res {
                Some(m) => self.content == EventContent::Message(*m),
                None => !(self.content is Message),
            },
    {
        match &self.content {
            EventContent::Message(m) => Some(m),
            _ => None,
        }
    }
}

impl Clone for Relation {
    fn clone(&self) -> (res: Self)
        ensures
            res == *self,
    {
        match self {
            Relation::Unrelated => Relation::Unrelated,
            Relation::Reply(id) => Relation::Reply(id.clone()),
            Relation::Replacement(id) => Relation::Replacement(id.clone()),
            Relation::Other => Relation::Other,
        }
    }
}

impl Clone for MessageKind {
    fn clone(&self) -> (res: Self)
        ensures
            res == *self,
    {
        match self {
            MessageKind::Text => MessageKind::Text,
            MessageKind::Image => MessageKind::Image,
            MessageKind::Video => MessageKind::Video,
            MessageKind::Audio => MessageKind::Audio,
            MessageKind::File => MessageKind::File,
            MessageKind::Emote => MessageKind::Emote,
            MessageKind::Location(uri) => MessageKind::Location(uri.clone()),
            MessageKind::Notice => MessageKind::Notice,
            MessageKind::ServerNotice => MessageKind::ServerNotice,
            MessageKind::VerificationRequest => MessageKind::VerificationRequest,
            MessageKind::Custom(debug) => MessageKind::Custom(debug.clone()),
            MessageKind::Other => MessageKind::Other,
        }
    }
}

impl Clone for RoomMessage {
    fn clone(&self) -> (res: Self)
        ensures
            res == *self,
    {
        RoomMessage {
            body: self.body.clone(),
            kind: self.kind.clone(),
            relates_to: self.relates_to.clone(),
            debug: self.debug.clone(),
        }
    }
}

/// An event that is a room message.
pub struct MessageEvent {
    pub event_id: String,
    pub sender: String,
    /// When the event was sent, in milliseconds since the epoch.
    pub timestamp: u64,
    pub message: RoomMessage,
}

impl Clone for MessageEvent {
    fn clone(&self) -> (res: Self)
        ensures
            res == *self,
    {
        MessageEvent {
            event_id: self.event_id.clone(),
            sender: self.sender.clone(),
            timestamp: self.timestamp,
            message: self.message.clone(),
        }
    }
}

/// The room message that an event is.
pub open spec fn message_event(event: Event) -> Option<MessageEvent> {
    match event.content {
        EventContent::Message(message) => Some(
            MessageEvent {
                event_id: event.event_id,
                sender: event.sender,
                timestamp: event.timestamp,
                message,
            },
        ),
        _ => None,
    }
}

impl Event {
    /// The room message that the event is.
    pub fn to_message_event(&self) -> (res: Option<MessageEvent>)
        ensures
            res == message_event(*self),
    {
        match &self.content {
            EventContent::Message(m) => Some(
                MessageEvent {
                    event_id: self.event_id.clone(),
                    sender: self.sender.clone(),
                    timestamp: self.timestamp,
                    message: m.clone(),
                },
            ),
            _ => None,
        }
    }
}

} // verus!
