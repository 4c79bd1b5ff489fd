//! The notifications that are shown on the desktop.

use vstd::prelude::*;

use crate::config::NotificationStyle;
use crate::event::{Event, EventContent, MessageKind};
use crate::text::{joined, same};

verus! {

/// The event of a notification.
pub enum NotifiedEvent {
    /// It does not belong to a joined room.
    Foreign,
    /// It could not be read.
    Unreadable,
    Event(Event),
}

/// What a notification shows.
pub struct NotificationText {
    pub summary: String,
    pub body: Option<String>,
}

/// What is shown of the content of an event.
pub open spec fn shown_content(event: Event) -> Seq<char> {
    match event.content {
        EventContent::Message(m) => match m.kind {
            MessageKind::Text => m.body@,
            MessageKind::Image => "sent an image"@,
            MessageKind::Audio => "sent an audio message"@,
            MessageKind::Video => "sent a video"@,
            MessageKind::File => "sent a file"@,
            _ => Seq::empty(),
        },
        _ => Seq::empty(),
    }
}

/// What is shown of the sender and the room of an event.
pub open spec fn shown_group(sender: Seq<char>, is_direct: bool, room_name: Seq<char>) -> Seq<
    char,
> {
    if is_direct {
        sender
    } else {
        sender + " in "@ + room_name
    }
}

/// Whether a notification is shown: the rules ask for it, the event is one of somebody else, and
/// notifications are not disabled.
pub open spec fn is_notified(
    notify: bool,
    event: NotifiedEvent,
    own_user_id: Option<Seq<char>>,
    style: NotificationStyle,
) -> bool {
    &&& notify
    &&& event matches NotifiedEvent::Event(e) && Some(e.sender@) != own_user_id
    &&& !(style is Disabled)
}

/// What is shown of the content of an event.
fn content_text(event: &Event) -> (res: String)
    ensures
        res@ == shown_content(*event),
{
    match &event.content {
        EventContent::Message(m) => match &m.kind {
            MessageKind::Text => m.body.clone(),
            MessageKind::Image => "sent an image".to_owned(),
            MessageKind::Audio => "sent an audio message".to_owned(),
            MessageKind::Video => "sent a video".to_owned(),
            MessageKind::File => "sent a file".to_owned(),
            _ => String::new(),
        },
        _ => String::new(),
    }
}

/// Whether something is what is shown for an event, or nothing where no notification is shown.
pub open spec fn is_notification(
    notify: bool,
    event: NotifiedEvent,
    own: Option<Seq<char>>,
    is_direct: bool,
    room_name: Seq<char>,
    style: NotificationStyle,
    res: Option<NotificationText>,
) -> bool {
    match res {
        Some(text) => {
            &&& is_notified(notify, event, own, style)
            &&& event matches NotifiedEvent::Event(e) && match style {
                NotificationStyle::Disabled => false,
                NotificationStyle::NameOnly => text.summary@ == e.sender@ && text.body is None,
                NotificationStyle::NameAndGroup => text.summary@ == shown_group(
                    e.sender@,
                    is_direct,
                    room_name,
                ) && text.body is None,
                NotificationStyle::Full => text.summary@ == shown_group(
                    e.sender@,
                    is_direct,
                    room_name,
                ) && (text.body matches Some(b) && b@ == shown_content(e)),
            }
        },
        None => !is_notified(notify, event, own, style),
    }
}

/// Decides on a notification: what to show, or nothing. Where something is shown the bell rings.
pub fn handle_notification(
    notify: bool,
    event: &NotifiedEvent,
    own_user_id: Option<&str>,
    is_direct: bool,
    room_name: &str,
    style: NotificationStyle,
) -> (res: Option<NotificationText>)
    ensures
        is_notification(
            notify,
            *event,
            match own_user_id {
                Some(id) => Some(id@),
                None => None,
            },
            is_direct,
            room_name@,
            style,
            res,
        ),
{
    if !notify {
        return None;
    }
    match event {
        NotifiedEvent::Event(e) => {
            let is_own = match own_user_id {
                Some(id) => same(id, e.sender.as_str()),
                None => false,
            };
            if is_own {
                return None;
            }
            let group = if is_direct {
                e.sender.clone()
            } else {
                let mut s = joined(e.sender.as_str(), " in ");
                s.append(room_name);
                s
            };
            match style {
                NotificationStyle::Disabled => None,
                NotificationStyle::NameOnly => Some(
                    NotificationText { summary: e.sender.clone(), body: None },
                ),
                NotificationStyle::NameAndGroup => Some(
                    NotificationText { summary: group, body: None },
                ),
                NotificationStyle::Full => Some(
                    NotificationText { summary: group, body: Some(content_text(e)) },
                ),
            }
        },
        _ => None,
    }
}

/// The notification for an event of somebody else names the sender, unless notifications are
/// disabled. Where only the name is to be shown it says nothing else. The room is named where it is
/// not a direct chat, and the text of a message is shown only in full notifications.
pub proof fn law_notification_tells_what_is_asked_for(
    e: Event,
    own: Seq<char>,
    is_direct: bool,
    room_name: Seq<char>,
    style: NotificationStyle,
    res: Option<NotificationText>,
)
    requires
        e.sender@ != own,
        !(style is Disabled),
        is_notification(true, NotifiedEvent::Event(e), Some(own), is_direct, room_name, style, res),
    ensures
        res matches Some(text) && {
            &&& text.summary@.len() >= e.sender@.len()
            &&& text.summary@.take(e.sender@.len() as int) == e.sender@
            &&& style is NameOnly || is_direct ==> text.summary@ == e.sender@
            &&& !(style is NameOnly || is_direct) ==> text.summary@ == e.sender@ + " in "@
                + room_name
            &&& text.body is Some <==> style is Full
            &&& (e.content matches EventContent::Message(m) && m.kind is Text && style is Full) ==> (
            text.body matches Some(b) && b@ == e.content->Message_0.body@)
        },
{
    let text = res->0;
    assert(text.summary@.take(e.sender@.len() as int) =~= e.sender@);
}

/// There is no notification where none is asked for, for an own event, for one that cannot be read
/// or is not of a joined room, and where notifications are disabled.
pub proof fn law_no_notification_where_none_is_wanted(
    notify: bool,
    event: NotifiedEvent,
    own: Option<Seq<char>>,
    is_direct: bool,
    room_name: Seq<char>,
    style: NotificationStyle,
    res: Option<NotificationText>,
)
    requires
        is_notification(notify, event, own, is_direct, room_name, style, res),
    ensures
        !notify ==> res is None,
        style is Disabled ==> res is None,
        event is Foreign || event is Unreadable ==> res is None,
        event matches NotifiedEvent::Event(e) ==> own == Some(e.sender@) ==> res is None,
{
}

} // verus!
