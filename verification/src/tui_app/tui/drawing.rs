//! How events are drawn.

use vstd::hash_map::StringHashMap;
use vstd::prelude::*;

use crate::event::{
    CallStep, Event, EventContent, MembershipChange, MessageEvent, MessageKind, Relation,
    RoomMessage, StateChange,
};
use crate::text::{decimal, embedded, joined, text_of_decimal};
use crate::timeline::{CacheView, EntryView, GroupView, Reaction, TimelineEntry};
use crate::tui_app::colors::Color;
use crate::tui_app::tui::messages::{strip_body, stripped};
use crate::tui_app::RoomState;

verus! {

/// What stands before the preview of a message that is answered.
pub const REPLY_PREFIX: &'static str = "┏➤ ";

/// What stands before the preview of a message that is edited.
pub const EDIT_PREFIX: &'static str = "Editing: ";

/// One step of drawing with a cursor.
pub enum DrawOp {
    /// Write a text.
    Text(String),
    /// Write the id of a user, bold and in a colour. The style is as before afterwards.
    User(String, Color),
    /// Write the local time for a number of seconds since the epoch.
    Time(u64),
    /// Wrap lines from here on.
    Wrap,
    /// Write in italics from here on.
    Italic,
    /// Start further lines at the current column.
    LineStart,
    /// Begin a new line.
    WrapLine,
    /// Remember the style.
    SaveStyle,
    /// Return to the style that was remembered.
    RestoreStyle,
    /// Remember the column at which lines start.
    SaveLineStart,
    /// Return to the column that was remembered.
    RestoreLineStart,
    /// Draw into a single line from here on.
    PreviewStart,
    /// Write the line that was drawn, shortened where it is too long.
    PreviewEnd,
}

/// One step of drawing with a cursor, with texts as characters.
pub enum OpView {
    Text(Seq<char>),
    User(Seq<char>, Color),
    Time(u64),
    Wrap,
    Italic,
    LineStart,
    WrapLine,
    SaveStyle,
    RestoreStyle,
    SaveLineStart,
    RestoreLineStart,
    PreviewStart,
    PreviewEnd,
}

impl View for DrawOp {
    type V = OpView;

    open spec fn view(&self) -> OpView {
        match *self {
            DrawOp::Text(s) => OpView::Text(s@),
            DrawOp::User(s, c) => OpView::User(s@, c),
            DrawOp::Time(t) => OpView::Time(t),
            DrawOp::Wrap => OpView::Wrap,
            DrawOp::Italic => OpView::Italic,
            DrawOp::LineStart => OpView::LineStart,
            DrawOp::WrapLine => OpView::WrapLine,
            DrawOp::SaveStyle => OpView::SaveStyle,
            DrawOp::RestoreStyle => OpView::RestoreStyle,
            DrawOp::SaveLineStart => OpView::SaveLineStart,
            DrawOp::RestoreLineStart => OpView::RestoreLineStart,
            DrawOp::PreviewStart => OpView::PreviewStart,
            DrawOp::PreviewEnd => OpView::PreviewEnd,
        }
    }
}

/// Steps with texts as characters.
pub open spec fn ops_view(ops: Seq<DrawOp>) -> Seq<OpView> {
    Seq::new(ops.len(), |i: int| ops[i]@)
}

/// A list of steps to add to.
pub struct Drawing {
    pub ops: Vec<DrawOp>,
}

impl View for Drawing {
    type V = Seq<OpView>;

    open spec fn view(&self) -> Seq<OpView> {
        ops_view(self.ops@)
    }
}

impl Drawing {
    /// Nothing drawn.
    pub fn new() -> (res: Drawing)
        ensures
            res@ == Seq::<OpView>::empty(),
    {
        let res = Drawing { ops: Vec::new() };
        proof {
            assert(res@ =~= Seq::<OpView>::empty());
        }
        res
    }

    /// Adds a step.
    pub fn push(&mut self, op: DrawOp)
        ensures
            final(self)@ == old(self)@.push(op@),
    {
        self.ops.push(op);
        proof {
            assert(self@ =~= old(self)@.push(op@));
        }
    }

    /// Adds a text.
    pub fn text(&mut self, s: &str)
        ensures
            final(self)@ == old(self)@.push(OpView::Text(s@)),
    {
        self.push(DrawOp::Text(s.to_owned()));
    }
}

/// The colour of a user. One who has just joined may not have one yet.
pub open spec fn color_of(colors: Map<Seq<char>, Color>, user: Seq<char>) -> Color {
    if colors.contains_key(user) {
        colors[user]
    } else {
        Color::Default
    }
}

/// The step that writes the id of a user.
pub open spec fn user_op(colors: Map<Seq<char>, Color>, user: Seq<char>) -> OpView {
    OpView::User(user, color_of(colors, user))
}

/// Writes the id of a user.
fn write_user(out: &mut Drawing, user_id: &str, colors: &StringHashMap<Color>)
    ensures
        final(out)@ == old(out)@.push(user_op(colors@, user_id@)),
{
    let color = match colors.get(user_id) {
        Some(c) => *c,
        None => Color::Default,
    };
    out.push(DrawOp::User(user_id.to_owned(), color));
}

/// The steps that write the time of an event.
pub open spec fn time_ops(timestamp: u64) -> Seq<OpView> {
    seq![OpView::Time((timestamp / 1000) as u64), OpView::Text(" "@)]
}

/// Writes the time of an event.
fn write_time(out: &mut Drawing, timestamp: u64)
    ensures
        final(out)@ == old(out)@ + time_ops(timestamp),
{
    out.push(DrawOp::Time(timestamp / 1000));
    out.text(" ");
    proof {
        assert(out@ =~= old(out)@ + time_ops(timestamp));
    }
}

/// The steps that draw what a room message says, behind the id of the sender.
pub open spec fn message_content_ops(m: RoomMessage) -> Seq<OpView> {
    match m.kind {
        MessageKind::Text => seq![
            OpView::Text(": "@),
            OpView::LineStart,
            OpView::Text(stripped(m.body@)),
        ],
        MessageKind::Image => seq![
            OpView::Italic,
            OpView::Text(" sent an image ("@ + m.body@ + ")"@),
        ],
        MessageKind::Video => seq![
            OpView::Italic,
            OpView::Text(" sent a video ("@ + m.body@ + ")"@),
        ],
        MessageKind::Audio => seq![
            OpView::Italic,
            OpView::Text(" sent an audio message ("@ + m.body@ + ")"@),
        ],
        MessageKind::File => seq![
            OpView::Italic,
            OpView::Text(" sent a file ("@ + m.body@ + ")"@),
        ],
        MessageKind::Emote => seq![OpView::Italic, OpView::Text(" "@ + m.body@)],
        MessageKind::Location(uri) => seq![
            OpView::Italic,
            OpView::Text(" sends the location "@ + m.body@ + " ("@ + uri@ + ")"@),
        ],
        MessageKind::Notice => seq![
            OpView::Text(": "@),
            OpView::Italic,
            OpView::LineStart,
            OpView::Text(m.body@),
        ],
        MessageKind::ServerNotice => seq![
            OpView::Text(": "@),
            OpView::Italic,
            OpView::LineStart,
            OpView::Text(m.body@ + " [server notice]"@),
        ],
        MessageKind::VerificationRequest => seq![
            OpView::Text(" sent a verification request."@),
        ],
        MessageKind::Custom(debug) => seq![
            OpView::Text(" sent a custom event: "@),
            OpView::Italic,
            OpView::LineStart,
            OpView::Text(debug@),
        ],
        MessageKind::Other => seq![
            OpView::Wrap,
            OpView::Text("Other message "@ + m.debug@),
        ],
    }
}

/// The steps that draw a room message without what it answers to.
pub open spec fn plain_message_ops(
    colors: Map<Seq<char>, Color>,
    sender: Seq<char>,
    m: RoomMessage,
) -> Seq<OpView> {
    seq![user_op(colors, sender), OpView::Wrap] + message_content_ops(m)
}

/// Draws what a room message says.
fn draw_message_content(out: &mut Drawing, m: &RoomMessage)
    ensures
        final(out)@ == old(out)@ + message_content_ops(*m),
{
    match &m.kind {
        MessageKind::Text => {
            out.text(": ");
            out.push(DrawOp::LineStart);
            out.text(strip_body(m.body.as_str()));
        },
        MessageKind::Image => {
            out.push(DrawOp::Italic);
            out.text(embedded(" sent an image (", m.body.as_str(), ")").as_str());
        },
        MessageKind::Video => {
            out.push(DrawOp::Italic);
            out.text(embedded(" sent a video (", m.body.as_str(), ")").as_str());
        },
        MessageKind::Audio => {
            out.push(DrawOp::Italic);
            out.text(embedded(" sent an audio message (", m.body.as_str(), ")").as_str());
        },
        MessageKind::File => {
            out.push(DrawOp::Italic);
            out.text(embedded(" sent a file (", m.body.as_str(), ")").as_str());
        },
        MessageKind::Emote => {
            out.push(DrawOp::Italic);
            out.text(joined(" ", m.body.as_str()).as_str());
        },
        MessageKind::Location(uri) => {
            out.push(DrawOp::Italic);
            let mut s = embedded(" sends the location ", m.body.as_str(), " (");
            s.append(uri.as_str());
            s.append(")");
            out.text(s.as_str());
        },
        MessageKind::Notice => {
            out.text(": ");
            out.push(DrawOp::Italic);
            out.push(DrawOp::LineStart);
            out.text(m.body.as_str());
        },
        MessageKind::ServerNotice => {
            out.text(": ");
            out.push(DrawOp::Italic);
            out.push(DrawOp::LineStart);
            out.text(joined(m.body.as_str(), " [server notice]").as_str());
        },
        MessageKind::VerificationRequest => {
            out.text(" sent a verification request.");
        },
        MessageKind::Custom(debug) => {
            out.text(" sent a custom event: ");
            out.push(DrawOp::Italic);
            out.push(DrawOp::LineStart);
            out.text(debug.as_str());
        },
        MessageKind::Other => {
            out.push(DrawOp::Wrap);
            out.text(joined("Other message ", m.debug.as_str()).as_str());
        },
    }
    proof {
        assert(out@ =~= old(out)@ + message_content_ops(*m));
    }
}

/// Draws a room message without what it answers to.
fn draw_plain_message(
    out: &mut Drawing,
    colors: &StringHashMap<Color>,
    sender: &str,
    m: &RoomMessage,
)
    ensures
        final(out)@ == old(out)@ + plain_message_ops(colors@, sender@, *m),
{
    write_user(out, sender, colors);
    out.push(DrawOp::Wrap);
    draw_message_content(out, m);
    proof {
        assert(out@ =~= old(out)@ + plain_message_ops(colors@, sender@, *m));
    }
}

/// The name of a step of a call.
pub open spec fn call_text(step: CallStep) -> Seq<char> {
    match step {
        CallStep::Answer => "Call answer from "@,
        CallStep::Invite => "Call invite from "@,
        CallStep::Hangup => "Call hangup from "@,
        CallStep::Candidates => "Call candidates from "@,
    }
}

/// The steps that draw a remark on a user in italics.
pub open spec fn remark_ops(
    colors: Map<Seq<char>, Color>,
    before: Seq<char>,
    user: Seq<char>,
    after: Seq<char>,
) -> Seq<OpView> {
    seq![
        OpView::Wrap,
        OpView::Italic,
        OpView::Text(before),
        user_op(colors, user),
        OpView::Text(after),
    ]
}

/// The steps that draw a message-like event other than a room message.
pub open spec fn other_message_ops(colors: Map<Seq<char>, Color>, event: Event) -> Seq<OpView> {
    let sender = event.sender@;
    match event.content {
        EventContent::Encrypted => remark_ops(
            colors,
            "*Unable to decrypt message from "@,
            sender,
            "*"@,
        ),
        EventContent::Call(step) => remark_ops(colors, call_text(step), sender, "."@),
        EventContent::VerificationStart => remark_ops(
            colors,
            "Ignoring verification start message from "@,
            sender,
            "."@,
        ),
        EventContent::Redaction(_, debug) => seq![
            OpView::Wrap,
            OpView::Text("Room Redaction "@ + debug@),
        ],
        EventContent::Sticker(body) => seq![
            user_op(colors, sender),
            OpView::Italic,
            OpView::Text(" sent a sticker ("@ + body@ + ")"@),
        ],
        EventContent::CustomMessage(debug) => seq![
            OpView::Text(" sent a message event: "@),
            OpView::Italic,
            OpView::LineStart,
            OpView::Text(debug@),
        ],
        EventContent::OtherMessage(debug) => seq![
            OpView::Wrap,
            OpView::Text("Other message event "@ + debug@),
        ],
        EventContent::Other(debug) => seq![OpView::Wrap, OpView::Text("Other event "@ + debug@)],
        _ => Seq::empty(),
    }
}

/// Draws a remark on a user in italics.
fn draw_remark(
    out: &mut Drawing,
    colors: &StringHashMap<Color>,
    before: &str,
    user: &str,
    after: &str,
)
    ensures
        final(out)@ == old(out)@ + remark_ops(colors@, before@, user@, after@),
{
    out.push(DrawOp::Wrap);
    out.push(DrawOp::Italic);
    out.text(before);
    write_user(out, user, colors);
    out.text(after);
    proof {
        assert(out@ =~= old(out)@ + remark_ops(colors@, before@, user@, after@));
    }
}

/// Draws a message-like event other than a room message.
fn draw_other_message(out: &mut Drawing, colors: &StringHashMap<Color>, event: &Event)
    ensures
        final(out)@ == old(out)@ + other_message_ops(colors@, *event),
{
    let sender = event.sender.as_str();
    match &event.content {
        EventContent::Encrypted => {
            draw_remark(out, colors, "*Unable to decrypt message from ", sender, "*");
        },
        EventContent::Call(step) => {
            let before = match step {
                CallStep::Answer => "Call answer from ",
                CallStep::Invite => "Call invite from ",
                CallStep::Hangup => "Call hangup from ",
                CallStep::Candidates => "Call candidates from ",
            };
            draw_remark(out, colors, before, sender, ".");
        },
        EventContent::VerificationStart => {
            draw_remark(out, colors, "Ignoring verification start message from ", sender, ".");
        },
        EventContent::Redaction(_, debug) => {
            out.push(DrawOp::Wrap);
            out.text(joined("Room Redaction ", debug.as_str()).as_str());
        },
        EventContent::Sticker(body) => {
            write_user(out, sender, colors);
            out.push(DrawOp::Italic);
            out.text(embedded(" sent a sticker (", body.as_str(), ")").as_str());
        },
        EventContent::CustomMessage(debug) => {
            out.text(" sent a message event: ");
            out.push(DrawOp::Italic);
            out.push(DrawOp::LineStart);
            out.text(debug.as_str());
        },
        EventContent::OtherMessage(debug) => {
            out.push(DrawOp::Wrap);
            out.text(joined("Other message event ", debug.as_str()).as_str());
        },
        EventContent::Other(debug) => {
            out.push(DrawOp::Wrap);
            out.text(joined("Other event ", debug.as_str()).as_str());
        },
        _ => {},
    }
    proof {
        assert(out@ =~= old(out)@ + other_message_ops(colors@, *event));
    }
}

/// What is said of a change of membership, if anything.
pub open spec fn membership_text(change: MembershipChange) -> Option<Seq<char>> {
    match change {
        MembershipChange::Unchanged => None,
        MembershipChange::Error => None,
        MembershipChange::Joined => Some(" joined."@),
        MembershipChange::Left => Some(" left."@),
        MembershipChange::Banned => Some(" was banned."@),
        MembershipChange::Unbanned => Some(" was unbanned."@),
        MembershipChange::Kicked => Some(" was kicked."@),
        MembershipChange::Invited => Some(" was invited."@),
        MembershipChange::KickedAndBanned => Some(" was kicked and banned."@),
        MembershipChange::InvitationRejected => Some(" rejected the invitation."@),
        MembershipChange::InvitationRevoked => Some("'s invitation was revoked."@),
        MembershipChange::ProfileChanged(displayname_changed) => if displayname_changed {
            Some(" changed their displayname."@)
        } else {
            Some(" had another state change"@)
        },
        MembershipChange::NotImplemented => None,
        MembershipChange::Other => Some(" had another state change"@),
    }
}

/// The steps that draw a remark behind the id of a user.
pub open spec fn said_ops(colors: Map<Seq<char>, Color>, user: Seq<char>, text: Seq<char>) -> Seq<
    OpView,
> {
    seq![user_op(colors, user), OpView::Text(text)]
}

/// The steps that draw what a state event changed.
pub open spec fn state_change_ops(
    colors: Map<Seq<char>, Color>,
    sender: Seq<char>,
    change: StateChange,
) -> Seq<OpView> {
    match change {
        StateChange::CanonicalAlias(Some(a)) => said_ops(
            colors,
            sender,
            " changed the canonical room alias to "@ + a@ + "."@,
        ),
        StateChange::CanonicalAlias(None) => said_ops(
            colors,
            sender,
            " has removed the room alias."@,
        ),
        StateChange::Create => said_ops(colors, sender, " created the room."@),
        StateChange::Aliases => Seq::empty(),
        StateChange::Avatar => Seq::empty(),
        StateChange::Encryption => said_ops(colors, sender, " enabled encryption."@),
        StateChange::GuestAccess(a) => said_ops(
            colors,
            sender,
            " changed the guest access to "@ + a@ + "."@,
        ),
        StateChange::HistoryVisibility(v) => said_ops(
            colors,
            sender,
            " changed the history visibility to "@ + v@ + "."@,
        ),
        StateChange::JoinRules(r) => said_ops(
            colors,
            sender,
            " changed the join rules to "@ + r@ + "."@,
        ),
        StateChange::Member(m, displayname) => match membership_text(m) {
            Some(s) => seq![
                OpView::Text(
                    match displayname {
                        Some(u) => u@,
                        None => "Unknown user"@,
                    },
                ),
                OpView::Text(s),
            ],
            None => Seq::empty(),
        },
        StateChange::Name(Some(n)) => said_ops(
            colors,
            sender,
            " changed the room name to '"@ + n@ + "'."@,
        ),
        StateChange::Name(None) => said_ops(colors, sender, " has unset the room name."@),
        StateChange::PinnedEvents(debug) => said_ops(
            colors,
            sender,
            " has pinned the following events "@ + debug@ + "."@,
        ),
        StateChange::ThirdPartyInvite(name) => said_ops(
            colors,
            sender,
            " has invited "@ + name@ + "."@,
        ),
        StateChange::Topic(topic) => said_ops(
            colors,
            sender,
            " has changed the topic to '"@ + topic@ + "'."@,
        ),
        StateChange::Other(debug) => seq![OpView::Text("Other state event "@ + debug@)],
    }
}

/// The steps that draw a state event.
pub open spec fn state_ops(
    colors: Map<Seq<char>, Color>,
    sender: Seq<char>,
    change: StateChange,
) -> Seq<OpView> {
    seq![OpView::Wrap, OpView::Italic] + state_change_ops(colors, sender, change)
}

/// What is said of a change of membership, if anything.
fn membership_message(change: MembershipChange) -> (res: Option<&'static str>)
    ensures
        match res {
            Some(s) => membership_text(change) == Some(s@),
            None => membership_text(change) is None,
        },
{
    match change {
        MembershipChange::Unchanged => None,
        MembershipChange::Error => None,
        MembershipChange::Joined => Some(" joined."),
        MembershipChange::Left => Some(" left."),
        MembershipChange::Banned => Some(" was banned."),
        MembershipChange::Unbanned => Some(" was unbanned."),
        MembershipChange::Kicked => Some(" was kicked."),
        MembershipChange::Invited => Some(" was invited."),
        MembershipChange::KickedAndBanned => Some(" was kicked and banned."),
        MembershipChange::InvitationRejected => Some(" rejected the invitation."),
        MembershipChange::InvitationRevoked => Some("'s invitation was revoked."),
        MembershipChange::ProfileChanged(displayname_changed) => {
            if displayname_changed {
                Some(" changed their displayname.")
            } else {
                Some(" had another state change")
            }
        },
        MembershipChange::NotImplemented => None,
        MembershipChange::Other => Some(" had another state change"),
    }
}

/// Draws a remark behind the id of a user.
fn draw_said(out: &mut Drawing, colors: &StringHashMap<Color>, user: &str, text: &str)
    ensures
        final(out)@ == old(out)@ + said_ops(colors@, user@, text@),
{
    write_user(out, user, colors);
    out.text(text);
    proof {
        assert(out@ =~= old(out)@ + said_ops(colors@, user@, text@));
    }
}

/// Draws a state event.
fn draw_state(
    out: &mut Drawing,
    colors: &StringHashMap<Color>,
    sender: &str,
    change: &StateChange,
)
    ensures
        final(out)@ == old(out)@ + state_ops(colors@, sender@, *change),
{
    out.push(DrawOp::Wrap);
    out.push(DrawOp::Italic);
    let ghost start = out@;
    match change {
        StateChange::CanonicalAlias(Some(a)) => {
            let s = embedded(" changed the canonical room alias to ", a.as_str(), ".");
            draw_said(out, colors, sender, s.as_str());
        },
        StateChange::CanonicalAlias(None) => {
            draw_said(out, colors, sender, " has removed the room alias.");
        },
        StateChange::Create => {
            draw_said(out, colors, sender, " created the room.");
        },
        StateChange::Aliases => {},
        StateChange::Avatar => {},
        StateChange::Encryption => {
            draw_said(out, colors, sender, " enabled encryption.");
        },
        StateChange::GuestAccess(a) => {
            let s = embedded(" changed the guest access to ", a.as_str(), ".");
            draw_said(out, colors, sender, s.as_str());
        },
        StateChange::HistoryVisibility(v) => {
            let s = embedded(" changed the history visibility to ", v.as_str(), ".");
            draw_said(out, colors, sender, s.as_str());
        },
        StateChange::JoinRules(r) => {
            let s = embedded(" changed the join rules to ", r.as_str(), ".");
            draw_said(out, colors, sender, s.as_str());
        },
        StateChange::Member(m, displayname) => {
            if let Some(s) = membership_message(*m) {
                match displayname {
                    Some(u) => out.text(u.as_str()),
                    None => out.text("Unknown user"),
                }
                out.text(s);
            }
        },
        StateChange::Name(Some(n)) => {
            let s = embedded(" changed the room name to '", n.as_str(), "'.");
            draw_said(out, colors, sender, s.as_str());
        },
        StateChange::Name(None) => {
            draw_said(out, colors, sender, " has unset the room name.");
        },
        StateChange::PinnedEvents(debug) => {
            let s = embedded(" has pinned the following events ", debug.as_str(), ".");
            draw_said(out, colors, sender, s.as_str());
        },
        StateChange::ThirdPartyInvite(name) => {
            let s = embedded(" has invited ", name.as_str(), ".");
            draw_said(out, colors, sender, s.as_str());
        },
        StateChange::Topic(topic) => {
            let s = embedded(" has changed the topic to '", topic.as_str(), "'.");
            draw_said(out, colors, sender, s.as_str());
        },
        StateChange::Other(debug) => {
            out.text(joined("Other state event ", debug.as_str()).as_str());
        },
    }
    proof {
        assert(out@ =~= start + state_change_ops(colors@, sender@, *change));
        assert(out@ =~= old(out)@ + state_ops(colors@, sender@, *change));
    }
}

/// Whether an event can be drawn. Reactions are shown with the event that they belong to, and a
/// change of membership that makes no sense cannot be told.
pub open spec fn is_drawable(event: Event) -> bool {
    match event.content {
        EventContent::Reaction(_, _) => false,
        EventContent::State(StateChange::Member(m, _)) => !(m is Error),
        _ => true,
    }
}

/// The steps that draw an event without what it answers to.
pub open spec fn plain_event_ops(colors: Map<Seq<char>, Color>, event: Event) -> Seq<OpView> {
    seq![OpView::SaveStyle] + (match event.content {
        EventContent::Message(m) => plain_message_ops(colors, event.sender@, m),
        EventContent::State(change) => state_ops(colors, event.sender@, change),
        _ => other_message_ops(colors, event),
    }) + seq![OpView::RestoreStyle]
}

/// The steps that draw a remark in italics and return to the style before.
pub open spec fn note_ops(text: Seq<char>) -> Seq<OpView> {
    seq![OpView::SaveStyle, OpView::Italic, OpView::Text(text), OpView::RestoreStyle]
}

/// The steps that draw a removed message.
pub open spec fn deleted_ops(colors: Map<Seq<char>, Color>, event: Event) -> Seq<OpView> {
    seq![
        OpView::SaveStyle,
        user_op(colors, event.sender@),
        OpView::Italic,
        OpView::Text(" deleted message"@),
        OpView::RestoreStyle,
    ]
}

/// The steps that draw an entry of the timeline without what it answers to.
pub open spec fn plain_entry_ops(colors: Map<Seq<char>, Color>, entry: EntryView) -> Seq<OpView> {
    match entry {
        EntryView::Simple(m) => plain_event_ops(colors, m),
        EntryView::Deleted(m) => deleted_ops(colors, m),
        EntryView::Edited { versions, .. } => plain_event_ops(colors, versions.last()) + note_ops(
            " (edited)"@,
        ),
    }
}

/// Whether what a preview shows of an entry can be drawn.
pub open spec fn is_preview_drawable(entry: EntryView) -> bool {
    &&& entry.wf()
    &&& match entry {
        EntryView::Simple(m) => is_drawable(m),
        EntryView::Deleted(_) => true,
        EntryView::Edited { versions, .. } => is_drawable(versions.last()),
    }
}

/// The steps that draw a preview: a text in front, and an event without what it answers to.
pub open spec fn preview_ops(prefix: Seq<char>, ops: Seq<OpView>) -> Seq<OpView> {
    seq![OpView::PreviewStart, OpView::Text(prefix)] + ops + seq![OpView::PreviewEnd]
}

/// The message that a message is an answer to, by the id of either version of it.
pub open spec fn answered_id(cache: CacheView, event_id: Seq<char>) -> Option<Seq<char>> {
    match cache.entry_from_id(event_id) {
        Some(entry) => match entry.original().content {
            EventContent::Message(m) => match m.relates_to {
                Relation::Reply(id) => Some(id@),
                _ => None,
            },
            _ => None,
        },
        None => None,
    }
}

/// The steps that draw what a message is an answer to, as far as that is known.
pub open spec fn answered_ops(
    colors: Map<Seq<char>, Color>,
    cache: CacheView,
    event_id: Seq<char>,
) -> Seq<OpView> {
    match answered_id(cache, event_id) {
        Some(id) => match cache.entry_from_id(id) {
            Some(entry) => preview_ops(REPLY_PREFIX@, plain_entry_ops(colors, entry)).push(
                OpView::WrapLine,
            ),
            None => Seq::empty(),
        },
        None => Seq::empty(),
    }
}

/// The steps that draw a room message.
pub open spec fn message_ops(
    room: RoomState,
    event_id: Seq<char>,
    sender: Seq<char>,
    m: RoomMessage,
    simplified: bool,
) -> Seq<OpView> {
    let colors = room.user_colors@;
    let answered = if simplified {
        Seq::empty()
    } else {
        answered_ops(colors, room.messages@, event_id)
    };
    answered + plain_message_ops(colors, sender, m)
}

/// The steps that draw an event.
pub open spec fn event_ops(room: RoomState, event: Event, simplified: bool) -> Seq<OpView> {
    seq![OpView::SaveStyle] + (match event.content {
        EventContent::Message(m) => message_ops(
            room,
            event.event_id@,
            event.sender@,
            m,
            simplified,
        ),
        EventContent::State(change) => state_ops(room.user_colors@, event.sender@, change),
        _ => other_message_ops(room.user_colors@, event),
    }) + seq![OpView::RestoreStyle]
}

/// The steps that draw an entry of the timeline.
pub open spec fn entry_ops(room: RoomState, entry: EntryView, simplified: bool) -> Seq<OpView> {
    match entry {
        EntryView::Simple(m) => event_ops(room, m, simplified),
        EntryView::Deleted(m) => deleted_ops(room.user_colors@, m),
        EntryView::Edited { versions, .. } => event_ops(room, versions.last(), simplified)
            + note_ops(" (edited)"@),
    }
}

/// The steps that draw a version of an edited message on a line of its own.
pub open spec fn version_ops(room: RoomState, version: Event) -> Seq<OpView> {
    seq![OpView::SaveStyle, OpView::SaveLineStart, OpView::WrapLine] + time_ops(version.timestamp)
        + event_ops(room, version, true) + seq![OpView::RestoreLineStart, OpView::RestoreStyle]
}

/// The steps that draw the versions of an edited message.
pub open spec fn versions_ops(room: RoomState, versions: Seq<Event>) -> Seq<OpView>
    decreases versions.len(),
{
    if versions.len() == 0 {
        Seq::empty()
    } else {
        versions_ops(room, versions.drop_last()) + version_ops(room, versions.last())
    }
}

/// The steps that draw all that is known of an entry of the timeline.
pub open spec fn detailed_ops(room: RoomState, entry: EntryView, simplified: bool) -> Seq<OpView> {
    match entry {
        EntryView::Simple(m) => event_ops(room, m, simplified),
        EntryView::Deleted(m) => event_ops(room, m, simplified) + note_ops(" (deleted)"@),
        EntryView::Edited { original, versions } => seq![
            OpView::SaveStyle,
            OpView::SaveLineStart,
        ] + event_ops(room, original, simplified) + seq![
            OpView::RestoreLineStart,
            OpView::RestoreStyle,
        ] + versions_ops(room, versions),
    }
}

/// Whether a room message can be drawn: what it answers to has to be drawable, where it is shown.
pub open spec fn message_drawable(room: RoomState, event_id: Seq<char>, simplified: bool) -> bool {
    &&& room.messages.wf()
    &&& !simplified ==> (answered_id(room.messages@, event_id) matches Some(id)
        ==> (room.messages@.entry_from_id(id) matches Some(entry) ==> is_preview_drawable(entry)))
}

/// Whether an event can be drawn in a room.
pub open spec fn event_drawable(room: RoomState, event: Event, simplified: bool) -> bool {
    &&& is_drawable(event)
    &&& message_drawable(room, event.event_id@, simplified || !(event.content is Message))
}

/// Whether an entry of the timeline can be drawn in a room.
pub open spec fn entry_drawable(room: RoomState, entry: EntryView, simplified: bool) -> bool {
    &&& room.messages.wf()
    &&& entry.wf()
    &&& match entry {
        EntryView::Simple(m) => event_drawable(room, m, simplified),
        EntryView::Deleted(_) => true,
        EntryView::Edited { versions, .. } => event_drawable(room, versions.last(), simplified),
    }
}

/// Whether all that is known of an entry of the timeline can be drawn in a room.
pub open spec fn detailed_drawable(room: RoomState, entry: EntryView, simplified: bool) -> bool {
    &&& room.messages.wf()
    &&& event_drawable(room, entry.original(), simplified)
    &&& entry matches EntryView::Edited { versions, .. } ==> forall|i: int|
        0 <= i < versions.len() ==> event_drawable(room, #[trigger] versions[i], true)
}

/// What can be drawn.
pub trait DrawEvent {
    /// Whether it can be drawn.
    spec fn drawable(&self, room: RoomState, simplified: bool) -> bool;

    /// The steps that draw it.
    spec fn drawn(&self, room: RoomState, simplified: bool) -> Seq<OpView>;

    /// Draws it. In a simplified drawing nothing is shown of what a message answers to.
    fn draw(&self, room_state: &RoomState, out: &mut Drawing, simplified: bool)
        requires
            self.drawable(*room_state, simplified),
        ensures
            final(out)@ == old(out)@ + self.drawn(*room_state, simplified),
    ;
}

/// Draws a remark in italics and returns to the style before.
fn draw_note(out: &mut Drawing, text: &str)
    ensures
        final(out)@ == old(out)@ + note_ops(text@),
{
    out.push(DrawOp::SaveStyle);
    out.push(DrawOp::Italic);
    out.text(text);
    out.push(DrawOp::RestoreStyle);
    proof {
        assert(out@ =~= old(out)@ + note_ops(text@));
    }
}

/// Draws a removed message.
fn draw_deleted(out: &mut Drawing, colors: &StringHashMap<Color>, event: &Event)
    ensures
        final(out)@ == old(out)@ + deleted_ops(colors@, *event),
{
    out.push(DrawOp::SaveStyle);
    write_user(out, event.sender.as_str(), colors);
    out.push(DrawOp::Italic);
    out.text(" deleted message");
    out.push(DrawOp::RestoreStyle);
    proof {
        assert(out@ =~= old(out)@ + deleted_ops(colors@, *event));
    }
}

/// Draws an event without what it answers to.
fn draw_plain_event(out: &mut Drawing, colors: &StringHashMap<Color>, event: &Event)
    ensures
        final(out)@ == old(out)@ + plain_event_ops(colors@, *event),
{
    out.push(DrawOp::SaveStyle);
    match &event.content {
        EventContent::Message(m) => draw_plain_message(out, colors, event.sender.as_str(), m),
        EventContent::State(change) => draw_state(out, colors, event.sender.as_str(), change),
        _ => draw_other_message(out, colors, event),
    }
    out.push(DrawOp::RestoreStyle);
    proof {
        assert(out@ =~= old(out)@ + plain_event_ops(colors@, *event));
    }
}

/// Draws an entry of the timeline without what it answers to.
fn draw_plain_entry(out: &mut Drawing, colors: &StringHashMap<Color>, entry: &TimelineEntry)
    requires
        entry@.wf(),
    ensures
        final(out)@ == old(out)@ + plain_entry_ops(colors@, entry@),
{
    match *entry {
        TimelineEntry::Simple(m) => draw_plain_event(out, colors, m),
        TimelineEntry::Deleted(m) => draw_deleted(out, colors, m),
        TimelineEntry::Edited { versions, .. } => {
            draw_plain_event(out, colors, &versions[versions.len() - 1]);
            draw_note(out, " (edited)");
            proof {
                assert(out@ =~= old(out)@ + plain_entry_ops(colors@, entry@));
            }
        },
    }
}

/// Draws what a message is an answer to.
fn draw_answered(out: &mut Drawing, room_state: &RoomState, event_id: &str)
    requires
        room_state.messages.wf(),
    ensures
        final(out)@ == old(out)@ + answered_ops(
            room_state.user_colors@,
            room_state.messages@,
            event_id@,
        ),
{
    if let Some(entry) = room_state.messages.message_from_id(event_id) {
        if let Some(m) = entry.original().room_message() {
            if let Relation::Reply(id) = &m.relates_to {
                if let Some(rel) = room_state.messages.message_from_id(id.as_str()) {
                    out.push(DrawOp::PreviewStart);
                    out.text(REPLY_PREFIX);
                    draw_plain_entry(out, &room_state.user_colors, &rel);
                    out.push(DrawOp::PreviewEnd);
                    out.push(DrawOp::WrapLine);
                }
            }
        }
    }
    proof {
        assert(out@ =~= old(out)@ + answered_ops(
            room_state.user_colors@,
            room_state.messages@,
            event_id@,
        ));
    }
}

/// Draws a room message.
fn draw_message(
    out: &mut Drawing,
    room_state: &RoomState,
    event_id: &str,
    sender: &str,
    m: &RoomMessage,
    simplified: bool,
)
    requires
        room_state.messages.wf(),
    ensures
        final(out)@ == old(out)@ + message_ops(*room_state, event_id@, sender@, *m, simplified),
{
    if !simplified {
        draw_answered(out, room_state, event_id);
    }
    draw_plain_message(out, &room_state.user_colors, sender, m);
    proof {
        assert(out@ =~= old(out)@ + message_ops(
            *room_state,
            event_id@,
            sender@,
            *m,
            simplified,
        ));
    }
}

impl DrawEvent for MessageEvent {
    open spec fn drawable(&self, room: RoomState, simplified: bool) -> bool {
        message_drawable(room, self.event_id@, simplified)
    }

    open spec fn drawn(&self, room: RoomState, simplified: bool) -> Seq<OpView> {
        message_ops(room, self.event_id@, self.sender@, self.message, simplified)
    }

    fn draw(&self, room_state: &RoomState, out: &mut Drawing, simplified: bool) {
        draw_message(
            out,
            room_state,
            self.event_id.as_str(),
            self.sender.as_str(),
            &self.message,
            simplified,
        );
    }
}

impl DrawEvent for Event {
    open spec fn drawable(&self, room: RoomState, simplified: bool) -> bool {
        event_drawable(room, *self, simplified)
    }

    open spec fn drawn(&self, room: RoomState, simplified: bool) -> Seq<OpView> {
        event_ops(room, *self, simplified)
    }

    fn draw(&self, room_state: &RoomState, out: &mut Drawing, simplified: bool) {
        out.push(DrawOp::SaveStyle);
        match &self.content {
            EventContent::Message(m) => draw_message(
                out,
                room_state,
                self.event_id.as_str(),
                self.sender.as_str(),
                m,
                simplified,
            ),
            EventContent::State(change) => draw_state(
                out,
                &room_state.user_colors,
                self.sender.as_str(),
                change,
            ),
            _ => draw_other_message(out, &room_state.user_colors, self),
        }
        out.push(DrawOp::RestoreStyle);
        proof {
            assert(out@ =~= old(out)@ + event_ops(*room_state, *self, simplified));
        }
    }
}

impl<'a> DrawEvent for TimelineEntry<'a> {
    open spec fn drawable(&self, room: RoomState, simplified: bool) -> bool {
        entry_drawable(room, self@, simplified)
    }

    open spec fn drawn(&self, room: RoomState, simplified: bool) -> Seq<OpView> {
        entry_ops(room, self@, simplified)
    }

    fn draw(&self, room_state: &RoomState, out: &mut Drawing, simplified: bool) {
        match *self {
            TimelineEntry::Simple(m) => m.draw(room_state, out, simplified),
            TimelineEntry::Deleted(m) => draw_deleted(out, &room_state.user_colors, m),
            TimelineEntry::Edited { versions, .. } => {
                let last = &versions[versions.len() - 1];
                last.draw(room_state, out, simplified);
                draw_note(out, " (edited)");
                proof {
                    assert(out@ =~= old(out)@ + entry_ops(*room_state, self@, simplified));
                }
            },
        }
    }
}

/// An entry of the timeline with all that is known of it.
pub struct Detailed<'a>(pub TimelineEntry<'a>);

impl<'a> DrawEvent for Detailed<'a> {
    open spec fn drawable(&self, room: RoomState, simplified: bool) -> bool {
        detailed_drawable(room, self.0@, simplified)
    }

    open spec fn drawn(&self, room: RoomState, simplified: bool) -> Seq<OpView> {
        detailed_ops(room, self.0@, simplified)
    }

    fn draw(&self, room_state: &RoomState, out: &mut Drawing, simplified: bool) {
        let ghost start = out@;
        match self.0 {
            TimelineEntry::Simple(m) => m.draw(room_state, out, simplified),
            TimelineEntry::Deleted(m) => {
                m.draw(room_state, out, simplified);
                draw_note(out, " (deleted)");
                proof {
                    assert(out@ =~= start + detailed_ops(*room_state, self.0@, simplified));
                }
            },
            TimelineEntry::Edited { original, versions } => {
                out.push(DrawOp::SaveStyle);
                out.push(DrawOp::SaveLineStart);
                original.draw(room_state, out, simplified);
                out.push(DrawOp::RestoreLineStart);
                out.push(DrawOp::RestoreStyle);
                let ghost middle = out@;
                proof {
                    assert(middle =~= start + (seq![OpView::SaveStyle, OpView::SaveLineStart]
                        + event_ops(*room_state, *original, simplified) + seq![
                        OpView::RestoreLineStart,
                        OpView::RestoreStyle,
                    ]));
                }
                let mut i: usize = 0;
                while i < versions.len()
                    invariant
                        i <= versions@.len(),
                        forall|j: int|
                            0 <= j < versions@.len() ==> event_drawable(
                                *room_state,
                                #[trigger] versions@[j],
                                true,
                            ),
                        out@ == middle + versions_ops(*room_state, versions@.take(i as int)),
                    decreases versions@.len() - i,
                {
                    let ghost before = out@;
                    let r = &versions[i];
                    out.push(DrawOp::SaveStyle);
                    out.push(DrawOp::SaveLineStart);
                    out.push(DrawOp::WrapLine);
                    write_time(out, r.timestamp);
                    r.draw(room_state, out, true);
                    out.push(DrawOp::RestoreLineStart);
                    out.push(DrawOp::RestoreStyle);
                    proof {
                        assert(out@ =~= before + version_ops(*room_state, *r));
                        assert(versions@.take(i + 1).drop_last() =~= versions@.take(i as int));
                        assert(versions@.take(i + 1).last() == *r);
                        assert(out@ =~= middle + versions_ops(
                            *room_state,
                            versions@.take(i + 1),
                        ));
                    }
                    i = i + 1;
                }
                proof {
                    assert(versions@.take(i as int) =~= versions@);
                    assert(out@ =~= start + detailed_ops(*room_state, self.0@, simplified));
                }
            },
        }
    }
}

/// Draws a preview: a text in front, and something without what it answers to, in a single line.
pub fn draw_event_preview<D: DrawEvent>(
    prefix: &str,
    event: &D,
    room_state: &RoomState,
    out: &mut Drawing,
)
    requires
        event.drawable(*room_state, true),
    ensures
        final(out)@ == old(out)@ + preview_ops(prefix@, event.drawn(*room_state, true)),
{
    out.push(DrawOp::PreviewStart);
    out.text(prefix);
    event.draw(room_state, out, true);
    out.push(DrawOp::PreviewEnd);
    proof {
        assert(out@ =~= old(out)@ + preview_ops(prefix@, event.drawn(*room_state, true)));
    }
}

/// Whether a preview did not fit: the cursor left the line, or reached its end.
pub fn preview_overflows(row: i32, column: i32, width: i32) -> (res: bool)
    ensures
        res == (row != 0 || column >= width),
{
    row != 0 || column >= width
}

/// The steps that draw the senders of reactions, in a detailed drawing.
pub open spec fn sender_ops(colors: Map<Seq<char>, Color>, events: Seq<Reaction>) -> Seq<OpView>
    decreases events.len(),
{
    if events.len() == 0 {
        Seq::empty()
    } else {
        sender_ops(colors, events.drop_last()) + seq![
            user_op(colors, events.last().sender@),
            OpView::Text(" "@),
        ]
    }
}

/// The steps that draw the reactions with one key. A detailed drawing names the senders, any other
/// one counts them.
pub open spec fn group_ops(
    colors: Map<Seq<char>, Color>,
    group: GroupView,
    detailed: bool,
) -> Seq<OpView> {
    if detailed {
        seq![OpView::Text("\n"@)] + sender_ops(colors, group.events) + seq![
            OpView::Text(group.key),
        ]
    } else {
        seq![OpView::Text(group.key)] + (if group.events.len() > 1 {
            note_ops(" "@ + decimal(group.events.len()))
        } else {
            Seq::empty()
        }) + seq![OpView::Text("  "@)]
    }
}

/// The steps that draw reactions.
pub open spec fn groups_ops(
    colors: Map<Seq<char>, Color>,
    groups: Seq<GroupView>,
    detailed: bool,
) -> Seq<OpView>
    decreases groups.len(),
{
    if groups.len() == 0 {
        Seq::empty()
    } else {
        groups_ops(colors, groups.drop_last(), detailed) + group_ops(
            colors,
            groups.last(),
            detailed,
        )
    }
}

/// The steps that draw an entry of the timeline with its time and its reactions.
pub open spec fn tui_event_ops(room: RoomState, entry: EntryView, detailed: bool) -> Seq<OpView> {
    let id = entry.original().event_id@;
    time_ops(entry.original().timestamp).push(OpView::LineStart) + (if detailed {
        detailed_ops(room, entry, false)
    } else {
        entry_ops(room, entry, false)
    }) + (if room.messages@.reactions.contains_key(id) {
        note_ops("\nReactions: "@) + groups_ops(
            room.user_colors@,
            room.messages@.reactions[id],
            detailed,
        )
    } else {
        Seq::empty()
    })
}

/// Whether an entry of the timeline can be drawn with its time and its reactions.
pub open spec fn tui_event_drawable(room: RoomState, entry: EntryView, detailed: bool) -> bool {
    if detailed {
        detailed_drawable(room, entry, false)
    } else {
        entry_drawable(room, entry, false)
    }
}

/// An entry of the timeline that is to be drawn.
pub struct TuiEvent<'a> {
    pub event: TimelineEntry<'a>,
    pub room_state: &'a RoomState,
    pub detailed: bool,
}

/// Draws the senders of reactions.
fn draw_senders(out: &mut Drawing, colors: &StringHashMap<Color>, events: &Vec<Reaction>)
    ensures
        final(out)@ == old(out)@ + sender_ops(colors@, events@),
{
    let ghost start = out@;
    let mut i: usize = 0;
    while i < events.len()
        invariant
            i <= events@.len(),
            out@ == start + sender_ops(colors@, events@.take(i as int)),
        decreases events@.len() - i,
    {
        proof {
            assert(events@.take(i + 1).drop_last() =~= events@.take(i as int));
        }
        write_user(out, events[i].sender.as_str(), colors);
        out.text(" ");
        proof {
            assert(out@ =~= start + sender_ops(colors@, events@.take(i + 1)));
        }
        i = i + 1;
    }
    proof {
        assert(events@.take(i as int) =~= events@);
    }
}

impl<'a> TuiEvent<'a> {
    /// The steps that draw the entry.
    pub fn draw_with_cursor(&self) -> (res: Drawing)
        requires
            self.event@.wf(),
            tui_event_drawable(*self.room_state, self.event@, self.detailed),
        ensures
            res@ == tui_event_ops(*self.room_state, self.event@, self.detailed),
    {
        let mut out = Drawing::new();
        let colors = &self.room_state.user_colors;
        write_time(&mut out, self.event.original().timestamp);
        out.push(DrawOp::LineStart);
        if self.detailed {
            Detailed(self.event).draw(self.room_state, &mut out, false);
        } else {
            self.event.draw(self.room_state, &mut out, false);
        }
        let ghost start = out@;
        if let Some(reactions) = self.room_state.messages.reactions(self.event.event_id()) {
            draw_note(&mut out, "\nReactions: ");
            let ghost middle = out@;
            let mut i: usize = 0;
            while i < reactions.groups.len()
                invariant
                    i <= reactions.groups@.len(),
                    *colors == self.room_state.user_colors,
                    out@ == middle + groups_ops(
                        colors@,
                        reactions@.take(i as int),
                        self.detailed,
                    ),
                decreases reactions.groups@.len() - i,
            {
                let ghost before = out@;
                let group = &reactions.groups[i];
                let ghost view = reactions@[i as int];
                if self.detailed {
                    out.text("\n");
                    draw_senders(&mut out, colors, &group.events);
                    out.text(group.key.as_str());
                } else {
                    out.text(group.key.as_str());
                    let n: usize = group.events.len();
                    if n > 1 {
                        draw_note(
                            &mut out,
                            joined(" ", text_of_decimal(n as u64).as_str()).as_str(),
                        );
                    }
                    out.text("  ");
                }
                proof {
                    assert(out@ =~= before + group_ops(colors@, view, self.detailed));
                    assert(reactions@.take(i + 1).drop_last() =~= reactions@.take(i as int));
                    assert(reactions@.take(i + 1).last() == view);
                    assert(out@ =~= middle + groups_ops(
                        colors@,
                        reactions@.take(i + 1),
                        self.detailed,
                    ));
                }
                i = i + 1;
            }
            proof {
                assert(reactions@.take(i as int) =~= reactions@);
            }
        }
        proof {
            assert(out@ =~= tui_event_ops(*self.room_state, self.event@, self.detailed));
        }
        out
    }
}

/// Whether an event can be drawn.
fn check_drawable(event: &Event) -> (res: bool)
    ensures
        res == is_drawable(*event),
{
    match &event.content {
        EventContent::Reaction(_, _) => false,
        EventContent::State(StateChange::Member(m, _)) => !matches!(*m, MembershipChange::Error),
        _ => true,
    }
}

/// Whether what a message answers to can be drawn.
fn check_answered(room_state: &RoomState, event_id: &str) -> (res: bool)
    requires
        room_state.messages.wf(),
    ensures
        res == message_drawable(*room_state, event_id@, false),
{
    if let Some(entry) = room_state.messages.message_from_id(event_id) {
        if let Some(m) = entry.original().room_message() {
            if let Relation::Reply(id) = &m.relates_to {
                if let Some(rel) = room_state.messages.message_from_id(id.as_str()) {
                    return match rel {
                        TimelineEntry::Simple(e) => check_drawable(e),
                        TimelineEntry::Deleted(_) => true,
                        TimelineEntry::Edited { versions, .. } => check_drawable(
                            &versions[versions.len() - 1],
                        ),
                    };
                }
            }
        }
    }
    true
}

/// Whether an event can be drawn in a room.
fn check_event(room_state: &RoomState, event: &Event, simplified: bool) -> (res: bool)
    requires
        room_state.messages.wf(),
    ensures
        res == event_drawable(*room_state, *event, simplified),
{
    check_drawable(event) && (simplified || event.room_message().is_none() || check_answered(
        room_state,
        event.event_id.as_str(),
    ))
}

impl<'a> TuiEvent<'a> {
    /// Whether the entry can be drawn.
    pub fn can_be_drawn(&self) -> (res: bool)
        requires
            self.event@.wf(),
            self.room_state.messages.wf(),
        ensures
            res == tui_event_drawable(*self.room_state, self.event@, self.detailed),
    {
        let room = self.room_state;
        if self.detailed {
            if !check_event(room, self.event.original(), false) {
                return false;
            }
            if let TimelineEntry::Edited { versions, .. } = self.event {
                let mut i: usize = 0;
                while i < versions.len()
                    invariant
                        i <= versions@.len(),
                        room.messages.wf(),
                        forall|j: int|
                            0 <= j < i ==> event_drawable(*room, #[trigger] versions@[j], true),
                        *room == *self.room_state,
                        self.detailed,
                        self.event@ matches EntryView::Edited { versions: v, .. } && v
                            == versions@,
                    decreases versions@.len() - i,
                {
                    if !check_event(room, &versions[i], true) {
                        return false;
                    }
                    i = i + 1;
                }
            }
            true
        } else {
            match self.event {
                TimelineEntry::Simple(m) => check_event(room, m, false),
                TimelineEntry::Deleted(_) => true,
                TimelineEntry::Edited { versions, .. } => check_event(
                    room,
                    &versions[versions.len() - 1],
                    false,
                ),
            }
        }
    }
}

/// By how much a step changes the number of styles that are remembered.
pub open spec fn style_step(op: OpView) -> int {
    match op {
        OpView::SaveStyle => 1,
        OpView::RestoreStyle => -1,
        _ => 0,
    }
}

/// How many styles are remembered after some steps and were not before.
pub open spec fn styles_kept(ops: Seq<OpView>) -> int
    decreases ops.len(),
{
    if ops.len() == 0 {
        0
    } else {
        styles_kept(ops.drop_last()) + style_step(ops.last())
    }
}

/// Whether steps leave the style as it was, where some styles are remembered already: each style
/// that is remembered is returned to, none is returned to that was not remembered, and the style
/// changes only while one is remembered.
pub open spec fn keeps_style(ops: Seq<OpView>, outer: int) -> bool {
    &&& styles_kept(ops) == 0
    &&& forall|i: int| 0 <= i <= ops.len() ==> styles_kept(#[trigger] ops.take(i)) >= 0
    &&& forall|i: int|
        0 <= i < ops.len() && (ops[i] is Italic || ops[i] is Wrap) ==> outer + styles_kept(
            #[trigger] ops.take(i),
        ) >= 1
}

proof fn lemma_styles_join(a: Seq<OpView>, b: Seq<OpView>)
    ensures
        styles_kept(a + b) == styles_kept(a) + styles_kept(b),
    decreases b.len(),
{
    if b.len() == 0 {
        assert(a + b =~= a);
    } else {
        lemma_styles_join(a, b.drop_last());
        assert((a + b).drop_last() =~= a + b.drop_last());
        assert((a + b).last() == b.last());
    }
}

proof fn lemma_keeps_join(a: Seq<OpView>, b: Seq<OpView>, outer: int)
    requires
        keeps_style(a, outer),
        keeps_style(b, outer),
    ensures
        keeps_style(a + b, outer),
{
    let ab = a + b;
    lemma_styles_join(a, b);
    assert forall|i: int| 0 <= i <= ab.len() implies styles_kept(#[trigger] ab.take(i)) >= 0 && (i
        < ab.len() && (ab[i] is Italic || ab[i] is Wrap) ==> outer + styles_kept(ab.take(i))
        >= 1) by {
        if i < a.len() {
            assert(ab.take(i) =~= a.take(i));
        } else {
            assert(ab.take(i) =~= a + b.take(i - a.len()));
            lemma_styles_join(a, b.take(i - a.len()));
            if i < ab.len() {
                assert(ab[i] == b[i - a.len()]);
            }
        }
    }
}

proof fn lemma_keeps_within(a: Seq<OpView>)
    requires
        keeps_style(a, 1),
    ensures
        keeps_style(seq![OpView::SaveStyle] + a + seq![OpView::RestoreStyle], 0),
{
    let first = seq![OpView::SaveStyle];
    let last = seq![OpView::RestoreStyle];
    let all = first + a + last;
    reveal_with_fuel(styles_kept, 3);
    assert(first.drop_last().len() == 0);
    assert(last.drop_last().len() == 0);
    assert(styles_kept(first) == 1);
    assert(styles_kept(last) == -1);
    lemma_styles_join(first, a);
    lemma_styles_join(first + a, last);
    assert forall|i: int| 0 <= i <= all.len() implies styles_kept(#[trigger] all.take(i)) >= 0 && (i
        < all.len() && (all[i] is Italic || all[i] is Wrap) ==> styles_kept(all.take(i)) >= 1) by {
        if i == 0 {
            assert(all.take(0).len() == 0);
            assert(all[0] == OpView::SaveStyle);
        } else if i <= a.len() + 1 {
            assert(all.take(i) =~= first + a.take(i - 1));
            lemma_styles_join(first, a.take(i - 1));
            if i < a.len() + 1 {
                assert(all[i] == a[i - 1]);
            } else {
                assert(all[i] == OpView::RestoreStyle);
            }
        } else {
            assert(all.take(i) =~= all);
        }
    }
}

proof fn lemma_keeps_plain(a: Seq<OpView>, outer: int)
    requires
        forall|i: int|
            0 <= i < a.len() ==> !((#[trigger] a[i]) is SaveStyle) && !(a[i] is RestoreStyle) && (
            a[i] is Italic || a[i] is Wrap ==> outer >= 1),
    ensures
        keeps_style(a, outer),
    decreases a.len(),
{
    if a.len() > 0 {
        let front = a.drop_last();
        assert forall|i: int| 0 <= i < front.len() implies !((#[trigger] front[i]) is SaveStyle)
            && !(front[i] is RestoreStyle) && (front[i] is Italic || front[i] is Wrap ==> outer
            >= 1) by {
            assert(front[i] == a[i]);
        }
        lemma_keeps_plain(front, outer);
        assert(a.last() == a[a.len() - 1]);
        assert forall|i: int| 0 <= i <= a.len() implies styles_kept(#[trigger] a.take(i)) >= 0 && (i
            < a.len() && (a[i] is Italic || a[i] is Wrap) ==> outer + styles_kept(a.take(i))
            >= 1) by {
            if i == a.len() {
                assert(a.take(i) =~= a);
            } else {
                assert(a.take(i) =~= front.take(i));
            }
        }
    } else {
        assert(a.take(0) =~= a);
    }
}

proof fn lemma_keeps_more(a: Seq<OpView>)
    requires
        keeps_style(a, 0),
    ensures
        keeps_style(a, 1),
{
}

proof fn lemma_note_keeps_style(text: Seq<char>)
    ensures
        keeps_style(note_ops(text), 0),
{
    let inner = seq![OpView::Italic, OpView::Text(text)];
    lemma_keeps_plain(inner, 1);
    lemma_keeps_within(inner);
    assert(note_ops(text) =~= seq![OpView::SaveStyle] + inner + seq![OpView::RestoreStyle]);
}

proof fn lemma_plain_event_keeps_style(colors: Map<Seq<char>, Color>, event: Event)
    ensures
        keeps_style(plain_event_ops(colors, event), 0),
        keeps_style(deleted_ops(colors, event), 0),
        event.content matches EventContent::Message(m) ==> keeps_style(
            plain_message_ops(colors, event.sender@, m),
            1,
        ),
{
    let inner = match event.content {
        EventContent::Message(m) => plain_message_ops(colors, event.sender@, m),
        EventContent::State(change) => state_ops(colors, event.sender@, change),
        _ => other_message_ops(colors, event),
    };
    lemma_keeps_plain(inner, 1);
    lemma_keeps_within(inner);
    let removed = seq![
        user_op(colors, event.sender@),
        OpView::Italic,
        OpView::Text(" deleted message"@),
    ];
    lemma_keeps_plain(removed, 1);
    lemma_keeps_within(removed);
    assert(deleted_ops(colors, event) =~= seq![OpView::SaveStyle] + removed + seq![
        OpView::RestoreStyle,
    ]);
}

proof fn lemma_answered_keeps_style(
    colors: Map<Seq<char>, Color>,
    cache: CacheView,
    event_id: Seq<char>,
)
    ensures
        keeps_style(answered_ops(colors, cache, event_id), 0),
{
    lemma_keeps_plain(Seq::<OpView>::empty(), 0);
    match answered_id(cache, event_id) {
        Some(id) => match cache.entry_from_id(id) {
            Some(entry) => {
                let ops = plain_entry_ops(colors, entry);
                match entry {
                    EntryView::Simple(m) => lemma_plain_event_keeps_style(colors, m),
                    EntryView::Deleted(m) => lemma_plain_event_keeps_style(colors, m),
                    EntryView::Edited { versions, .. } => {
                        lemma_plain_event_keeps_style(colors, versions.last());
                        lemma_note_keeps_style(" (edited)"@);
                        lemma_keeps_join(
                            plain_event_ops(colors, versions.last()),
                            note_ops(" (edited)"@),
                            0,
                        );
                    },
                }
                let a = seq![OpView::PreviewStart, OpView::Text(REPLY_PREFIX@)];
                let b = seq![OpView::PreviewEnd, OpView::WrapLine];
                lemma_keeps_plain(a, 0);
                lemma_keeps_plain(b, 0);
                lemma_keeps_join(a, ops, 0);
                lemma_keeps_join(a + ops, b, 0);
                assert(answered_ops(colors, cache, event_id) =~= a + ops + b);
            },
            None => {},
        },
        None => {},
    }
}

proof fn lemma_event_keeps_style(room: RoomState, event: Event, simplified: bool)
    ensures
        keeps_style(event_ops(room, event, simplified), 0),
{
    let colors = room.user_colors@;
    match event.content {
        EventContent::Message(m) => {
            lemma_plain_event_keeps_style(colors, event);
            lemma_answered_keeps_style(colors, room.messages@, event.event_id@);
            lemma_keeps_plain(Seq::<OpView>::empty(), 0);
            let answered = if simplified {
                Seq::empty()
            } else {
                answered_ops(colors, room.messages@, event.event_id@)
            };
            lemma_keeps_more(answered);
            lemma_keeps_join(answered, plain_message_ops(colors, event.sender@, m), 1);
            lemma_keeps_within(
                message_ops(room, event.event_id@, event.sender@, m, simplified),
            );
        },
        _ => lemma_plain_event_keeps_style(colors, event),
    }
}

proof fn lemma_versions_keep_style(room: RoomState, versions: Seq<Event>)
    ensures
        keeps_style(versions_ops(room, versions), 0),
    decreases versions.len(),
{
    if versions.len() == 0 {
        lemma_keeps_plain(Seq::<OpView>::empty(), 0);
    } else {
        let v = versions.last();
        let front = versions.drop_last();
        lemma_versions_keep_style(room, front);
        let a = seq![OpView::SaveLineStart, OpView::WrapLine] + time_ops(v.timestamp);
        let b = event_ops(room, v, true);
        let c = seq![OpView::RestoreLineStart];
        lemma_keeps_plain(a, 1);
        lemma_keeps_plain(c, 1);
        lemma_event_keeps_style(room, v, true);
        lemma_keeps_more(b);
        lemma_keeps_join(a, b, 1);
        lemma_keeps_join(a + b, c, 1);
        lemma_keeps_within(a + b + c);
        assert(version_ops(room, v) =~= seq![OpView::SaveStyle] + (a + b + c) + seq![
            OpView::RestoreStyle,
        ]);
        lemma_keeps_join(versions_ops(room, front), version_ops(room, v), 0);
    }
}

/// Drawing an entry of the timeline leaves the style as it was before, whatever is in it: what is
/// drawn next is not in italics because of it.
pub proof fn law_drawing_an_entry_keeps_the_style(
    room: RoomState,
    entry: EntryView,
    simplified: bool,
)
    ensures
        keeps_style(entry_ops(room, entry, simplified), 0),
        keeps_style(detailed_ops(room, entry, simplified), 0),
{
    lemma_note_keeps_style(" (edited)"@);
    lemma_note_keeps_style(" (deleted)"@);
    match entry {
        EntryView::Simple(m) => lemma_event_keeps_style(room, m, simplified),
        EntryView::Deleted(m) => {
            lemma_event_keeps_style(room, m, simplified);
            lemma_plain_event_keeps_style(room.user_colors@, m);
            lemma_keeps_join(event_ops(room, m, simplified), note_ops(" (deleted)"@), 0);
        },
        EntryView::Edited { original, versions } => {
            let newest = event_ops(room, versions.last(), simplified);
            lemma_event_keeps_style(room, versions.last(), simplified);
            lemma_keeps_join(newest, note_ops(" (edited)"@), 0);
            let a = seq![OpView::SaveLineStart];
            let b = event_ops(room, original, simplified);
            let c = seq![OpView::RestoreLineStart];
            lemma_keeps_plain(a, 1);
            lemma_keeps_plain(c, 1);
            lemma_event_keeps_style(room, original, simplified);
            lemma_keeps_more(b);
            lemma_keeps_join(a, b, 1);
            lemma_keeps_join(a + b, c, 1);
            lemma_keeps_within(a + b + c);
            let first = seq![OpView::SaveStyle] + (a + b + c) + seq![OpView::RestoreStyle];
            lemma_versions_keep_style(room, versions);
            lemma_keeps_join(first, versions_ops(room, versions), 0);
            assert(detailed_ops(room, entry, simplified) =~= first + versions_ops(room, versions));
        },
    }
}

/// Whether a text is drawn somewhere, with whatever stands around it in the same step.
pub open spec fn is_drawn(ops: Seq<OpView>, text: Seq<char>) -> bool {
    exists|i: int, a: Seq<char>, b: Seq<char>|
        #![trigger ops[i], a + text + b]
        0 <= i < ops.len() && ops[i] == OpView::Text(a + text + b)
}

proof fn lemma_is_drawn(ops: Seq<OpView>, i: int, a: Seq<char>, text: Seq<char>, b: Seq<char>)
    requires
        0 <= i < ops.len(),
        ops[i] matches OpView::Text(t) && t =~= a + text + b,
    ensures
        is_drawn(ops, text),
{
    assert(ops[i] == OpView::Text(a + text + b));
}

/// Whether steps are some first ones, the id of a user, and some further ones.
pub open spec fn is_led_by(
    ops: Seq<OpView>,
    front: Seq<OpView>,
    user: Seq<char>,
    color: Color,
    back: Seq<OpView>,
) -> bool {
    ops == front + seq![OpView::User(user, color)] + back
}

/// Whether steps are some first ones, a time, what belongs to it, and the return to the style and
/// the column before.
pub open spec fn is_timed(
    ops: Seq<OpView>,
    front: Seq<OpView>,
    time: u64,
    shown: Seq<OpView>,
) -> bool {
    ops == front + seq![OpView::Time(time), OpView::Text(" "@)] + shown + seq![
        OpView::RestoreLineStart,
        OpView::RestoreStyle,
    ]
}

/// Whether steps are those of a line with what is answered, and those of the answer below it.
pub open spec fn is_drawn_above(
    ops: Seq<OpView>,
    answered: Seq<OpView>,
    answer: Seq<OpView>,
) -> bool {
    ops == seq![OpView::SaveStyle, OpView::PreviewStart, OpView::Text(REPLY_PREFIX@)] + answered
        + seq![OpView::PreviewEnd, OpView::WrapLine] + answer
}

/// A message is drawn with its sender in front and what it says behind: of a text what is below a
/// quotation, and of anything else with a body all of the body. A text and a notice stand alone in
/// their step.
pub proof fn law_message_is_drawn_with_its_sender(
    room: RoomState,
    event: Event,
    m: RoomMessage,
    simplified: bool,
)
    requires
        event.content == EventContent::Message(m),
        !(m.kind is VerificationRequest || m.kind is Custom || m.kind is Other),
    ensures
        ({
            let ops = event_ops(room, event, simplified);
            exists|front: Seq<OpView>, back: Seq<OpView>, color: Color|
                {
                    &&& #[trigger] is_led_by(ops, front, event.sender@, color, back)
                    &&& room.user_colors@.contains_key(event.sender@) ==> color
                        == room.user_colors@[event.sender@]
                    &&& !room.user_colors@.contains_key(event.sender@) ==> color is Default
                    &&& is_drawn(
                        back,
                        if m.kind is Text {
                            stripped(m.body@)
                        } else {
                            m.body@
                        },
                    )
                    &&& m.kind is Text || m.kind is Notice ==> back.contains(
                        OpView::Text(
                            if m.kind is Text {
                                stripped(m.body@)
                            } else {
                                m.body@
                            },
                        ),
                    )
                    &&& simplified ==> front == seq![OpView::SaveStyle]
                }
        }),
{
    let colors = room.user_colors@;
    let answered = if simplified {
        Seq::empty()
    } else {
        answered_ops(colors, room.messages@, event.event_id@)
    };
    let ops = event_ops(room, event, simplified);
    let front = seq![OpView::SaveStyle] + answered;
    let content = message_content_ops(m);
    let back = seq![OpView::Wrap] + content + seq![OpView::RestoreStyle];
    let color = color_of(colors, event.sender@);
    assert(ops =~= front + seq![OpView::User(event.sender@, color)] + back);
    assert(is_led_by(ops, front, event.sender@, color, back));
    let none = Seq::<char>::empty();
    match m.kind {
        MessageKind::Text => {
            assert(back[3] == OpView::Text(stripped(m.body@)));
            lemma_is_drawn(back, 3, none, stripped(m.body@), none);
        },
        MessageKind::Notice => {
            assert(back[4] == OpView::Text(m.body@));
            lemma_is_drawn(back, 4, none, m.body@, none);
        },
        MessageKind::ServerNotice => {
            assert(back[4] == content[3]);
            lemma_is_drawn(back, 4, none, m.body@, " [server notice]"@);
        },
        MessageKind::Image => {
            assert(back[2] == content[1]);
            lemma_is_drawn(back, 2, " sent an image ("@, m.body@, ")"@);
        },
        MessageKind::Video => {
            assert(back[2] == content[1]);
            lemma_is_drawn(back, 2, " sent a video ("@, m.body@, ")"@);
        },
        MessageKind::Audio => {
            assert(back[2] == content[1]);
            lemma_is_drawn(back, 2, " sent an audio message ("@, m.body@, ")"@);
        },
        MessageKind::File => {
            assert(back[2] == content[1]);
            lemma_is_drawn(back, 2, " sent a file ("@, m.body@, ")"@);
        },
        MessageKind::Emote => {
            assert(back[2] == content[1]);
            lemma_is_drawn(back, 2, " "@, m.body@, none);
        },
        MessageKind::Location(uri) => {
            assert(back[2] == content[1]);
            lemma_is_drawn(back, 2, " sends the location "@, m.body@, " ("@ + uri@ + ")"@);
        },
        _ => {},
    }
}

/// An edited message is drawn as its last version alone would be, with a remark behind it, whatever
/// the versions before it were. Of a removed message nothing but its sender is drawn.
pub proof fn law_last_version_is_drawn(
    room: RoomState,
    original: Event,
    versions: Seq<Event>,
    newest: Event,
    removed: Event,
    other: Event,
    simplified: bool,
)
    requires
        removed.sender@ == other.sender@,
    ensures
        ({
            let plain = entry_ops(room, EntryView::Simple(newest), simplified);
            let edited = entry_ops(
                room,
                EntryView::Edited { original, versions: versions.push(newest) },
                simplified,
            );
            &&& edited.len() > plain.len()
            &&& edited.take(plain.len() as int) == plain
            &&& edited.skip(plain.len() as int).contains(OpView::Text(" (edited)"@))
        }),
        entry_ops(room, EntryView::Deleted(removed), simplified) == entry_ops(
            room,
            EntryView::Deleted(other),
            simplified,
        ),
{
    assert(versions.push(newest).last() == newest);
    let plain = entry_ops(room, EntryView::Simple(newest), simplified);
    let edited = entry_ops(
        room,
        EntryView::Edited { original, versions: versions.push(newest) },
        simplified,
    );
    assert(edited.take(plain.len() as int) =~= plain);
    assert(edited.skip(plain.len() as int) =~= note_ops(" (edited)"@));
    assert(note_ops(" (edited)"@)[2] == OpView::Text(" (edited)"@));
}

/// In a detailed drawing every version of a message has a line of its own, in their order, with the
/// second in which it was sent and all that it says.
pub proof fn law_every_version_is_drawn_in_detail(
    room: RoomState,
    original: Event,
    versions: Seq<Event>,
    newest: Event,
    simplified: bool,
)
    ensures
        exists|gap: Seq<OpView>, time: u64|
            {
                &&& #[trigger] is_timed(
                    detailed_ops(
                        room,
                        EntryView::Edited { original, versions: versions.push(newest) },
                        simplified,
                    ),
                    detailed_ops(room, EntryView::Edited { original, versions }, simplified) + gap,
                    time,
                    event_ops(room, newest, true),
                )
                &&& time * 1000 <= newest.timestamp < time * 1000 + 1000
                &&& gap.contains(OpView::WrapLine)
            },
{
    let front = seq![OpView::SaveStyle, OpView::SaveLineStart, OpView::WrapLine];
    let time = (newest.timestamp / 1000) as u64;
    let more = versions.push(newest);
    assert(more.drop_last() =~= versions);
    assert(more.last() == newest);
    assert(front[2] == OpView::WrapLine);
    assert(detailed_ops(room, EntryView::Edited { original, versions: more }, simplified)
        =~= detailed_ops(room, EntryView::Edited { original, versions }, simplified) + front + seq![
        OpView::Time(time),
        OpView::Text(" "@),
    ] + event_ops(room, newest, true) + seq![OpView::RestoreLineStart, OpView::RestoreStyle]);
    assert(is_timed(
        detailed_ops(room, EntryView::Edited { original, versions: more }, simplified),
        detailed_ops(room, EntryView::Edited { original, versions }, simplified) + front,
        time,
        event_ops(room, newest, true),
    ));
}

/// What a message answers to is drawn in a line above it, as the message that is answered would be
/// drawn alone, unless the drawing is simplified. An edited answer keeps what it answers to.
pub proof fn law_answered_message_is_drawn_above(
    room: RoomState,
    answer: Event,
    m: RoomMessage,
    n: RoomMessage,
    target: String,
    versions: Seq<Event>,
    version: Event,
    answered: Event,
)
    requires
        answer.content == EventContent::Message(m),
        m.relates_to == Relation::Reply(target),
        version.content == EventContent::Message(n),
        room.messages@.entry_from_id(version.event_id@) == Some(EntryView::Simple(answer))
            || room.messages@.entry_from_id(version.event_id@) == Some(
            EntryView::Edited { original: answer, versions },
        ),
        room.messages@.entry_from_id(target@) == Some(EntryView::Simple(answered)),
    ensures
        exists|own: Seq<OpView>|
            {
                &&& #[trigger] is_drawn_above(
                    event_ops(room, version, false),
                    event_ops(room, answered, true),
                    own,
                )
                &&& event_ops(room, version, true) == seq![OpView::SaveStyle] + own
            },
{
    let colors = room.user_colors@;
    let front = seq![OpView::SaveStyle, OpView::PreviewStart, OpView::Text(REPLY_PREFIX@)];
    let back = plain_message_ops(colors, version.sender@, n) + seq![OpView::RestoreStyle];
    assert(answered_id(room.messages@, version.event_id@) == Some(target@));
    let shown = plain_entry_ops(colors, EntryView::Simple(answered));
    assert(shown =~= event_ops(room, answered, true)) by {
        match answered.content {
            EventContent::Message(a) => {
                assert(message_ops(room, answered.event_id@, answered.sender@, a, true)
                    =~= plain_message_ops(colors, answered.sender@, a));
            },
            _ => {},
        }
    }
    assert(event_ops(room, version, false) =~= front + event_ops(room, answered, true) + seq![
        OpView::PreviewEnd,
        OpView::WrapLine,
    ] + back);
    assert(event_ops(room, version, true) =~= seq![OpView::SaveStyle] + back);
    assert(is_drawn_above(
        event_ops(room, version, false),
        event_ops(room, answered, true),
        back,
    ));
}

/// The reactions are drawn in their order, each group by itself. Without detail a group shows its
/// key, and how many reactions it has where these are several.
pub proof fn law_reactions_are_drawn_in_order(
    colors: Map<Seq<char>, Color>,
    groups: Seq<GroupView>,
    group: GroupView,
    detailed: bool,
)
    ensures
        ({
            let before = groups_ops(colors, groups, detailed);
            let all = groups_ops(colors, groups.push(group), detailed);
            &&& all.len() > before.len()
            &&& all.take(before.len() as int) == before
            &&& all.skip(before.len() as int).contains(OpView::Text(group.key))
            &&& !detailed && group.events.len() > 1 ==> is_drawn(
                all.skip(before.len() as int),
                decimal(group.events.len()),
            )
            &&& !detailed && group.events.len() <= 1 ==> all.len() == before.len() + 2
        }),
{
    let more = groups.push(group);
    assert(more.drop_last() =~= groups);
    assert(more.last() == group);
    let before = groups_ops(colors, groups, detailed);
    let all = groups_ops(colors, more, detailed);
    let own = group_ops(colors, group, detailed);
    assert(all =~= before + own);
    assert(all.take(before.len() as int) =~= before);
    assert(all.skip(before.len() as int) =~= own);
    if detailed {
        assert(own[own.len() - 1] == OpView::Text(group.key));
    } else {
        assert(own[0] == OpView::Text(group.key));
        if group.events.len() > 1 {
            let count = " "@ + decimal(group.events.len());
            assert(own[3] == note_ops(count)[2]);
            lemma_is_drawn(own, 3, " "@, decimal(group.events.len()), Seq::empty());
        }
    }
}

/// A detailed drawing of reactions names every sender, in the order in which the reactions came.
pub proof fn law_senders_of_reactions_are_named(
    colors: Map<Seq<char>, Color>,
    events: Seq<Reaction>,
    i: int,
)
    requires
        0 <= i < events.len(),
    ensures
        sender_ops(colors, events).len() == 2 * events.len(),
        sender_ops(colors, events)[2 * i] matches OpView::User(user, color) && user
            == events[i].sender@ && (colors.contains_key(user) ==> color == colors[user]),
    decreases events.len(),
{
    let front = events.drop_last();
    let before = sender_ops(colors, front);
    if front.len() > 0 {
        law_senders_of_reactions_are_named(
            colors,
            front,
            if i < front.len() {
                i
            } else {
                0
            },
        );
    } else {
        assert(before.len() == 0);
    }
    let all = sender_ops(colors, events);
    assert(all.len() == before.len() + 2);
    if i < front.len() {
        assert(all[2 * i] == before[2 * i]);
        assert(front[i] == events[i]);
    } else {
        assert(all[before.len() as int] == user_op(colors, events.last().sender@));
    }
}

/// A membership that changed is told behind the name that the user is shown by, one that did not is
/// not told of at all. Whoever changed it is not named.
pub proof fn law_membership_is_told_of_the_member(
    colors: Map<Seq<char>, Color>,
    sender: Seq<char>,
    other: Seq<char>,
    change: MembershipChange,
    name: String,
)
    ensures
        state_change_ops(colors, sender, StateChange::Member(change, Some(name)))
            == state_change_ops(colors, other, StateChange::Member(change, Some(name))),
        state_change_ops(colors, sender, StateChange::Member(change, Some(name))).len() > 0
            ==> state_change_ops(colors, sender, StateChange::Member(change, Some(name)))[0]
            == OpView::Text(name@),
        (change is Unchanged || change is NotImplemented) <==> (state_change_ops(
            colors,
            sender,
            StateChange::Member(change, Some(name)),
        ).len() == 0 && !(change is Error)),
{
}

/// What a state event says is drawn: behind the id of its sender, with the value that was set.
pub proof fn law_state_change_is_drawn_with_its_value(
    room: RoomState,
    event: Event,
    change: StateChange,
    value: String,
    simplified: bool,
)
    requires
        event.content == EventContent::State(change),
        change == StateChange::CanonicalAlias(Some(value)) || change == StateChange::GuestAccess(
            value,
        ) || change == StateChange::HistoryVisibility(value) || change == StateChange::JoinRules(
            value,
        ) || change == StateChange::Name(Some(value)) || change == StateChange::PinnedEvents(value)
            || change == StateChange::ThirdPartyInvite(value) || change == StateChange::Topic(value),
    ensures
        ({
            let ops = event_ops(room, event, simplified);
            exists|front: Seq<OpView>, back: Seq<OpView>, color: Color| #[trigger]
                is_led_by(ops, front, event.sender@, color, back) && is_drawn(back, value@)
        }),
{
    let colors = room.user_colors@;
    let ops = event_ops(room, event, simplified);
    let said = state_change_ops(colors, event.sender@, change);
    let front = seq![OpView::SaveStyle, OpView::Wrap, OpView::Italic];
    let back = seq![said[1], OpView::RestoreStyle];
    let color = color_of(colors, event.sender@);
    assert(ops =~= front + seq![OpView::User(event.sender@, color)] + back);
    assert(is_led_by(ops, front, event.sender@, color, back));
    match change {
        StateChange::CanonicalAlias(_) => {
            lemma_is_drawn(back, 0, " changed the canonical room alias to "@, value@, "."@);
        },
        StateChange::GuestAccess(_) => {
            lemma_is_drawn(back, 0, " changed the guest access to "@, value@, "."@);
        },
        StateChange::HistoryVisibility(_) => {
            lemma_is_drawn(back, 0, " changed the history visibility to "@, value@, "."@);
        },
        StateChange::JoinRules(_) => {
            lemma_is_drawn(back, 0, " changed the join rules to "@, value@, "."@);
        },
        StateChange::Name(_) => {
            lemma_is_drawn(back, 0, " changed the room name to '"@, value@, "'."@);
        },
        StateChange::PinnedEvents(_) => {
            lemma_is_drawn(back, 0, " has pinned the following events "@, value@, "."@);
        },
        StateChange::ThirdPartyInvite(_) => {
            lemma_is_drawn(back, 0, " has invited "@, value@, "."@);
        },
        StateChange::Topic(_) => {
            lemma_is_drawn(back, 0, " has changed the topic to '"@, value@, "'."@);
        },
        _ => {},
    }
}

/// An entry is drawn with the second in which its event first came in in front, and with the
/// reactions to that event behind, if there are any.
pub proof fn law_entry_is_drawn_between_time_and_reactions(
    room: RoomState,
    entry: EntryView,
    detailed: bool,
)
    ensures
        ({
            let ops = tui_event_ops(room, entry, detailed);
            let shown = if detailed {
                detailed_ops(room, entry, false)
            } else {
                entry_ops(room, entry, false)
            };
            let first = match entry {
                EntryView::Simple(e) => e,
                EntryView::Deleted(e) => e,
                EntryView::Edited { original, .. } => original,
            };
            let reactions = room.messages@.reactions;
            &&& ops.len() >= 3 + shown.len()
            &&& ops[0] matches OpView::Time(t) && t * 1000 <= first.timestamp < t * 1000 + 1000
            &&& ops[2] is LineStart
            &&& ops.subrange(3, 3 + shown.len() as int) == shown
            &&& ops.len() > 3 + shown.len() <==> reactions.contains_key(first.event_id@)
            &&& reactions.contains_key(first.event_id@) ==> {
                let rest = ops.skip(3 + shown.len() as int);
                let groups = groups_ops(
                    room.user_colors@,
                    reactions[first.event_id@],
                    detailed,
                );
                rest.contains(OpView::Text("\nReactions: "@)) && rest.len() >= groups.len()
                    && rest.skip(rest.len() - groups.len()) == groups
            }
        }),
{
    let ops = tui_event_ops(room, entry, detailed);
    let shown = if detailed {
        detailed_ops(room, entry, false)
    } else {
        entry_ops(room, entry, false)
    };
    let id = entry.original().event_id@;
    let reactions = room.messages@.reactions;
    assert(ops.subrange(3, 3 + shown.len() as int) =~= shown);
    if reactions.contains_key(id) {
        let rest = ops.skip(3 + shown.len() as int);
        let groups = groups_ops(room.user_colors@, reactions[id], detailed);
        assert(rest =~= note_ops("\nReactions: "@) + groups);
        assert(rest[2] == OpView::Text("\nReactions: "@));
        assert(rest.skip(rest.len() - groups.len()) =~= groups);
    }
}

/// Every message can be drawn by itself, and of the other events all but reactions and changes of
/// membership that make no sense.
pub proof fn law_what_can_be_drawn(room: RoomState, event: Event)
    requires
        room.messages.wf(),
    ensures
        event.content is Message ==> event_drawable(room, event, true),
        event.content is Reaction ==> !event_drawable(room, event, true),
        !(event.content is Reaction || event.content is State) ==> event_drawable(
            room,
            event,
            true,
        ),
        entry_drawable(room, EntryView::Deleted(event), true),
{
}

} // verus!
