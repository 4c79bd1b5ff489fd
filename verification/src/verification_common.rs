//! The verification of another device: what to do about each message that arrives.

use vstd::prelude::*;
use vstd::string::*;

use crate::text::{
    all_white, embedded, is_white, joined, law_trimming_takes_whitespace_away, lowercase, same,
    text_of_decimal, to_lowercase, trim, trimmed_end, trimmed_start,
};

verus! {

/// A message to this device that may concern a verification.
#[derive(Clone, Copy, Debug, PartialEq, Eq, Structural)]
pub enum VerificationEvent {
    Request,
    Ready,
    Start,
    Key,
    Mac,
    Accept,
    Cancel,
    Other,
}

/// What has to be looked up for a message, by its sender and its transaction.
#[derive(Clone, Copy, Debug, PartialEq, Eq, Structural)]
pub enum Lookup {
    /// Nothing.
    Nothing,
    /// The request for a verification.
    Request,
    /// The verification by short authentication strings.
    Sas,
}

/// What was found.
#[derive(Clone, Copy, Debug, PartialEq, Eq, Structural)]
pub enum Found {
    /// Nothing.
    Nothing,
    /// What was looked up, and whether that verification is done.
    Found { done: bool },
}

/// What to do about a message.
#[derive(Clone, Copy, Debug, PartialEq, Eq, Structural)]
pub enum VerificationAction {
    /// Nothing.
    Ignore,
    /// Accept the request and start the short authentication strings.
    AcceptRequestAndStart,
    /// Start the short authentication strings.
    StartSas,
    /// Accept the short authentication strings.
    AcceptSas,
    /// Let the user compare the short authentication strings, besides the loop.
    AskForConfirmation,
    /// Say that the other device is verified.
    PrintResult,
}

/// Whether the loop goes on.
#[derive(Clone, Copy, Debug, PartialEq, Eq, Structural)]
pub enum LoopCtrl {
    Continue,
    Break,
}

/// What has to be looked up for a message.
pub open spec fn needed(event: VerificationEvent) -> Lookup {
    match event {
        VerificationEvent::Request | VerificationEvent::Ready => Lookup::Request,
        VerificationEvent::Start
        | VerificationEvent::Key
        | VerificationEvent::Mac
        | VerificationEvent::Accept => Lookup::Sas,
        VerificationEvent::Cancel | VerificationEvent::Other => Lookup::Nothing,
    }
}

/// What has to be looked up for a message.
pub fn lookup(event: VerificationEvent) -> (res: Lookup)
    ensures
        res == needed(event),
{
    match event {
        VerificationEvent::Request | VerificationEvent::Ready => Lookup::Request,
        VerificationEvent::Start
        | VerificationEvent::Key
        | VerificationEvent::Mac
        | VerificationEvent::Accept => Lookup::Sas,
        VerificationEvent::Cancel | VerificationEvent::Other => Lookup::Nothing,
    }
}

/// What to do about a message, given what was found for it.
pub open spec fn reaction_to(event: VerificationEvent, found: Found) -> VerificationAction {
    match found {
        Found::Nothing => VerificationAction::Ignore,
        Found::Found { done } => match event {
            VerificationEvent::Request => VerificationAction::AcceptRequestAndStart,
            VerificationEvent::Ready => VerificationAction::StartSas,
            VerificationEvent::Start => VerificationAction::AcceptSas,
            VerificationEvent::Key => VerificationAction::AskForConfirmation,
            VerificationEvent::Mac | VerificationEvent::Accept => if done {
                VerificationAction::PrintResult
            } else {
                VerificationAction::Ignore
            },
            VerificationEvent::Cancel | VerificationEvent::Other => VerificationAction::Ignore,
        },
    }
}

/// Whether the loop ends with a message, given what was found for it.
pub open spec fn verification_ended(event: VerificationEvent, found: Found) -> bool {
    event == VerificationEvent::Cancel || reaction_to(event, found)
        == VerificationAction::PrintResult
}

/// Decides what to do about a message and whether the loop goes on afterwards: it ends with a
/// cancellation, and once the other device is verified.
pub fn run_verify_loop(event: VerificationEvent, found: Found) -> (res: (
    VerificationAction,
    LoopCtrl,
))
    ensures
        res.0 == reaction_to(event, found),
        res.1 == (if verification_ended(event, found) {
            LoopCtrl::Break
        } else {
            LoopCtrl::Continue
        }),
{
    let action = match found {
        Found::Nothing => VerificationAction::Ignore,
        Found::Found { done } => match event {
            VerificationEvent::Request => VerificationAction::AcceptRequestAndStart,
            VerificationEvent::Ready => VerificationAction::StartSas,
            VerificationEvent::Start => VerificationAction::AcceptSas,
            VerificationEvent::Key => VerificationAction::AskForConfirmation,
            VerificationEvent::Mac | VerificationEvent::Accept => if done {
                VerificationAction::PrintResult
            } else {
                VerificationAction::Ignore
            },
            VerificationEvent::Cancel | VerificationEvent::Other => VerificationAction::Ignore,
        },
    };
    let ctrl = match event {
        VerificationEvent::Cancel => LoopCtrl::Break,
        _ => match action {
            VerificationAction::PrintResult => LoopCtrl::Break,
            _ => LoopCtrl::Continue,
        },
    };
    (action, ctrl)
}

/// What is printed before the details of a message.
pub open spec fn heading(event: VerificationEvent) -> Seq<char> {
    match event {
        VerificationEvent::Request => "== Request "@,
        VerificationEvent::Ready => "== Ready "@,
        VerificationEvent::Start => "== Start: "@,
        VerificationEvent::Key => "== Key: "@,
        VerificationEvent::Mac => "== Mac: "@,
        VerificationEvent::Accept => "== Accept: "@,
        VerificationEvent::Cancel => "Verification has been canceled "@,
        VerificationEvent::Other => "other event "@,
    }
}

/// The line printed for a message: of a cancellation the reason, else all of it.
pub fn event_line(event: VerificationEvent, details: &str) -> (res: String)
    ensures
        res@ == heading(event) + details@,
{
    let before = match event {
        VerificationEvent::Request => "== Request ",
        VerificationEvent::Ready => "== Ready ",
        VerificationEvent::Start => "== Start: ",
        VerificationEvent::Key => "== Key: ",
        VerificationEvent::Mac => "== Mac: ",
        VerificationEvent::Accept => "== Accept: ",
        VerificationEvent::Cancel => "Verification has been canceled ",
        VerificationEvent::Other => "other event ",
    };
    joined(before, details)
}

/// One emoji of the short authentication string.
#[derive(Debug)]
pub struct Emoji {
    pub symbol: String,
    pub description: String,
}

/// The emoji one after the other, each with its description.
pub open spec fn emoji_text(emoji: Seq<Emoji>) -> Seq<char>
    decreases emoji.len(),
{
    if emoji.len() == 0 {
        "Emoji:"@
    } else {
        emoji_text(emoji.drop_last()) + emoji.last().symbol@ + " ("@ + emoji.last().description@
            + ") "@
    }
}

/// The line that shows the emoji.
pub fn emoji_line(emoji: &Vec<Emoji>) -> (res: String)
    ensures
        res@ == emoji_text(emoji@),
{
    let mut out: String = "Emoji:".to_owned();
    let mut i: usize = 0;
    proof {
        assert(emoji@.take(0).len() == 0);
    }
    while i < emoji.len()
        invariant
            i <= emoji@.len(),
            out@ == emoji_text(emoji@.take(i as int)),
        decreases emoji@.len() - i,
    {
        out.append(emoji[i].symbol.as_str());
        out.append(" (");
        out.append(emoji[i].description.as_str());
        out.append(") ");
        proof {
            assert(emoji@.take(i + 1).drop_last() =~= emoji@.take(i as int));
            assert(emoji@.take(i + 1).last() == emoji@[i as int]);
        }
        i = i + 1;
    }
    proof {
        assert(emoji@.take(i as int) =~= emoji@);
    }
    out
}

/// The line that shows the numbers.
pub fn numbers_line(n1: u16, n2: u16, n3: u16) -> (res: String)
    ensures
        res@ == "Numbers: "@ + crate::text::decimal(n1 as nat) + "-"@ + crate::text::decimal(
            n2 as nat,
        ) + "-"@ + crate::text::decimal(n3 as nat),
{
    let mut out = joined("Numbers: ", text_of_decimal(n1 as u64).as_str());
    out.append("-");
    out.append(text_of_decimal(n2 as u64).as_str());
    out.append("-");
    out.append(text_of_decimal(n3 as u64).as_str());
    out
}

/// What the user's answer leads to.
#[derive(Clone, Copy, Debug, PartialEq, Eq, Structural)]
pub enum Confirmation {
    /// The strings match.
    Confirm,
    /// They do not, or the user does not say so.
    Cancel,
}

/// Whether a line of input reads `yes`, whatever its case and the whitespace around it.
pub open spec fn confirms(input: Seq<char>) -> bool {
    lowercase(trimmed_end(trimmed_start(input))) == "yes"@
}

/// Whether the user confirms, by their line of input: it reads `yes`, whatever its case and the
/// whitespace around it.
pub fn wait_for_confirmation(input: &str) -> (res: Confirmation)
    ensures
        res == (if confirms(input@) {
            Confirmation::Confirm
        } else {
            Confirmation::Cancel
        }),
{
    let answer = to_lowercase(trim(input).as_str());
    if same(answer.as_str(), "yes") {
        Confirmation::Confirm
    } else {
        Confirmation::Cancel
    }
}

/// The line that says that another device is verified.
pub fn print_result(user_id: &str, device_id: &str, trust_state: &str) -> (res: String)
    ensures
        res@ == "Successfully verified device "@ + user_id@ + " "@ + device_id@ + " "@
            + trust_state@,
{
    let mut out = embedded("Successfully verified device ", user_id, " ");
    out.append(device_id);
    out.append(" ");
    out.append(trust_state);
    out
}

/// An answer confirms if it reads `yes` apart from its case, whatever whitespace is around it.
pub proof fn law_only_yes_confirms(before: Seq<char>, answer: Seq<char>, after: Seq<char>)
    requires
        all_white(before),
        all_white(after),
        answer.len() > 0 ==> !is_white(answer[0]) && !is_white(answer.last()),
    ensures
        confirms(before + answer + after) <==> lowercase(answer) == "yes"@,
{
    law_trimming_takes_whitespace_away(before, answer, after);
}

/// The emoji are shown in their order: with more of them, the line is that of the first ones with
/// what the line of the others says behind its heading.
pub proof fn law_emoji_are_shown_in_order(a: Seq<Emoji>, b: Seq<Emoji>)
    ensures
        "Emoji:"@ + emoji_text(a + b).skip("Emoji:"@.len() as int) == emoji_text(a + b),
        emoji_text(a + b) == emoji_text(a) + emoji_text(b).skip("Emoji:"@.len() as int),
        b.len() == 1 ==> emoji_text(b) == "Emoji:"@ + b[0].symbol@ + " ("@ + b[0].description@
            + ") "@,
    decreases b.len(),
{
    let n = "Emoji:"@.len() as int;
    lemma_emoji_heading(a + b);
    if b.len() == 0 {
        assert(a + b =~= a);
        assert(emoji_text(b).skip(n) =~= Seq::<char>::empty());
        assert(emoji_text(a) + Seq::<char>::empty() =~= emoji_text(a));
    } else {
        let front = b.drop_last();
        law_emoji_are_shown_in_order(a, front);
        lemma_emoji_heading(front);
        assert((a + b).drop_last() =~= a + front);
        assert((a + b).last() == b.last());
        let more = b.last().symbol@ + " ("@ + b.last().description@ + ") "@;
        assert(emoji_text(b) =~= emoji_text(front) + more);
        assert(emoji_text(b).skip(n) =~= emoji_text(front).skip(n) + more);
        assert(emoji_text(a + b) =~= emoji_text(a + front) + more);
        assert(emoji_text(a + b) =~= emoji_text(a) + emoji_text(b).skip(n));
    }
}

proof fn lemma_emoji_heading(e: Seq<Emoji>)
    ensures
        emoji_text(e).len() >= "Emoji:"@.len(),
        "Emoji:"@ + emoji_text(e).skip("Emoji:"@.len() as int) == emoji_text(e),
    decreases e.len(),
{
    let n = "Emoji:"@.len() as int;
    if e.len() > 0 {
        let front = e.drop_last();
        lemma_emoji_heading(front);
        let more = e.last().symbol@ + " ("@ + e.last().description@ + ") "@;
        assert(emoji_text(e) =~= emoji_text(front) + more);
        assert(emoji_text(e).take(n) =~= "Emoji:"@) by {
            assert(emoji_text(front).take(n) =~= "Emoji:"@);
            assert(emoji_text(e).take(n) =~= emoji_text(front).take(n));
        }
    }
    assert("Emoji:"@ + emoji_text(e).skip(n) =~= emoji_text(e));
}

/// The loop over the messages ends with a cancellation, whatever was found, and with a message on
/// which the other device is verified, and only then. Nothing is done about a verification that is
/// not known.
pub proof fn law_verification_ends_once(event: VerificationEvent, found: Found)
    ensures
        verification_ended(event, found) <==> event is Cancel || (found == (Found::Found {
            done: true,
        }) && (event is Mac || event is Accept)),
        found is Nothing ==> reaction_to(event, found) is Ignore,
        needed(event) is Nothing ==> reaction_to(event, found) is Ignore,
        reaction_to(event, found) is AskForConfirmation <==> event is Key && found is Found,
{
}

} // verus!
