//! The actions by their names.

use vstd::prelude::*;

use crate::config::{ModeSet, ModeSetView};
use crate::text::{decimal, embedded, text_of_decimal};
use crate::timeline::walked_ids;
use crate::tui_app::tui::actions::{
    cancel_special_message_done, clear_auxline_done, clear_error_message_done, clear_filter_done,
    clear_message_done, clear_timeline_cache_done, current_room, delete_message_done,
    delete_reactions_done, edit_done, follow_reply_done, force_room_selection_done, invite_done,
    invited_text, is_done, is_outcome_of, is_selected, join_room_done, leave_room_done,
    open_selected_message_done, push_mode_planned, react_done, save_file_done, send_file_done,
    send_message_done, set_event_detail_done, set_filter_done, start_edit_done, start_reply_done,
    switch_mode_planned, texts, tui_changed, type_done, ActionResult, AuxLineOp, EditOp, Outcome,
    Task,
};
use crate::tui_app::tui::history::{law_selected_is_current, HistoryView};
use crate::tui_app::tui::messages::{
    law_scrolling_forwards_undoes_scrolling_backwards, law_selection_moves_along_the_timeline,
    selected_after, selected_before, selected_id, selection_changed, MessagesMut,
};
use crate::tui_app::tui::rooms::{
    active_ids, law_scrolling_goes_round_the_list, next_room, previous_room, RoomsMut,
};
use crate::tui_app::tui::TuiView;
use crate::tui_app::{lemma_sorted_ids_differ, room_ids, State};

verus! {

/// An action without an argument.
#[derive(Clone, Copy, Debug, PartialEq, Eq, Structural)]
pub enum SimpleAction {
    SendMessage,
    DeleteMessage,
    DeleteReactions,
    Quit,
    SelectNextMessage,
    SelectPrevMessage,
    DeselectMessage,
    SelectNextRoom,
    SelectPrevRoom,
    SelectRoomHistoryNext,
    SelectRoomHistoryPrev,
    FollowReply,
    ForceRoomSelection,
    ClearFilter,
    StartReply,
    StartEdit,
    CancelSpecialMessage,
    ClearMessage,
    ClearErrorMessage,
    OpenSelectedMessage,
    CursorMoveDown,
    CursorMoveUp,
    CursorDeleteLeft,
    CursorDeleteRight,
    PopMode,
    ClearTimelineCache,
    AcceptAuxline,
    ClearAuxline,
    ListInvitedRooms,
    LeaveRoom,
}

/// The actions without an argument, by name.
pub open spec fn simple_actions() -> Seq<(Seq<char>, SimpleAction)> {
    seq![
        ("send_message"@, SimpleAction::SendMessage),
        ("delete_message"@, SimpleAction::DeleteMessage),
        ("delete_reactions"@, SimpleAction::DeleteReactions),
        ("quit"@, SimpleAction::Quit),
        ("select_next_message"@, SimpleAction::SelectNextMessage),
        ("select_prev_message"@, SimpleAction::SelectPrevMessage),
        ("deselect_message"@, SimpleAction::DeselectMessage),
        ("select_next_room"@, SimpleAction::SelectNextRoom),
        ("select_prev_room"@, SimpleAction::SelectPrevRoom),
        ("select_room_history_next"@, SimpleAction::SelectRoomHistoryNext),
        ("select_room_history_prev"@, SimpleAction::SelectRoomHistoryPrev),
        ("follow_reply"@, SimpleAction::FollowReply),
        ("force_room_selection"@, SimpleAction::ForceRoomSelection),
        ("clear_filter"@, SimpleAction::ClearFilter),
        ("start_reply"@, SimpleAction::StartReply),
        ("start_edit"@, SimpleAction::StartEdit),
        ("cancel_special_message"@, SimpleAction::CancelSpecialMessage),
        ("clear_message"@, SimpleAction::ClearMessage),
        ("clear_error_message"@, SimpleAction::ClearErrorMessage),
        ("open_selected_message"@, SimpleAction::OpenSelectedMessage),
        ("cursor_move_down"@, SimpleAction::CursorMoveDown),
        ("cursor_move_up"@, SimpleAction::CursorMoveUp),
        ("cursor_delete_left"@, SimpleAction::CursorDeleteLeft),
        ("cursor_delete_right"@, SimpleAction::CursorDeleteRight),
        ("pop_mode"@, SimpleAction::PopMode),
        ("clear_timeline_cache"@, SimpleAction::ClearTimelineCache),
        ("accept_auxline"@, SimpleAction::AcceptAuxline),
        ("clear_auxline"@, SimpleAction::ClearAuxline),
        ("list_invited_rooms"@, SimpleAction::ListInvitedRooms),
        ("leave_room"@, SimpleAction::LeaveRoom),
    ]
}

/// The actions without an argument, by name.
pub fn actions_args_none() -> (res: Vec<(&'static str, SimpleAction)>)
    ensures
        res@.len() == simple_actions().len(),
        forall|i: int|
            0 <= i < res@.len() ==> (#[trigger] res@[i]).0@ == simple_actions()[i].0 && res@[i].1
                == simple_actions()[i].1,
{
    vec![
        ("send_message", SimpleAction::SendMessage),
        ("delete_message", SimpleAction::DeleteMessage),
        ("delete_reactions", SimpleAction::DeleteReactions),
        ("quit", SimpleAction::Quit),
        ("select_next_message", SimpleAction::SelectNextMessage),
        ("select_prev_message", SimpleAction::SelectPrevMessage),
        ("deselect_message", SimpleAction::DeselectMessage),
        ("select_next_room", SimpleAction::SelectNextRoom),
        ("select_prev_room", SimpleAction::SelectPrevRoom),
        ("select_room_history_next", SimpleAction::SelectRoomHistoryNext),
        ("select_room_history_prev", SimpleAction::SelectRoomHistoryPrev),
        ("follow_reply", SimpleAction::FollowReply),
        ("force_room_selection", SimpleAction::ForceRoomSelection),
        ("clear_filter", SimpleAction::ClearFilter),
        ("start_reply", SimpleAction::StartReply),
        ("start_edit", SimpleAction::StartEdit),
        ("cancel_special_message", SimpleAction::CancelSpecialMessage),
        ("clear_message", SimpleAction::ClearMessage),
        ("clear_error_message", SimpleAction::ClearErrorMessage),
        ("open_selected_message", SimpleAction::OpenSelectedMessage),
        ("cursor_move_down", SimpleAction::CursorMoveDown),
        ("cursor_move_up", SimpleAction::CursorMoveUp),
        ("cursor_delete_left", SimpleAction::CursorDeleteLeft),
        ("cursor_delete_right", SimpleAction::CursorDeleteRight),
        ("pop_mode", SimpleAction::PopMode),
        ("clear_timeline_cache", SimpleAction::ClearTimelineCache),
        ("accept_auxline", SimpleAction::AcceptAuxline),
        ("clear_auxline", SimpleAction::ClearAuxline),
        ("list_invited_rooms", SimpleAction::ListInvitedRooms),
        ("leave_room", SimpleAction::LeaveRoom),
    ]
}

/// An action with a text as its argument.
#[derive(Clone, Copy, Debug, PartialEq, Eq, Structural)]
pub enum StringAction {
    Type,
    SwitchMode,
    PushMode,
    SetFilter,
    React,
    SetEventDetail,
    SendFile,
    SaveFile,
    SwitchAuxline,
    SetAuxlinePrompt,
    Run,
    CreateRoom,
    JoinRoom,
    Invite,
}

/// The actions with a text as their argument, by name.
pub open spec fn string_actions() -> Seq<(Seq<char>, StringAction)> {
    seq![
        ("type"@, StringAction::Type),
        ("switch_mode"@, StringAction::SwitchMode),
        ("push_mode"@, StringAction::PushMode),
        ("set_filter"@, StringAction::SetFilter),
        ("react"@, StringAction::React),
        ("set_event_detail"@, StringAction::SetEventDetail),
        ("send_file"@, StringAction::SendFile),
        ("save_file"@, StringAction::SaveFile),
        ("switch_auxline"@, StringAction::SwitchAuxline),
        ("set_auxline_prompt"@, StringAction::SetAuxlinePrompt),
        ("run"@, StringAction::Run),
        ("create_room"@, StringAction::CreateRoom),
        ("join_room"@, StringAction::JoinRoom),
        ("invite"@, StringAction::Invite),
    ]
}

/// The actions with a text as their argument, by name.
pub fn actions_args_string() -> (res: Vec<(&'static str, StringAction)>)
    ensures
        res@.len() == string_actions().len(),
        forall|i: int|
            0 <= i < res@.len() ==> (#[trigger] res@[i]).0@ == string_actions()[i].0 && res@[i].1
                == string_actions()[i].1,
{
    vec![
        ("type", StringAction::Type),
        ("switch_mode", StringAction::SwitchMode),
        ("push_mode", StringAction::PushMode),
        ("set_filter", StringAction::SetFilter),
        ("react", StringAction::React),
        ("set_event_detail", StringAction::SetEventDetail),
        ("send_file", StringAction::SendFile),
        ("save_file", StringAction::SaveFile),
        ("switch_auxline", StringAction::SwitchAuxline),
        ("set_auxline_prompt", StringAction::SetAuxlinePrompt),
        ("run", StringAction::Run),
        ("create_room", StringAction::CreateRoom),
        ("join_room", StringAction::JoinRoom),
        ("invite", StringAction::Invite),
    ]
}

/// What the outside of the state knows at the time of an action.
pub struct Surroundings {
    /// Whether the server knows the current room.
    pub room_known: bool,
    /// The rooms that one is invited to.
    pub invited_rooms: Vec<String>,
}

/// Selecting a message.
pub open spec fn select_message_done(
    before: State,
    target: Option<Option<Seq<char>>>,
    after: State,
    res: Outcome,
) -> bool {
    match target {
        Some(selected) if before.current_id() is Some => is_outcome_of(res, true)
            && selection_changed(before, after, selected),
        _ => is_outcome_of(res, false) && after == before,
    }
}

/// Going through the rooms that were selected.
pub open spec fn select_room_history_done(
    before: State,
    step: int,
    after: State,
    res: Outcome,
) -> bool {
    let history = before.tui@.room_selection;
    let place = history.current + step;
    if 0 <= place < history.selections.len() {
        &&& is_outcome_of(res, true)
        &&& tui_changed(
            before,
            after,
            TuiView { room_selection: HistoryView { current: place, ..history }, ..before.tui@ },
        )
    } else {
        is_outcome_of(res, false) && tui_changed(before, after, before.tui@)
    }
}

/// What an action without an argument does.
pub open spec fn simple_action_done(
    before: State,
    action: SimpleAction,
    known: bool,
    invited: Seq<Seq<char>>,
    after: State,
    res: Outcome,
) -> bool {
    let room = current_room(before);
    let cache = room.messages@;
    let selected = selected_id(room.tui.selection);
    match action {
        SimpleAction::SendMessage => send_message_done(before, known, after, res),
        SimpleAction::DeleteMessage => delete_message_done(before, known, res) && after == before,
        SimpleAction::DeleteReactions => delete_reactions_done(before, known, res) && after
            == before,
        SimpleAction::Quit => res.result is Done && res.task == Some(Task::Quit) && after
            == before,
        SimpleAction::SelectNextMessage => select_message_done(
            before,
            selected_after(cache, selected),
            after,
            res,
        ),
        SimpleAction::SelectPrevMessage => select_message_done(
            before,
            match selected_before(cache, selected) {
                Some(id) => Some(Some(id)),
                None => None,
            },
            after,
            res,
        ),
        SimpleAction::DeselectMessage => select_message_done(
            before,
            match selected {
                Some(_) => Some(None),
                None => None,
            },
            after,
            res,
        ),
        SimpleAction::SelectNextRoom => is_done(res) && tui_changed(
            before,
            after,
            before.tui@.room_set(next_room(before)),
        ),
        SimpleAction::SelectPrevRoom => is_done(res) && tui_changed(
            before,
            after,
            before.tui@.room_set(previous_room(before)),
        ),
        SimpleAction::SelectRoomHistoryNext => select_room_history_done(before, 1, after, res),
        SimpleAction::SelectRoomHistoryPrev => select_room_history_done(before, -1, after, res),
        SimpleAction::FollowReply => follow_reply_done(before, after, res),
        SimpleAction::ForceRoomSelection => force_room_selection_done(before, after, res),
        SimpleAction::ClearFilter => clear_filter_done(before, after, res),
        SimpleAction::StartReply => start_reply_done(before, after, res),
        SimpleAction::StartEdit => start_edit_done(before, after, res),
        SimpleAction::CancelSpecialMessage => cancel_special_message_done(before, after, res),
        SimpleAction::ClearMessage => clear_message_done(before, after, res),
        SimpleAction::ClearErrorMessage => clear_error_message_done(before, after, res),
        SimpleAction::OpenSelectedMessage => open_selected_message_done(before, res) && after
            == before,
        SimpleAction::CursorMoveDown => edit_done(before, EditOp::MoveDown, res) && after == before,
        SimpleAction::CursorMoveUp => edit_done(before, EditOp::MoveUp, res) && after == before,
        SimpleAction::CursorDeleteLeft => edit_done(before, EditOp::DeleteLeft, res) && after
            == before,
        SimpleAction::CursorDeleteRight => edit_done(before, EditOp::DeleteRight, res) && after
            == before,
        SimpleAction::PopMode => res.result is Done && res.task == Some(Task::PopMode) && after
            == before,
        SimpleAction::ClearTimelineCache => clear_timeline_cache_done(before, after, res),
        SimpleAction::AcceptAuxline => res.result is Done && res.task == Some(
            Task::AuxLine(AuxLineOp::Accept),
        ) && after == before,
        SimpleAction::ClearAuxline => clear_auxline_done(before, after, res),
        SimpleAction::ListInvitedRooms => is_done(res) && tui_changed(
            before,
            after,
            TuiView { last_error_message: Some(invited_text(invited)), ..before.tui@ },
        ),
        SimpleAction::LeaveRoom => leave_room_done(before, known, res) && after == before,
    }
}

/// What an action with a text as its argument does.
pub open spec fn string_action_done(
    before: State,
    action: StringAction,
    text: Seq<char>,
    known: bool,
    modes: ModeSetView,
    after: State,
    res: Outcome,
) -> bool {
    match action {
        StringAction::Type => type_done(before, text, res) && after == before,
        StringAction::SwitchMode => switch_mode_planned(before, modes, text, res) && after
            == before,
        StringAction::PushMode => push_mode_planned(before, modes, text, res) && after == before,
        StringAction::SetFilter => set_filter_done(before, text, after, res),
        StringAction::React => react_done(before, known, text, res) && after == before,
        StringAction::SetEventDetail => set_event_detail_done(before, text, after, res),
        StringAction::SendFile => send_file_done(before, known, text, res) && after == before,
        StringAction::SaveFile => save_file_done(before, text, res) && after == before,
        StringAction::SwitchAuxline => res.result is Done && (res.task matches Some(
            Task::AuxLine(AuxLineOp::Select(s)),
        ) && s@ == text) && after == before,
        StringAction::SetAuxlinePrompt => res.result is Done && (res.task matches Some(
            Task::AuxLine(AuxLineOp::SetPrompt(s)),
        ) && s@ == text) && after == before,
        StringAction::Run => res.result is Done && (res.task matches Some(Task::Run(s)) && s@
            == text) && after == before,
        StringAction::CreateRoom => res.result is Done && (res.task matches Some(
            Task::CreateRoom(s),
        ) && s@ == text) && after == before,
        StringAction::JoinRoom => join_room_done(text, res) && after == before,
        StringAction::Invite => invite_done(before, known, text, res) && after == before,
    }
}

fn outcome(task: Task) -> (res: Outcome)
    ensures
        res.result is Done,
        res.task == Some(task),
{
    Outcome { result: ActionResult::Done, task: Some(task) }
}

fn finished(o: Result<(), ()>) -> (res: Outcome)
    ensures
        is_outcome_of(res, o is Ok),
{
    Outcome { result: ActionResult::from(o), task: None }
}

impl State {
    /// Runs an action without an argument.
    pub fn run_simple_action(&mut self, action: SimpleAction, around: &Surroundings) -> (res:
        Outcome)
        requires
            old(self).wf(),
        ensures
            final(self).wf(),
            simple_action_done(
                *old(self),
                action,
                around.room_known,
                texts(around.invited_rooms@),
                *final(self),
                res,
            ),
    {
        let known = around.room_known;
        match action {
            SimpleAction::SendMessage => self.send_message(known),
            SimpleAction::DeleteMessage => self.delete_message(known),
            SimpleAction::DeleteReactions => self.delete_reactions(known),
            SimpleAction::Quit => outcome(Task::Quit),
            SimpleAction::SelectNextMessage => finished(MessagesMut(self).scroll_forwards()),
            SimpleAction::SelectPrevMessage => finished(MessagesMut(self).scroll_backwards()),
            SimpleAction::DeselectMessage => finished(MessagesMut(self).deselect_message()),
            SimpleAction::SelectNextRoom => finished(RoomsMut(self).scroll_forwards()),
            SimpleAction::SelectPrevRoom => finished(RoomsMut(self).scroll_backwards()),
            SimpleAction::SelectRoomHistoryNext => finished(
                self.tui.room_selection.scroll_forwards(),
            ),
            SimpleAction::SelectRoomHistoryPrev => finished(
                self.tui.room_selection.scroll_backwards(),
            ),
            SimpleAction::FollowReply => self.follow_reply(),
            SimpleAction::ForceRoomSelection => self.force_room_selection(),
            SimpleAction::ClearFilter => self.clear_filter(),
            SimpleAction::StartReply => self.start_reply(),
            SimpleAction::StartEdit => self.start_edit(),
            SimpleAction::CancelSpecialMessage => self.cancel_special_message(),
            SimpleAction::ClearMessage => self.clear_message(),
            SimpleAction::ClearErrorMessage => self.clear_error_message(),
            SimpleAction::OpenSelectedMessage => self.open_selected_message(),
            SimpleAction::CursorMoveDown => self.with_msg_edit(EditOp::MoveDown),
            SimpleAction::CursorMoveUp => self.with_msg_edit(EditOp::MoveUp),
            SimpleAction::CursorDeleteLeft => self.with_msg_edit(EditOp::DeleteLeft),
            SimpleAction::CursorDeleteRight => self.with_msg_edit(EditOp::DeleteRight),
            SimpleAction::PopMode => outcome(Task::PopMode),
            SimpleAction::ClearTimelineCache => self.clear_timeline_cache(),
            SimpleAction::AcceptAuxline => outcome(Task::AuxLine(AuxLineOp::Accept)),
            SimpleAction::ClearAuxline => self.clear_auxline(),
            SimpleAction::ListInvitedRooms => self.list_invited_rooms(&around.invited_rooms),
            SimpleAction::LeaveRoom => self.leave_room(known),
        }
    }

    /// Runs an action with a text as its argument.
    pub fn run_string_action(
        &mut self,
        action: StringAction,
        text: String,
        around: &Surroundings,
        modes: &ModeSet,
    ) -> (res: Outcome)
        requires
            old(self).wf(),
        ensures
            final(self).wf(),
            string_action_done(
                *old(self),
                action,
                text@,
                around.room_known,
                modes@,
                *final(self),
                res,
            ),
    {
        let known = around.room_known;
        match action {
            StringAction::Type => self.type_text(text),
            StringAction::SwitchMode => self.plan_switch_mode(modes, text.as_str()),
            StringAction::PushMode => self.plan_push_mode(modes, text.as_str()),
            StringAction::SetFilter => self.set_filter(text.as_str()),
            StringAction::React => self.react(known, text),
            StringAction::SetEventDetail => self.set_event_detail(text.as_str()),
            StringAction::SendFile => self.send_file(known, text),
            StringAction::SaveFile => self.save_file(text),
            StringAction::SwitchAuxline => outcome(Task::AuxLine(AuxLineOp::Select(text))),
            StringAction::SetAuxlinePrompt => outcome(Task::AuxLine(AuxLineOp::SetPrompt(text))),
            StringAction::Run => outcome(Task::Run(text)),
            StringAction::CreateRoom => outcome(Task::CreateRoom(text)),
            StringAction::JoinRoom => State::join_room(text),
            StringAction::Invite => self.invite(known, text),
        }
    }
}

/// The first `n` names of arguments, with a comma between them.
pub open spec fn argument_names(n: nat) -> Seq<char>
    decreases n,
{
    if n == 0 {
        Seq::empty()
    } else if n == 1 {
        "s"@ + decimal(0)
    } else {
        argument_names((n - 1) as nat) + ",s"@ + decimal((n - 1) as nat)
    }
}

/// The script that defines a function without arguments which calls the action of that name.
pub open spec fn simple_shortcut(name: Seq<char>) -> Seq<char> {
    name + " = function(c) return c:"@ + name + "() end"@
}

/// The script that defines a function which makes a call of the action of that name from its
/// arguments.
pub open spec fn shortcut(name: Seq<char>, n: nat) -> Seq<char> {
    name + " = function("@ + argument_names(n) + ") return function(c) return c:"@ + name + "("@
        + argument_names(n) + ") end end"@
}

/// The script that defines a function for an action with a number of arguments.
pub fn add_global_fun(name: &str, nargs: usize) -> (res: String)
    ensures
        res@ == shortcut(name@, nargs as nat),
{
    let mut args = String::new();
    let mut i: usize = 0;
    while i < nargs
        invariant
            i <= nargs,
            args@ == argument_names(i as nat),
        decreases nargs - i,
    {
        if i > 0 {
            args.append(",s");
        } else {
            args.append("s");
            proof {
                assert(Seq::<char>::empty() + "s"@ =~= "s"@);
            }
        }
        args.append(text_of_decimal(i as u64).as_str());
        i = i + 1;
    }
    let mut s = embedded(name, " = function(", args.as_str());
    s.append(") return function(c) return c:");
    s.append(name);
    s.append("(");
    s.append(args.as_str());
    s.append(") end end");
    s
}

/// The scripts that define functions for all actions, in the order in which they are run.
pub open spec fn shortcuts() -> Seq<Seq<char>> {
    Seq::new(simple_actions().len(), |i: int| simple_shortcut(simple_actions()[i].0)) + Seq::new(
        string_actions().len(),
        |i: int| shortcut(string_actions()[i].0, 1),
    ) + seq![
        shortcut("cursor_move_forward"@, 1),
        shortcut("cursor_move_backward"@, 1),
        shortcut("cursor_delete"@, 2),
    ]
}

/// The scripts that define functions for all actions.
pub fn global_functions() -> (res: Vec<String>)
    ensures
        texts(res@) == shortcuts(),
{
    let mut out: Vec<String> = Vec::new();
    let simple = actions_args_none();
    let mut i: usize = 0;
    while i < simple.len()
        invariant
            i <= simple@.len(),
            simple@.len() == simple_actions().len(),
            forall|j: int|
                0 <= j < simple@.len() ==> (#[trigger] simple@[j]).0@ == simple_actions()[j].0,
            out@.len() == i,
            forall|j: int|
                0 <= j < i ==> (#[trigger] out@[j])@ == simple_shortcut(simple_actions()[j].0),
        decreases simple@.len() - i,
    {
        let name = simple[i].0;
        let mut s = embedded(name, " = function(c) return c:", name);
        s.append("() end");
        out.push(s);
        i = i + 1;
    }
    let string = actions_args_string();
    let ghost n = simple@.len() as int;
    let mut k: usize = 0;
    while k < string.len()
        invariant
            k <= string@.len(),
            n == simple_actions().len(),
            string@.len() == string_actions().len(),
            forall|j: int|
                0 <= j < string@.len() ==> (#[trigger] string@[j]).0@ == string_actions()[j].0,
            out@.len() == n + k,
            forall|j: int|
                0 <= j < n ==> (#[trigger] out@[j])@ == simple_shortcut(simple_actions()[j].0),
            forall|j: int|
                n <= j < n + k ==> (#[trigger] out@[j])@ == shortcut(string_actions()[j - n].0, 1),
        decreases string@.len() - k,
    {
        out.push(add_global_fun(string[k].0, 1));
        k = k + 1;
    }
    out.push(add_global_fun("cursor_move_forward", 1));
    out.push(add_global_fun("cursor_move_backward", 1));
    out.push(add_global_fun("cursor_delete", 2));
    proof {
        assert(texts(out@) =~= shortcuts());
    }
    out
}

/// Going back in the history of rooms and then forward, or the other way round, leads back to where
/// one was, where a room is current. Nothing else of the state changes on the way.
pub proof fn law_history_actions_undo_each_other(
    before: State,
    between: State,
    after: State,
    first: Outcome,
    second: Outcome,
    known: bool,
    invited: Seq<Seq<char>>,
)
    requires
        before.wf(),
        before.current_id() is Some,
        first.result is Done,
        (simple_action_done(
            before,
            SimpleAction::SelectRoomHistoryPrev,
            known,
            invited,
            between,
            first,
        ) && simple_action_done(
            between,
            SimpleAction::SelectRoomHistoryNext,
            known,
            invited,
            after,
            second,
        )) || (simple_action_done(
            before,
            SimpleAction::SelectRoomHistoryNext,
            known,
            invited,
            between,
            first,
        ) && simple_action_done(
            between,
            SimpleAction::SelectRoomHistoryPrev,
            known,
            invited,
            after,
            second,
        )),
    ensures
        second.result is Done,
        after.tui@ == before.tui@,
        after.rooms == before.rooms,
        between.rooms == before.rooms,
        between.tui@.room_selection.selections == before.tui@.room_selection.selections,
        between.current_id() is Some,
        between.current_id() != before.current_id(),
{
    let h = before.tui@.room_selection;
    let b = between.tui@.room_selection;
    assert(h.selections[h.current] != h.selections[b.current]);
    assert(after.tui@ =~= before.tui@);
}

/// The actions that only look at the state, or that leave their work to be done outside of it,
/// change nothing of it.
pub proof fn law_actions_that_leave_work_change_nothing(
    before: State,
    action: SimpleAction,
    string_action: StringAction,
    text: Seq<char>,
    known: bool,
    invited: Seq<Seq<char>>,
    modes: ModeSetView,
    after: State,
    res: Outcome,
)
    ensures
        simple_action_done(before, action, known, invited, after, res) && res.task is Some
            ==> after == before || action is SendMessage,
        string_action_done(before, string_action, text, known, modes, after, res)
            && res.task is Some ==> after == before,
        simple_action_done(before, action, known, invited, after, res) ==> after.user_id
            == before.user_id || after == before,
        simple_action_done(before, action, known, invited, after, res) && res.result is Noop
            ==> after.rooms == before.rooms && after.tui@ == before.tui@,
        simple_action_done(before, action, known, invited, after, res) && res.result is Error
            ==> after == before || action is SendMessage,
        string_action_done(before, string_action, text, known, modes, after, res)
            && !(res.result is Done) ==> after == before,
{
}

/// Selecting the message before and then the one behind, by their actions, leads back to the
/// selection that there was, where no event occurs twice.
pub proof fn law_message_actions_undo_each_other(
    before: State,
    between: State,
    after: State,
    i: int,
    first: Outcome,
    second: Outcome,
    known: bool,
    invited: Seq<Seq<char>>,
)
    requires
        before.wf(),
        between.wf(),
        before.current_id() is Some,
        before.current_index() == i,
        before.rooms@[i].messages@.valid(),
        before.rooms@[i].messages@.walked().items.no_duplicates(),
        first.result is Done,
        simple_action_done(
            before,
            SimpleAction::SelectPrevMessage,
            known,
            invited,
            between,
            first,
        ),
        simple_action_done(
            between,
            SimpleAction::SelectNextMessage,
            known,
            invited,
            after,
            second,
        ),
    ensures
        second.result is Done,
        selected_id(after.rooms@[i].tui.selection) == selected_id(before.rooms@[i].tui.selection),
        after.rooms@[i].messages == before.rooms@[i].messages,
        after.tui == before.tui,
{
    let cache = before.rooms@[i].messages@;
    let selected = selected_id(before.rooms@[i].tui.selection);
    law_scrolling_forwards_undoes_scrolling_backwards(cache, selected);
    assert(room_ids(between.rooms@) =~= room_ids(before.rooms@)) by {
        assert forall|k: int| 0 <= k < before.rooms@.len() implies between.rooms@[k].id
            == before.rooms@[k].id by {}
    }
}

/// The name of an action without an argument.
pub open spec fn simple_action_name(action: SimpleAction) -> Seq<char> {
    match action {
        SimpleAction::SendMessage => "send_message"@,
        SimpleAction::DeleteMessage => "delete_message"@,
        SimpleAction::DeleteReactions => "delete_reactions"@,
        SimpleAction::Quit => "quit"@,
        SimpleAction::SelectNextMessage => "select_next_message"@,
        SimpleAction::SelectPrevMessage => "select_prev_message"@,
        SimpleAction::DeselectMessage => "deselect_message"@,
        SimpleAction::SelectNextRoom => "select_next_room"@,
        SimpleAction::SelectPrevRoom => "select_prev_room"@,
        SimpleAction::SelectRoomHistoryNext => "select_room_history_next"@,
        SimpleAction::SelectRoomHistoryPrev => "select_room_history_prev"@,
        SimpleAction::FollowReply => "follow_reply"@,
        SimpleAction::ForceRoomSelection => "force_room_selection"@,
        SimpleAction::ClearFilter => "clear_filter"@,
        SimpleAction::StartReply => "start_reply"@,
        SimpleAction::StartEdit => "start_edit"@,
        SimpleAction::CancelSpecialMessage => "cancel_special_message"@,
        SimpleAction::ClearMessage => "clear_message"@,
        SimpleAction::ClearErrorMessage => "clear_error_message"@,
        SimpleAction::OpenSelectedMessage => "open_selected_message"@,
        SimpleAction::CursorMoveDown => "cursor_move_down"@,
        SimpleAction::CursorMoveUp => "cursor_move_up"@,
        SimpleAction::CursorDeleteLeft => "cursor_delete_left"@,
        SimpleAction::CursorDeleteRight => "cursor_delete_right"@,
        SimpleAction::PopMode => "pop_mode"@,
        SimpleAction::ClearTimelineCache => "clear_timeline_cache"@,
        SimpleAction::AcceptAuxline => "accept_auxline"@,
        SimpleAction::ClearAuxline => "clear_auxline"@,
        SimpleAction::ListInvitedRooms => "list_invited_rooms"@,
        SimpleAction::LeaveRoom => "leave_room"@,
    }
}

/// The name of an action with a text as its argument.
pub open spec fn string_action_name(action: StringAction) -> Seq<char> {
    match action {
        StringAction::Type => "type"@,
        StringAction::SwitchMode => "switch_mode"@,
        StringAction::PushMode => "push_mode"@,
        StringAction::SetFilter => "set_filter"@,
        StringAction::React => "react"@,
        StringAction::SetEventDetail => "set_event_detail"@,
        StringAction::SendFile => "send_file"@,
        StringAction::SaveFile => "save_file"@,
        StringAction::SwitchAuxline => "switch_auxline"@,
        StringAction::SetAuxlinePrompt => "set_auxline_prompt"@,
        StringAction::Run => "run"@,
        StringAction::CreateRoom => "create_room"@,
        StringAction::JoinRoom => "join_room"@,
        StringAction::Invite => "invite"@,
    }
}

/// Every action can be called by its name, and is in its list once.
pub proof fn law_actions_are_called_by_their_names(
    simple: SimpleAction,
    string: StringAction,
    i: int,
)
    ensures
        simple_actions().contains((simple_action_name(simple), simple)),
        string_actions().contains((string_action_name(string), string)),
        0 <= i < simple_actions().len() ==> simple_actions()[i].0 == simple_action_name(
            simple_actions()[i].1,
        ),
        0 <= i < string_actions().len() ==> string_actions()[i].0 == string_action_name(
            string_actions()[i].1,
        ),
{
    let a: int = match simple {
        SimpleAction::SendMessage => 0,
        SimpleAction::DeleteMessage => 1,
        SimpleAction::DeleteReactions => 2,
        SimpleAction::Quit => 3,
        SimpleAction::SelectNextMessage => 4,
        SimpleAction::SelectPrevMessage => 5,
        SimpleAction::DeselectMessage => 6,
        SimpleAction::SelectNextRoom => 7,
        SimpleAction::SelectPrevRoom => 8,
        SimpleAction::SelectRoomHistoryNext => 9,
        SimpleAction::SelectRoomHistoryPrev => 10,
        SimpleAction::FollowReply => 11,
        SimpleAction::ForceRoomSelection => 12,
        SimpleAction::ClearFilter => 13,
        SimpleAction::StartReply => 14,
        SimpleAction::StartEdit => 15,
        SimpleAction::CancelSpecialMessage => 16,
        SimpleAction::ClearMessage => 17,
        SimpleAction::ClearErrorMessage => 18,
        SimpleAction::OpenSelectedMessage => 19,
        SimpleAction::CursorMoveDown => 20,
        SimpleAction::CursorMoveUp => 21,
        SimpleAction::CursorDeleteLeft => 22,
        SimpleAction::CursorDeleteRight => 23,
        SimpleAction::PopMode => 24,
        SimpleAction::ClearTimelineCache => 25,
        SimpleAction::AcceptAuxline => 26,
        SimpleAction::ClearAuxline => 27,
        SimpleAction::ListInvitedRooms => 28,
        SimpleAction::LeaveRoom => 29,
    };
    assert(simple_actions()[a] == (simple_action_name(simple), simple));
    let b: int = match string {
        StringAction::Type => 0,
        StringAction::SwitchMode => 1,
        StringAction::PushMode => 2,
        StringAction::SetFilter => 3,
        StringAction::React => 4,
        StringAction::SetEventDetail => 5,
        StringAction::SendFile => 6,
        StringAction::SaveFile => 7,
        StringAction::SwitchAuxline => 8,
        StringAction::SetAuxlinePrompt => 9,
        StringAction::Run => 10,
        StringAction::CreateRoom => 11,
        StringAction::JoinRoom => 12,
        StringAction::Invite => 13,
    };
    assert(string_actions()[b] == (string_action_name(string), string));
}

/// The actions for selecting a message move the selection by one along the messages that are walked
/// through, towards older ones or towards newer ones. The one that ends the selection ends it.
pub proof fn law_message_actions_move_the_selection(
    before: State,
    i: int,
    k: int,
    known: bool,
    invited: Seq<Seq<char>>,
    after: State,
    res: Outcome,
)
    requires
        before.wf(),
        0 <= i < before.rooms@.len(),
        before.tui@.room_selection.current_room() == Some(before.rooms@[i].id@),
        walked_ids(before.rooms@[i].messages@).no_duplicates(),
        0 <= k < walked_ids(before.rooms@[i].messages@).len(),
    ensures
        ({
            let ids = walked_ids(before.rooms@[i].messages@);
            &&& is_selected(before, i, ids[k]) && k > 0 && simple_action_done(
                before,
                SimpleAction::SelectPrevMessage,
                known,
                invited,
                after,
                res,
            ) ==> res.result is Done && is_selected(after, i, ids[k - 1])
            &&& is_selected(before, i, ids[k]) && k + 1 < ids.len() && simple_action_done(
                before,
                SimpleAction::SelectNextMessage,
                known,
                invited,
                after,
                res,
            ) ==> res.result is Done && is_selected(after, i, ids[k + 1])
            &&& is_selected(before, i, ids[k]) && simple_action_done(
                before,
                SimpleAction::DeselectMessage,
                known,
                invited,
                after,
                res,
            ) ==> res.result is Done && after.rooms@[i].tui.selection is Newest
            &&& before.rooms@[i].tui.selection is Newest && before.rooms@[i].messages@.end is Reached
                && simple_action_done(
                before,
                SimpleAction::SelectPrevMessage,
                known,
                invited,
                after,
                res,
            ) ==> res.result is Done && is_selected(after, i, ids.last())
        }),
{
    let r: Result<(), ()> = if res.result is Done {
        Ok(())
    } else {
        Err(())
    };
    law_selection_moves_along_the_timeline(before, i, k, after, r);
    let room = before.rooms@[i];
    let rooms = room_ids(before.rooms@);
    let at = before.current_index();
    assert(rooms[i] == room.id@);
    assert(rooms.contains(rooms[i]));
    assert(rooms[at] == rooms[i]);
    if at != i {
        lemma_sorted_ids_differ(rooms, at, i);
    }
}

/// The actions for selecting a room lead to the next and to the previous room of the list, going
/// round, and to nothing else.
pub proof fn law_room_actions_go_round_the_list(
    before: State,
    k: int,
    known: bool,
    invited: Seq<Seq<char>>,
    after: State,
    res: Outcome,
)
    requires
        before.wf(),
        0 <= k < active_ids(before).len(),
        before.current_id() == Some(active_ids(before)[k]),
    ensures
        ({
            let ids = active_ids(before);
            &&& simple_action_done(
                before,
                SimpleAction::SelectNextRoom,
                known,
                invited,
                after,
                res,
            ) ==> after.current_id() == Some(
                ids[if k + 1 < ids.len() {
                    k + 1
                } else {
                    0
                }],
            ) && after.rooms == before.rooms
            &&& simple_action_done(
                before,
                SimpleAction::SelectPrevRoom,
                known,
                invited,
                after,
                res,
            ) ==> after.current_id() == Some(
                ids[if k > 0 {
                    k - 1
                } else {
                    ids.len() - 1
                }],
            ) && after.rooms == before.rooms
        }),
{
    let ids = active_ids(before);
    let n = ids.len() as int;
    law_scrolling_goes_round_the_list(before, k);
    if k + 1 < n {
        assert((k + 1) % n == k + 1) by (nonlinear_arith)
            requires
                0 <= k + 1 < n,
        ;
    } else {
        assert((k + 1) % n == 0) by (nonlinear_arith)
            requires
                k + 1 == n,
                n > 0,
        ;
    }
    law_selected_is_current(before.tui@.room_selection, next_room(before)->0);
    law_selected_is_current(before.tui@.room_selection, previous_room(before)->0);
}

} // verus!
