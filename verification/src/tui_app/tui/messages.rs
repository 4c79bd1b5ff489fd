//! Showing and selecting the messages of a room.

use vstd::prelude::*;
use vstd::string::*;

use crate::event::{Event, EventContent, MessageEvent};
use crate::text::{chars_of, first_at, same};
use crate::timeline::{
    law_walk_ends_at_the_ends, law_walk_visits_neighbours, walked_ids, CacheView,
    EventWalkResult, EventWalkResultNewest, MessageQuery, NewestView, RoomTimelineCache, WalkView,
};
use crate::tui_app::tui::actions::is_selected;
use crate::tui_app::tui::drawing::{
    draw_event_preview, event_ops, message_ops, preview_ops, Drawing, OpView, EDIT_PREFIX,
    REPLY_PREFIX,
};
use crate::tui_app::tui::{EventDetail, MessageSelection, RoomTuiState, SendMessageType};
use crate::tui_app::{
    lemma_room_changed, lemma_sorted_ids_differ, room_ids, same_but_room, RoomState, State,
};

verus! {

/// A message body without the quoted lines at its start: as long as the body begins with `> `,
/// its first line goes; a line break that the quotation leaves in front goes too.
pub open spec fn stripped(body: Seq<char>) -> Seq<char>
    decreases body.len(),
{
    if body.len() >= 2 && body[0] == '>' && body[1] == ' ' {
        let e = first_at(body, '\n', 0);
        if 0 <= e < body.len() {
            stripped(body.skip(e + 1))
        } else {
            Seq::empty()
        }
    } else if body.len() >= 1 && body[0] == '\n' {
        body.skip(1)
    } else {
        body
    }
}

/// Strips the quotation that precedes an answer.
pub fn strip_body(body: &str) -> (res: &str)
    ensures
        res@ == stripped(body@),
{
    let chars = chars_of(body);
    let len: usize = chars.len();
    let mut at: usize = 0;
    proof {
        assert(chars@.skip(0) =~= body@);
    }
    while len - at >= 2 && chars[at] == '>' && chars[at + 1] == ' '
        invariant
            at <= len,
            len == chars@.len(),
            chars@ == body@,
            stripped(body@) == stripped(chars@.skip(at as int)),
        decreases len - at,
    {
        let ghost rest = chars@.skip(at as int);
        let mut e: usize = at;
        proof {
            assert(first_at(rest, '\n', 0) == first_at(rest, '\n', e - at));
        }
        while e < len && chars[e] != '\n'
            invariant
                at <= e <= len,
                len == chars@.len(),
                rest == chars@.skip(at as int),
                first_at(rest, '\n', 0) == first_at(rest, '\n', e - at),
            decreases len - e,
        {
            e = e + 1;
        }
        if e == len {
            let res = body.substring_char(len, len);
            proof {
                assert(res@ =~= Seq::<char>::empty());
            }
            return res;
        }
        proof {
            assert(rest.skip(e - at + 1) =~= chars@.skip(e + 1));
        }
        at = e + 1;
    }
    let ghost rest = chars@.skip(at as int);
    if at < len && chars[at] == '\n' {
        proof {
            assert(rest.skip(1) =~= chars@.skip(at + 1));
        }
        at = at + 1;
    }
    let res = body.substring_char(at, len);
    proof {
        assert(res@ =~= chars@.skip(at as int));
    }
    res
}

/// The id of the message that is selected, if one is.
pub open spec fn selected_id(selection: MessageSelection) -> Option<Seq<char>> {
    match selection {
        MessageSelection::Newest => None,
        MessageSelection::Specific(id) => Some(id@),
    }
}

/// The message that scrolling backwards selects, if there is one to select.
pub open spec fn selected_before(cache: CacheView, selected: Option<Seq<char>>) -> Option<
    Seq<char>,
> {
    match selected {
        None => match cache.newest() {
            NewestView::Message(id) => Some(id),
            _ => None,
        },
        Some(id) => if cache.events.contains_key(id) {
            match cache.previous(id) {
                WalkView::Message(p) => Some(p),
                _ => None,
            }
        } else {
            None
        },
    }
}

/// The selection that scrolling forwards leads to, if it leads anywhere. Behind the newest message
/// the selection ends.
pub open spec fn selected_after(cache: CacheView, selected: Option<Seq<char>>) -> Option<
    Option<Seq<char>>,
> {
    match selected {
        None => None,
        Some(id) => if cache.events.contains_key(id) {
            match cache.next(id) {
                WalkView::End => Some(None),
                WalkView::Message(n) => Some(Some(n)),
                WalkView::RequiresFetch => None,
            }
        } else {
            None
        },
    }
}

/// Whether two states differ in nothing but the selection in the current room, which is the given
/// one afterwards.
pub open spec fn selection_changed(
    before: State,
    after: State,
    selected: Option<Seq<char>>,
) -> bool {
    let i = before.current_index();
    let room = before.rooms@[i];
    let later = after.rooms@[i];
    &&& same_but_room(before, after, i)
    &&& later == (RoomState {
        tui: RoomTuiState { selection: later.tui.selection, ..room.tui },
        ..room
    })
    &&& selected_id(later.tui.selection) == selected
}

/// Selecting the message before the one that is selected.
pub open spec fn scrolled_backwards(before: State, after: State, res: Result<(), ()>) -> bool {
    let room = before.rooms@[before.current_index()];
    let target = selected_before(room.messages@, selected_id(room.tui.selection));
    if before.current_id() is Some && target is Some {
        res is Ok && selection_changed(before, after, target)
    } else {
        res is Err && after == before
    }
}

/// Selecting the message behind the one that is selected.
pub open spec fn scrolled_forwards(before: State, after: State, res: Result<(), ()>) -> bool {
    let room = before.rooms@[before.current_index()];
    let target = selected_after(room.messages@, selected_id(room.tui.selection));
    if before.current_id() is Some && target is Some {
        res is Ok && selection_changed(before, after, target->0)
    } else {
        res is Err && after == before
    }
}

/// Ending the selection.
pub open spec fn selection_ended(before: State, after: State, res: Result<(), ()>) -> bool {
    let room = before.rooms@[before.current_index()];
    if before.current_id() is Some && !(room.tui.selection is Newest) {
        res is Ok && selection_changed(before, after, None)
    } else {
        res is Err && after == before
    }
}

/// The messages of the current room, for selecting among them.
pub struct MessagesMut<'a>(pub &'a mut State);

/// Sets the selection of a room.
fn set_selection(state: &mut State, i: usize, selection: MessageSelection)
    requires
        old(state).wf(),
        i < old(state).rooms@.len(),
        i == old(state).current_index(),
    ensures
        final(state).wf(),
        selection_changed(*old(state), *final(state), selected_id(selection)),
{
    let ghost before = *state;
    state.rooms[i].tui.selection = selection;
    proof {
        assert(state.rooms@ =~= before.rooms@.update(i as int, state.rooms@[i as int]));
        assert(before.rooms@[i as int].messages.wf());
        lemma_room_changed(before, *state, i as int);
    }
}

/// The message that scrolling backwards selects.
fn message_before(cache: &RoomTimelineCache, selection: &MessageSelection) -> (res: Option<String>)
    requires
        cache.wf(),
    ensures
        match res {
            Some(id) => selected_before(cache@, selected_id(*selection)) == Some(id@),
            None => selected_before(cache@, selected_id(*selection)) is None,
        },
{
    let pos = match selection {
        MessageSelection::Newest => cache.walk_from_newest().message(),
        MessageSelection::Specific(id) => match cache.walk_from_known(id.as_str()).message() {
            Some(pos) => cache.previous(pos).message(),
            None => None,
        },
    };
    match pos {
        Some(pos) => Some(cache.message(pos).event_id().to_owned()),
        None => None,
    }
}

/// The selection that scrolling forwards leads to.
fn selection_after(
    cache: &RoomTimelineCache,
    selection: &MessageSelection,
) -> (res: Option<MessageSelection>)
    requires
        cache.wf(),
    ensures
        match res {
            Some(s) => selected_after(cache@, selected_id(*selection)) == Some(selected_id(s)),
            None => selected_after(cache@, selected_id(*selection)) is None,
        },
{
    match selection {
        MessageSelection::Newest => None,
        MessageSelection::Specific(id) => match cache.walk_from_known(id.as_str()).message() {
            Some(pos) => match cache.next(pos) {
                EventWalkResult::End => Some(MessageSelection::Newest),
                EventWalkResult::Message(pos) => Some(
                    MessageSelection::Specific(cache.message(pos).event_id().to_owned()),
                ),
                EventWalkResult::RequiresFetch => None,
            },
            None => None,
        },
    }
}

fn select_backwards(state: &mut State) -> (res: Result<(), ()>)
    requires
        old(state).wf(),
    ensures
        final(state).wf(),
        scrolled_backwards(*old(state), *final(state), res),
{
    match state.current_room_index() {
        Some(i) => {
            proof {
                assert(state.rooms@[i as int].messages.wf());
            }
            match message_before(&state.rooms[i].messages, &state.rooms[i].tui.selection) {
                Some(id) => {
                    set_selection(state, i, MessageSelection::Specific(id));
                    Ok(())
                },
                None => Err(()),
            }
        },
        None => Err(()),
    }
}

fn select_forwards(state: &mut State) -> (res: Result<(), ()>)
    requires
        old(state).wf(),
    ensures
        final(state).wf(),
        scrolled_forwards(*old(state), *final(state), res),
{
    match state.current_room_index() {
        Some(i) => {
            proof {
                assert(state.rooms@[i as int].messages.wf());
            }
            match selection_after(&state.rooms[i].messages, &state.rooms[i].tui.selection) {
                Some(selection) => {
                    set_selection(state, i, selection);
                    Ok(())
                },
                None => Err(()),
            }
        },
        None => Err(()),
    }
}

fn select_newest(state: &mut State) -> (res: Result<(), ()>)
    requires
        old(state).wf(),
    ensures
        final(state).wf(),
        selection_ended(*old(state), *final(state), res),
{
    match state.current_room_index() {
        Some(i) => {
            if matches!(state.rooms[i].tui.selection, MessageSelection::Newest) {
                return Err(());
            }
            set_selection(state, i, MessageSelection::Newest);
            Ok(())
        },
        None => Err(()),
    }
}

impl<'a> MessagesMut<'a> {
    /// Selects the message before the one that is selected, or the newest one.
    pub fn scroll_backwards(self) -> (res: Result<(), ()>)
        requires
            old(self.0).wf(),
        ensures
            final(self.0).wf(),
            scrolled_backwards(*old(self.0), *final(self.0), res),
    {
        select_backwards(self.0)
    }

    /// Selects the message behind the one that is selected. Behind the newest one the selection
    /// ends.
    pub fn scroll_forwards(self) -> (res: Result<(), ()>)
        requires
            old(self.0).wf(),
        ensures
            final(self.0).wf(),
            scrolled_forwards(*old(self.0), *final(self.0), res),
    {
        select_forwards(self.0)
    }

    /// Ends the selection.
    pub fn scroll_to_end(self) -> (res: Result<(), ()>)
        requires
            old(self.0).wf(),
        ensures
            final(self.0).wf(),
            selection_ended(*old(self.0), *final(self.0), res),
    {
        select_newest(self.0)
    }

    /// Ends the selection.
    pub fn deselect_message(self) -> (res: Result<(), ()>)
        requires
            old(self.0).wf(),
        ensures
            final(self.0).wf(),
            selection_ended(*old(self.0), *final(self.0), res),
    {
        select_newest(self.0)
    }
}

/// Where no event occurs twice, scrolling forwards undoes scrolling backwards: from a selected
/// message back to it, and from the newest message back to no selection.
pub proof fn law_scrolling_forwards_undoes_scrolling_backwards(
    cache: CacheView,
    selected: Option<Seq<char>>,
)
    requires
        cache.valid(),
        cache.walked().items.no_duplicates(),
        selected_before(cache, selected) is Some,
    ensures
        selected_after(cache, selected_before(cache, selected)) == Some(selected),
{
    let s = cache.walked();
    let p = selected_before(cache, selected)->0;
    assert(s.consistent());
    match selected {
        None => {
            let last = s.items.len() - 1;
            assert(p == s.items[last]);
            law_walk_visits_neighbours(s, last);
            assert(cache.events.contains_key(p));
        },
        Some(id) => {
            let i = s.position[id];
            assert(s.position.contains_key(id));
            assert(s.items[i] == id);
            law_walk_visits_neighbours(s, i);
            assert(p == s.items[i - 1]);
            assert(cache.events.contains_key(p));
        },
    }
}

/// Whether all that is known of an event is shown.
pub fn detailed(detail: EventDetail, selected: bool) -> (res: bool)
    ensures
        res == match detail {
            EventDetail::Full => true,
            EventDetail::Reduced => false,
            EventDetail::Selected => selected,
        },
{
    match detail {
        EventDetail::Full => true,
        EventDetail::Reduced => false,
        EventDetail::Selected => selected,
    }
}

/// What stands where events have to be fetched.
pub const MESSAGE_FETCH_SYMBOL: &'static str = "[...]";

/// Where a walk through the timeline is.
pub enum WalkPoint {
    Message(String),
    RequiresFetch,
    End,
}

impl View for WalkPoint {
    type V = WalkView;

    open spec fn view(&self) -> WalkView {
        match *self {
            WalkPoint::Message(id) => WalkView::Message(id@),
            WalkPoint::RequiresFetch => WalkView::RequiresFetch,
            WalkPoint::End => WalkView::End,
        }
    }
}

/// Whether a point of a walk is in a cache.
pub open spec fn is_point(cache: CacheView, at: WalkView) -> bool {
    at matches WalkView::Message(id) ==> cache.events.contains_key(id)
}

/// The point of a walk, apart from the cache.
fn point(cache: &RoomTimelineCache, at: EventWalkResult) -> (res: WalkPoint)
    requires
        cache.wf(),
        is_point(cache@, at@),
    ensures
        res@ == at@,
{
    match at {
        EventWalkResult::Message(id) => WalkPoint::Message(
            cache.message(id).event_id().to_owned(),
        ),
        EventWalkResult::RequiresFetch => WalkPoint::RequiresFetch,
        EventWalkResult::End => WalkPoint::End,
    }
}

/// Rows of a window.
#[derive(Clone, Copy, Debug, PartialEq, Eq, Structural)]
pub struct Rows {
    pub top: i64,
    pub height: i64,
}

/// The layout of messages from the bottom of a window upwards: how much of the window is left above
/// the messages that have their place, and which message is next.
pub struct UpwardLayout {
    pub height: i64,
    pub at: WalkPoint,
}

/// What has to be fetched before a layout can go on upwards.
pub open spec fn upward_query(at: WalkView) -> Option<MessageQuery> {
    if at is RequiresFetch {
        Some(MessageQuery::BeforeCache)
    } else {
        None
    }
}

/// What has to be fetched before a layout can go on downwards.
pub open spec fn downward_query(cache: CacheView, at: WalkView) -> Option<MessageQuery> {
    if at is RequiresFetch {
        Some(
            if cache.end is Reached {
                MessageQuery::BeforeCache
            } else {
                MessageQuery::AfterCache
            },
        )
    } else {
        None
    }
}

/// Giving the next message its place above the others.
pub open spec fn placed_above(
    cache: CacheView,
    before: UpwardLayout,
    h: i64,
    after: UpwardLayout,
    res: Option<Rows>,
) -> bool {
    if h <= before.height {
        let top = (before.height - h) as i64;
        &&& res == Some(Rows { top, height: h })
        &&& after.height == top
        &&& after.at@ == cache.previous(before.at@->Message_0)
    } else {
        &&& res is None
        &&& after.height == before.height
        &&& after.at@ is End
    }
}

impl UpwardLayout {
    /// Gives the next message, which has the given height, its place above the others, and goes on
    /// to the message before it. A message that does not fit ends the layout.
    pub fn place(&mut self, cache: &RoomTimelineCache, h: i64) -> (res: Option<Rows>)
        requires
            cache.wf(),
            old(self).at is Message,
            is_point(cache@, old(self).at@),
            0 <= h,
            0 <= old(self).height,
        ensures
            0 <= final(self).height,
            is_point(cache@, final(self).at@),
            placed_above(cache@, *old(self), h, *final(self), res),
    {
        if h <= self.height {
            let top: i64 = self.height - h;
            let next = match &self.at {
                WalkPoint::Message(id) => match cache.walk_from_known(id.as_str()) {
                    EventWalkResult::Message(pos) => point(cache, cache.previous(pos)),
                    _ => WalkPoint::End,
                },
                _ => WalkPoint::End,
            };
            self.height = top;
            self.at = next;
            Some(Rows { top, height: h })
        } else {
            self.at = WalkPoint::End;
            None
        }
    }

    /// What has to be fetched before the layout can go on.
    pub fn query(&self) -> (res: Option<MessageQuery>)
        ensures
            res == upward_query(self.at@),
    {
        match self.at {
            WalkPoint::RequiresFetch => Some(MessageQuery::BeforeCache),
            _ => None,
        }
    }
}

/// How the newest messages are drawn.
pub struct NewestLayout {
    /// What has to be fetched.
    pub query: Option<MessageQuery>,
    /// The row for the sign that something is fetched.
    pub symbol_row: Option<i64>,
    /// The messages to draw, from the newest one upwards.
    pub messages: Option<UpwardLayout>,
}

/// Whether a layout is that of the newest messages in a window. Where events have to be fetched
/// the bottom row is kept for a sign of it, and the newest messages that are here go above.
pub open spec fn is_newest_layout(cache: CacheView, height: i64, res: NewestLayout) -> bool {
    match cache.newest() {
        NewestView::Message(id) => {
            &&& res.query is None
            &&& res.symbol_row is None
            &&& res.messages matches Some(l) && l.height == height && l.at@ == WalkView::Message(
                id,
            )
        },
        NewestView::End => res.query is None && res.symbol_row is None && res.messages is None,
        NewestView::RequiresFetch(latest) => {
            &&& res.query == Some(
                if cache.end is Reached {
                    MessageQuery::BeforeCache
                } else {
                    MessageQuery::Newest
                },
            )
            &&& res.symbol_row == Some(
                if height >= 1 {
                    (height - 1) as i64
                } else {
                    0
                },
            )
            &&& match latest {
                Some(id) if height >= 1 => res.messages matches Some(l) && l.height == height - 1
                    && l.at@ == WalkView::Message(id),
                _ => res.messages is None,
            }
        },
    }
}

/// Lays the newest messages out in a window.
pub fn draw_newest(cache: &RoomTimelineCache, height: i64) -> (res: NewestLayout)
    requires
        cache.wf(),
        0 <= height,
    ensures
        is_newest_layout(cache@, height, res),
        res.messages matches Some(l) ==> is_point(cache@, l.at@),
{
    match cache.walk_from_newest() {
        EventWalkResultNewest::Message(m) => NewestLayout {
            query: None,
            symbol_row: None,
            messages: Some(
                UpwardLayout { height, at: point(cache, EventWalkResult::Message(m)) },
            ),
        },
        EventWalkResultNewest::End => NewestLayout {
            query: None,
            symbol_row: None,
            messages: None,
        },
        EventWalkResultNewest::RequiresFetch(latest) => {
            // Where the newest events are here but none of them is shown, older ones are needed.
            let query = if cache.reached_newest() {
                MessageQuery::BeforeCache
            } else {
                MessageQuery::Newest
            };
            if height >= 1 {
                let messages = match latest {
                    Some(m) => Some(
                        UpwardLayout {
                            height: height - 1,
                            at: point(cache, EventWalkResult::Message(m)),
                        },
                    ),
                    None => None,
                };
                NewestLayout { query: Some(query), symbol_row: Some(height - 1), messages }
            } else {
                NewestLayout { query: Some(query), symbol_row: Some(0), messages: None }
            }
        },
    }
}

/// The measuring of the messages from the selected one downwards: how many rows they take so far,
/// and which message is measured next. It ends once they take more than half of the window.
pub struct Measuring {
    pub window: i64,
    pub collected: i64,
    pub at: WalkPoint,
}

/// Adding the height of a message that was measured.
pub open spec fn measured(cache: CacheView, before: Measuring, h: i64, after: Measuring) -> bool {
    let total = before.collected + h;
    let next = cache.next(before.at@->Message_0);
    if total > before.window / 2 {
        after.collected == total && after.at@ is End
    } else if next is RequiresFetch {
        after.collected == total + 1 && after.at@ is End
    } else {
        after.collected == total && after.at@ == next
    }
}

impl Measuring {
    /// Starts at the selected message. If it is not in the cache, a row is kept for the sign that
    /// something is fetched.
    pub fn new(cache: &RoomTimelineCache, selected: &str, window: i64) -> (res: Measuring)
        requires
            cache.wf(),
            0 <= window <= 0x7fff_ffff,
        ensures
            res.window == window,
            if cache@.events.contains_key(selected@) {
                res.collected == 0 && res.at@ == WalkView::Message(selected@)
            } else {
                res.collected == 1 && res.at@ is End
            },
    {
        match cache.walk_from_known(selected) {
            EventWalkResult::Message(m) => Measuring {
                window,
                collected: 0,
                at: point(cache, EventWalkResult::Message(m)),
            },
            _ => Measuring { window, collected: 1, at: WalkPoint::End },
        }
    }

    /// Adds the height of the message that was measured, and goes on to the one behind it.
    pub fn add(&mut self, cache: &RoomTimelineCache, h: i64)
        requires
            cache.wf(),
            old(self).at is Message,
            is_point(cache@, old(self).at@),
            0 <= h <= 0x7fff_ffff,
            0 <= old(self).window <= 0x7fff_ffff,
            0 <= old(self).collected <= old(self).window,
        ensures
            final(self).window == old(self).window,
            is_point(cache@, final(self).at@),
            measured(cache@, *old(self), h, *final(self)),
    {
        let next = match &self.at {
            WalkPoint::Message(id) => match cache.walk_from_known(id.as_str()) {
                EventWalkResult::Message(pos) => point(cache, cache.next(pos)),
                _ => WalkPoint::End,
            },
            _ => WalkPoint::End,
        };
        let ghost total = self.collected + h;
        self.collected = self.collected + h;
        if self.collected > self.window / 2 {
            self.at = WalkPoint::End;
        } else if matches!(next, WalkPoint::RequiresFetch) {
            self.collected = self.collected + 1;
            self.at = WalkPoint::End;
        } else {
            self.at = next;
        }
    }
}

/// The layout of messages downwards: the rows that are left below the messages that have their
/// place, and which message is next.
pub struct DownwardLayout {
    pub left: Rows,
    pub at: WalkPoint,
}

/// How the messages around a selected one are drawn.
pub struct SpecificLayout {
    /// The messages above the selected one, if there is room for them.
    pub above: Option<UpwardLayout>,
    /// The selected message and those below it.
    pub below: DownwardLayout,
}

/// Whether a layout is that of the messages around a selected one in a window, where some rows are
/// wanted from the selected one on.
pub open spec fn is_specific_layout(
    cache: CacheView,
    selected: Seq<char>,
    window: i64,
    collected: i64,
    res: SpecificLayout,
) -> bool {
    let known = cache.events.contains_key(selected);
    &&& match res.above {
        Some(l) => collected <= window && known && l.height == window - collected && l.at@
            == cache.previous(selected) && is_point(cache, l.at@),
        None => collected > window || !known,
    }
    &&& res.below.left == (if collected <= window {
        Rows { top: (window - collected) as i64, height: collected }
    } else {
        Rows { top: 0, height: window }
    })
    &&& res.below.at@ == (if known {
        WalkView::Message(selected)
    } else {
        WalkView::RequiresFetch
    })
    &&& is_point(cache, res.below.at@)
}

/// Lays the messages around a selected one out in a window, once it is known how many rows are
/// wanted from the selected one on. Those that are above it get what is left. Where more rows are
/// wanted than there are, those from the selected one on get the whole window.
pub fn draw_specific(
    cache: &RoomTimelineCache,
    selected: &str,
    window: i64,
    collected: i64,
) -> (res: SpecificLayout)
    requires
        cache.wf(),
        0 <= window,
        0 <= collected,
    ensures
        is_specific_layout(cache@, selected@, window, collected, res),
{
    let start = cache.walk_from_known(selected);
    let left = if collected <= window {
        Rows { top: window - collected, height: collected }
    } else {
        Rows { top: 0, height: window }
    };
    let above = if collected <= window {
        match start {
            EventWalkResult::Message(pos) => Some(
                UpwardLayout { height: window - collected, at: point(cache, cache.previous(pos)) },
            ),
            _ => None,
        }
    } else {
        None
    };
    SpecificLayout { above, below: DownwardLayout { left, at: point(cache, start) } }
}

/// Giving the next message its place below the others.
pub open spec fn placed_below(
    cache: CacheView,
    before: DownwardLayout,
    h: i64,
    selected: Seq<char>,
    after: DownwardLayout,
    res: Option<(Rows, bool)>,
) -> bool {
    &&& after.left.top + after.left.height == before.left.top + before.left.height
    &&& if h <= before.left.height {
        let id = before.at@->Message_0;
        &&& res == Some((Rows { top: before.left.top, height: h }, id == selected))
        &&& after.left.top == before.left.top + h
        &&& after.at@ == cache.next(id)
    } else {
        &&& res is None
        &&& after.left == before.left
        &&& after.at@ is End
    }
}

impl DownwardLayout {
    /// Gives the next message, which has the given height, its place below the others, and goes on
    /// to the message behind it. A message that does not fit ends the layout. Whether the message
    /// is the selected one is told with its place.
    pub fn place(&mut self, cache: &RoomTimelineCache, h: i64, selected: &str) -> (res: Option<
        (Rows, bool),
    >)
        requires
            cache.wf(),
            old(self).at is Message,
            is_point(cache@, old(self).at@),
            0 <= h,
            0 <= old(self).left.top,
            0 <= old(self).left.height,
            old(self).left.top + old(self).left.height <= i64::MAX,
        ensures
            0 <= final(self).left.top,
            0 <= final(self).left.height,
            is_point(cache@, final(self).at@),
            placed_below(cache@, *old(self), h, selected@, *final(self), res),
    {
        if h <= self.left.height {
            let top: i64 = self.left.top;
            let mut is_selected = false;
            let next = match &self.at {
                WalkPoint::Message(id) => {
                    is_selected = same(id.as_str(), selected);
                    match cache.walk_from_known(id.as_str()) {
                        EventWalkResult::Message(pos) => point(cache, cache.next(pos)),
                        _ => WalkPoint::End,
                    }
                },
                _ => WalkPoint::End,
            };
            self.left = Rows { top: top + h, height: self.left.height - h };
            self.at = next;
            Some((Rows { top, height: h }, is_selected))
        } else {
            self.at = WalkPoint::End;
            None
        }
    }

    /// What has to be fetched before the layout can go on. Where the newest event is here, the
    /// events that are looked for lie before the cache.
    pub fn query(&self, cache: &RoomTimelineCache) -> (res: Option<MessageQuery>)
        ensures
            res == downward_query(cache@, self.at@),
    {
        match self.at {
            WalkPoint::RequiresFetch => Some(
                if cache.reached_newest() {
                    MessageQuery::BeforeCache
                } else {
                    MessageQuery::AfterCache
                },
            ),
            _ => None,
        }
    }
}

/// The steps that draw the preview above the line in which a message is written.
pub open spec fn edit_preview(room: RoomState) -> Option<Seq<OpView>> {
    match room.tui.msg_edit_type {
        SendMessageType::Simple => None,
        SendMessageType::Reply(_, m) => Some(
            preview_ops(
                REPLY_PREFIX@,
                message_ops(room, m.event_id@, m.sender@, m.message, true),
            ),
        ),
        SendMessageType::Edit(_, m) => Some(
            preview_ops(
                EDIT_PREFIX@,
                message_ops(room, m.event_id@, m.sender@, m.message, true),
            ),
        ),
    }
}

/// The preview above the line in which a message is written: of the message that it answers to or
/// replaces.
pub fn msg_edit_preview(room_state: &RoomState) -> (res: Option<Drawing>)
    requires
        room_state.messages.wf(),
    ensures
        match edit_preview(*room_state) {
            Some(ops) => res matches Some(d) && d@ == ops,
            None => res is None,
        },
{
    match &room_state.tui.msg_edit_type {
        SendMessageType::Simple => None,
        SendMessageType::Reply(_, m) => {
            let mut out = Drawing::new();
            draw_event_preview(REPLY_PREFIX, m, room_state, &mut out);
            proof {
                assert(out@ =~= preview_ops(
                    REPLY_PREFIX@,
                    message_ops(*room_state, m.event_id@, m.sender@, m.message, true),
                ));
            }
            Some(out)
        },
        SendMessageType::Edit(_, m) => {
            let mut out = Drawing::new();
            draw_event_preview(EDIT_PREFIX, m, room_state, &mut out);
            proof {
                assert(out@ =~= preview_ops(
                    EDIT_PREFIX@,
                    message_ops(*room_state, m.event_id@, m.sender@, m.message, true),
                ));
            }
            Some(out)
        },
    }
}

/// The messages of the current room.
pub struct Messages<'a>(pub &'a State);

/// How the drawing of messages begins.
pub enum MessagesLayout {
    /// There is no current room.
    Nothing,
    /// The newest messages are drawn.
    Newest(NewestLayout),
    /// The messages around a selected one are drawn, once they are measured.
    Specific(String, Measuring),
}

/// Beginning to draw the messages of the current room in a window.
pub open spec fn drawing_begun(state: State, height: i64, res: MessagesLayout) -> bool {
    let room = state.rooms@[state.current_index()];
    if state.current_id() is None {
        res is Nothing
    } else {
        match room.tui.selection {
            MessageSelection::Newest => res matches MessagesLayout::Newest(l) && is_newest_layout(
                room.messages@,
                height,
                l,
            ),
            MessageSelection::Specific(id) => res matches MessagesLayout::Specific(s, m) && s@
                == id@ && m.window == height && (if room.messages@.events.contains_key(id@) {
                m.collected == 0 && m.at@ == WalkView::Message(id@)
            } else {
                m.collected == 1 && m.at@ is End
            }),
        }
    }
}

impl<'a> Messages<'a> {
    /// Begins to draw the messages of the current room in a window.
    pub fn draw(self, height: i64) -> (res: MessagesLayout)
        requires
            self.0.wf(),
            0 <= height <= 0x7fff_ffff,
        ensures
            drawing_begun(*self.0, height, res),
    {
        match self.0.current_room_state() {
            None => MessagesLayout::Nothing,
            Some(current) => {
                proof {
                    assert(self.0.rooms@[self.0.current_index()].messages.wf());
                }
                match &current.tui.selection {
                    MessageSelection::Newest => MessagesLayout::Newest(
                        draw_newest(&current.messages, height),
                    ),
                    MessageSelection::Specific(id) => MessagesLayout::Specific(
                        id.clone(),
                        Measuring::new(&current.messages, id.as_str(), height),
                    ),
                }
            },
        }
    }
}

proof fn lemma_first_break(line: Seq<char>, rest: Seq<char>, from: int)
    requires
        0 <= from <= line.len(),
        !line.contains('\n'),
    ensures
        first_at(line + seq!['\n'] + rest, '\n', from) == line.len(),
        first_at(line, '\n', from) == line.len(),
    decreases line.len() - from,
{
    let all = line + seq!['\n'] + rest;
    if from < line.len() {
        assert(all[from] == line[from]);
        assert(line.contains(line[from]));
        lemma_first_break(line, rest, from + 1);
    } else {
        assert(all[from] == '\n');
    }
}

/// Lines that are quoted, one below the other.
pub open spec fn quotation(lines: Seq<Seq<char>>) -> Seq<char>
    decreases lines.len(),
{
    if lines.len() == 0 {
        Seq::empty()
    } else {
        seq!['>', ' '] + lines[0] + seq!['\n'] + quotation(lines.skip(1))
    }
}

/// A quoted line at the start of a body goes with the line break behind it, whatever follows. A body
/// that is nothing but a quoted line has nothing left.
pub proof fn law_quoted_line_goes(line: Seq<char>, rest: Seq<char>)
    requires
        !line.contains('\n'),
    ensures
        stripped(seq!['>', ' '] + line + seq!['\n'] + rest) == stripped(rest),
        stripped(seq!['>', ' '] + line) == Seq::<char>::empty(),
{
    let first = seq!['>', ' '] + line;
    assert(first[0] == '>' && first[1] == ' ');
    assert(!first.contains('\n')) by {
        if first.contains('\n') {
            let k = choose|k: int| 0 <= k < first.len() && first[k] == '\n';
            assert(line[k - 2] == '\n');
        }
    }
    lemma_first_break(first, rest, 0);
    let body = first + seq!['\n'] + rest;
    assert(body[0] == '>' && body[1] == ' ');
    assert(body.skip((first.len() + 1) as int) =~= rest);
}

/// What is shown of an answer is what was written below the quotation, however many lines that has,
/// with or without an empty line in between. Quotations further down stay, and so does a body
/// without a quotation.
pub proof fn law_answer_is_shown_without_quotation(lines: Seq<Seq<char>>, text: Seq<char>)
    requires
        forall|i: int| 0 <= i < lines.len() ==> !(#[trigger] lines[i]).contains('\n'),
    ensures
        stripped(quotation(lines) + seq!['\n'] + text) == text,
        !(text.len() >= 2 && text[0] == '>' && text[1] == ' ') && !(text.len() >= 1 && text[0]
            == '\n') ==> stripped(quotation(lines) + text) == text,
    decreases lines.len(),
{
    let gap = seq!['\n'] + text;
    assert(quotation(lines) + seq!['\n'] + text =~= quotation(lines) + gap);
    if lines.len() == 0 {
        assert(quotation(lines) + gap =~= gap);
        assert(quotation(lines) + text =~= text);
        assert(gap[0] == '\n');
        assert(gap.skip(1) =~= text);
    } else {
        let rest = lines.skip(1);
        let first = seq!['>', ' '] + lines[0] + seq!['\n'];
        assert forall|i: int| 0 <= i < rest.len() implies !(#[trigger] rest[i]).contains('\n') by {
            assert(rest[i] == lines[i + 1]);
        }
        law_answer_is_shown_without_quotation(rest, text);
        assert(quotation(rest) + seq!['\n'] + text =~= quotation(rest) + gap);
        assert(quotation(lines) + gap =~= first + (quotation(rest) + gap));
        assert(quotation(lines) + text =~= first + (quotation(rest) + text));
        law_quoted_line_goes(lines[0], quotation(rest) + gap);
        law_quoted_line_goes(lines[0], quotation(rest) + text);
    }
}

/// The selection moves along the messages that are walked through: backwards from none to the
/// newest and on to the one before, forwards to the one behind, and behind the newest one to none.
/// Where a message is missing in the cache it stays.
pub proof fn law_selection_moves_along_the_timeline(
    before: State,
    i: int,
    k: int,
    after: State,
    res: Result<(), ()>,
)
    requires
        before.wf(),
        0 <= i < before.rooms@.len(),
        before.tui@.room_selection.current_room() == Some(before.rooms@[i].id@),
        walked_ids(before.rooms@[i].messages@).no_duplicates(),
        0 <= k < walked_ids(before.rooms@[i].messages@).len(),
    ensures
        ({
            let room = before.rooms@[i];
            let later = after.rooms@[i].tui.selection;
            let ids = walked_ids(room.messages@);
            &&& is_selected(before, i, ids[k]) && scrolled_backwards(before, after, res) ==> if k
                > 0 {
                res is Ok && is_selected(after, i, ids[k - 1])
            } else {
                res is Err && after == before
            }
            &&& is_selected(before, i, ids[k]) && scrolled_forwards(before, after, res) ==> if k + 1
                < ids.len() {
                res is Ok && is_selected(after, i, ids[k + 1])
            } else if room.messages@.end is Reached {
                res is Ok && later is Newest
            } else {
                res is Err && after == before
            }
            &&& room.tui.selection is Newest && scrolled_backwards(before, after, res) ==> if
            room.messages@.end is Reached {
                res is Ok && is_selected(after, i, ids.last())
            } else {
                res is Err && after == before
            }
            &&& room.tui.selection is Newest && scrolled_forwards(before, after, res) ==> res is Err
                && after == before
            &&& selection_ended(before, after, res) ==> later is Newest && (res is Ok <==> !(
            room.tui.selection is Newest))
        }),
{
    let room = before.rooms@[i];
    let cache = room.messages@;
    let ids = walked_ids(cache);
    let rooms = room_ids(before.rooms@);
    let at = before.current_index();
    assert(rooms[i] == room.id@);
    assert(rooms.contains(rooms[i]));
    assert(rooms[at] == rooms[i]);
    if at != i {
        lemma_sorted_ids_differ(rooms, at, i);
    }
    assert(room.messages.wf());
    assert(cache.valid());
    assert(cache.walked().items == ids);
    law_walk_ends_at_the_ends(cache, k);
    assert(cache.walked().position.contains_key(ids[k]));
    assert(cache.events.contains_key(ids[k]));
}

/// Upwards, messages have their places directly above each other, from the bottom of what is left of
/// the window, and the message above another one is the one before it. None reaches beyond the top.
pub proof fn law_messages_are_stacked_upwards(
    cache: CacheView,
    k: int,
    first: UpwardLayout,
    h: i64,
    second: UpwardLayout,
    lower: Option<Rows>,
    g: i64,
    third: UpwardLayout,
    upper: Option<Rows>,
)
    requires
        cache.valid(),
        walked_ids(cache).no_duplicates(),
        0 <= k < walked_ids(cache).len(),
        first.at@ == WalkView::Message(walked_ids(cache)[k]),
        0 <= first.height,
        0 <= h,
        0 <= g,
        placed_above(cache, first, h, second, lower),
        second.at is Message ==> placed_above(cache, second, g, third, upper),
    ensures
        lower is Some <==> h <= first.height,
        lower matches Some(r) ==> r.height == h && r.top + r.height == first.height && 0 <= r.top,
        lower is None ==> second.at@ is End,
        lower is Some && k > 0 ==> second.at@ == WalkView::Message(walked_ids(cache)[k - 1]),
        lower is Some && k == 0 ==> (second.at@ is End <==> cache.begin is Reached) && (
        second.at@ is RequiresFetch <==> cache.begin is Open),
        second.at is Message ==> (lower matches Some(r) && (upper matches Some(u) ==> u.top + u.height
            == r.top && u.height == g && 0 <= u.top)),
{
    law_walk_ends_at_the_ends(cache, k);
}

/// Downwards, messages have their places directly below each other, from the top of what is left,
/// and the message below another one is the one behind it. None reaches beyond the rows that are
/// left. The mark is that of the selected message.
pub proof fn law_messages_are_stacked_downwards(
    cache: CacheView,
    k: int,
    selected: Seq<char>,
    first: DownwardLayout,
    h: i64,
    second: DownwardLayout,
    upper: Option<(Rows, bool)>,
)
    requires
        cache.valid(),
        walked_ids(cache).no_duplicates(),
        0 <= k < walked_ids(cache).len(),
        first.at@ == WalkView::Message(walked_ids(cache)[k]),
        0 <= h,
        placed_below(cache, first, h, selected, second, upper),
    ensures
        upper is Some <==> h <= first.left.height,
        upper matches Some((r, marked)) ==> {
            &&& r.top == first.left.top
            &&& r.height == h
            &&& second.left.top == r.top + r.height
            &&& second.left.height == first.left.height - h
            &&& marked <==> selected == walked_ids(cache)[k]
        },
        upper is None ==> second.at@ is End,
        upper is Some && k + 1 < walked_ids(cache).len() ==> second.at@ == WalkView::Message(
            walked_ids(cache)[k + 1],
        ),
        upper is Some && k + 1 == walked_ids(cache).len() ==> (second.at@ is End
            <==> cache.end is Reached) && (second.at@ is RequiresFetch <==> cache.end is Open),
{
    law_walk_ends_at_the_ends(cache, k);
}

/// The messages above the selected one and those from it on share the window without a gap: the
/// former end where the latter begin, and the latter end at the bottom.
pub proof fn law_window_is_shared(
    cache: CacheView,
    k: int,
    window: i64,
    collected: i64,
    layout: SpecificLayout,
)
    requires
        cache.valid(),
        walked_ids(cache).no_duplicates(),
        0 <= k < walked_ids(cache).len(),
        0 <= window,
        0 <= collected,
        is_specific_layout(cache, walked_ids(cache)[k], window, collected, layout),
    ensures
        layout.below.left.top + layout.below.left.height == window,
        layout.below.left.top >= 0,
        layout.below.left.height == (if collected <= window {
            collected
        } else {
            window
        }),
        layout.below.at@ == WalkView::Message(walked_ids(cache)[k]),
        layout.above matches Some(above) ==> above.height == layout.below.left.top && (k > 0
            ==> above.at@ == WalkView::Message(walked_ids(cache)[k - 1])),
        layout.above is None <==> collected > window,
{
    law_walk_ends_at_the_ends(cache, k);
    assert(cache.walked().items == walked_ids(cache));
    assert(cache.walked().position.contains_key(walked_ids(cache)[k]));
    assert(cache.events.contains_key(walked_ids(cache)[k]));
}

/// The heights from the selected message on are added up, one message after the other, until they
/// take more than half of the window. A row is added where the next message is still missing.
pub proof fn law_half_of_the_window_is_measured(
    cache: CacheView,
    k: int,
    before: Measuring,
    h: i64,
    after: Measuring,
)
    requires
        cache.valid(),
        walked_ids(cache).no_duplicates(),
        0 <= k < walked_ids(cache).len(),
        before.at@ == WalkView::Message(walked_ids(cache)[k]),
        0 <= before.window,
        0 <= before.collected,
        0 <= h,
        measured(cache, before, h, after),
    ensures
        2 * (before.collected + h) > before.window ==> after.at@ is End && after.collected
            == before.collected + h,
        2 * (before.collected + h) <= before.window ==> if k + 1 < walked_ids(cache).len() {
            after.at@ == WalkView::Message(walked_ids(cache)[k + 1]) && after.collected
                == before.collected + h
        } else {
            after.at@ is End && after.collected == before.collected + h + (if cache.end is Open {
                1int
            } else {
                0int
            })
        },
{
    law_walk_ends_at_the_ends(cache, k);
}

/// In a window for the newest messages, what is fetched is told in the bottom row, and the messages
/// that are here fill the rows above it from the newest one on. Where nothing is missing they fill
/// the whole window.
pub proof fn law_newest_messages_are_at_the_bottom(cache: CacheView, height: i64, res: NewestLayout)
    requires
        cache.valid(),
        walked_ids(cache).no_duplicates(),
        0 < height,
        is_newest_layout(cache, height, res),
    ensures
        walked_ids(cache).len() > 0 ==> {
            &&& res.messages matches Some(l) && l.at@ == WalkView::Message(walked_ids(cache).last())
                && l.height == (if cache.end is Reached {
                height as int
            } else {
                height - 1
            })
            &&& res.query == (if cache.end is Reached {
                None
            } else {
                Some(MessageQuery::Newest)
            })
        },
        walked_ids(cache).len() == 0 ==> res.messages is None && (res.query is None
            <==> cache.end is Reached && cache.begin is Reached),
        res.query is Some <==> res.symbol_row is Some,
        res.symbol_row matches Some(row) ==> row == height - 1,
        walked_ids(cache).len() == 0 && cache.end is Reached && cache.begin is Open ==> res.query
            == Some(MessageQuery::BeforeCache),
{
    law_walk_ends_at_the_ends(cache, 0);
}

/// Above the line in which an answer or a new version is written stands the message that it is for,
/// in one line, without what that one answers to. Above an ordinary message stands nothing.
pub proof fn law_written_for_is_shown(room: RoomState, e: String, m: MessageEvent, event: Event)
    requires
        event.content == EventContent::Message(m.message),
        event.sender == m.sender,
        event.event_id == m.event_id,
    ensures
        room.tui.msg_edit_type is Simple ==> edit_preview(room) is None,
        room.tui.msg_edit_type == SendMessageType::Reply(e, m) || room.tui.msg_edit_type
            == SendMessageType::Edit(e, m) ==> {
            &&& edit_preview(room) matches Some(ops)
            &&& ops.len() > 3
            &&& ops[0] is PreviewStart && ops.last() is PreviewEnd
            &&& ops[1] == OpView::Text(
                if room.tui.msg_edit_type is Reply {
                    REPLY_PREFIX@
                } else {
                    EDIT_PREFIX@
                },
            )
            &&& seq![OpView::SaveStyle] + ops.subrange(2, ops.len() - 1) + seq![
                OpView::RestoreStyle,
            ] == event_ops(room, event, true)
        },
{
    if let Some(ops) = edit_preview(room) {
        let shown = message_ops(room, m.event_id@, m.sender@, m.message, true);
        if room.tui.msg_edit_type == SendMessageType::Reply(e, m) || room.tui.msg_edit_type
            == SendMessageType::Edit(e, m) {
            assert(ops.subrange(2, ops.len() - 1) =~= shown);
        }
    }
}

/// The messages are drawn around the selected one where one is selected, starting to measure at it,
/// and from the newest one up where none is. A selected message that is not here takes a row for
/// the sign that it is fetched.
pub proof fn law_drawing_begins_at_the_selection(
    state: State,
    i: int,
    k: int,
    height: i64,
    res: MessagesLayout,
)
    requires
        state.wf(),
        0 <= i < state.rooms@.len(),
        state.tui@.room_selection.current_room() == Some(state.rooms@[i].id@),
        walked_ids(state.rooms@[i].messages@).no_duplicates(),
        0 <= k < walked_ids(state.rooms@[i].messages@).len(),
        0 < height,
        drawing_begun(state, height, res),
    ensures
        ({
            let room = state.rooms@[i];
            let ids = walked_ids(room.messages@);
            &&& is_selected(state, i, ids[k]) ==> (res matches MessagesLayout::Specific(s, m) && s@
                == ids[k] && m.window == height && m.collected == 0 && m.at@ == WalkView::Message(
                ids[k],
            ))
            &&& (room.tui.selection matches MessageSelection::Specific(s)
                && !room.messages@.events.contains_key(s@)) ==> (
            res matches MessagesLayout::Specific(_, m) && m.collected == 1 && m.at@ is End)
            &&& room.tui.selection is Newest ==> (res matches MessagesLayout::Newest(l) && (
            l.messages matches Some(up) && up.at@ == WalkView::Message(ids.last()) && up.height
                == (if room.messages@.end is Reached {
                height as int
            } else {
                height - 1
            })))
        }),
{
    let room = state.rooms@[i];
    let cache = room.messages@;
    let ids = walked_ids(cache);
    let rooms = room_ids(state.rooms@);
    let at = state.current_index();
    assert(rooms[i] == room.id@);
    assert(rooms.contains(rooms[i]));
    assert(rooms[at] == rooms[i]);
    if at != i {
        lemma_sorted_ids_differ(rooms, at, i);
    }
    assert(room.messages.wf());
    assert(cache.walked().items == ids);
    assert(cache.walked().position.contains_key(ids[k]));
    assert(cache.events.contains_key(ids[k]));
    if let MessagesLayout::Newest(l) = res {
        law_newest_messages_are_at_the_bottom(cache, height, l);
    }
}

/// Where a layout comes to an end of the cache that is no end of the timeline, the events behind
/// that end are fetched, and else nothing is. Events around a selected message that is not here are
/// looked for before the cache where the newest event is here, and behind it else.
pub proof fn law_missing_messages_are_fetched(
    cache: CacheView,
    k: int,
    selected: Seq<char>,
    window: i64,
    collected: i64,
    layout: SpecificLayout,
)
    requires
        cache.valid(),
        walked_ids(cache).no_duplicates(),
        0 <= k < walked_ids(cache).len(),
        !cache.events.contains_key(selected),
        0 <= window,
        0 <= collected,
        is_specific_layout(cache, selected, window, collected, layout),
    ensures
        ({
            let ids = walked_ids(cache);
            &&& upward_query(cache.previous(ids[k])) == (if k == 0 && cache.begin is Open {
                Some(MessageQuery::BeforeCache)
            } else {
                None
            })
            &&& downward_query(cache, cache.next(ids[k])) == (if k + 1 == ids.len()
                && cache.end is Open {
                Some(MessageQuery::AfterCache)
            } else {
                None
            })
            &&& layout.above is None
            &&& downward_query(cache, layout.below.at@) == Some(
                if cache.end is Reached {
                    MessageQuery::BeforeCache
                } else {
                    MessageQuery::AfterCache
                },
            )
        }),
{
    law_walk_ends_at_the_ends(cache, k);
}

} // verus!
