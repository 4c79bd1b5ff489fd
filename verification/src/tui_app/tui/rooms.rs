//! The list of rooms.

use unsegen::widget::text_width;
use vstd::prelude::*;

use crate::text::{
    contains, contains_text, decimal, joined, law_decimal_stands_for_the_number,
    lemma_before_irreflexive, lemma_u64_digits, lowercase, occurs_at, same, text_before,
    text_of_decimal, to_lowercase, value_of,
};
use crate::tui_app::colors::Color;
use crate::tui_app::tui::history::law_selected_is_current;
use crate::tui_app::tui::{is_room_filter, BuiltinMode};
use crate::tui_app::{has_room, lemma_sorted_ids_differ, room_ids, RoomState, State};

verus! {

/// What `unsegen::widget::text_width` returns for a text.
pub uninterp spec fn cells(s: Seq<char>) -> i32;

/// Calls `unsegen::widget::text_width`. The claim is that the result depends on the text alone. A
/// text that needs more columns than an `i32` can count makes it panic; no character needs more
/// than a few.
#[verifier::external_body]
fn count_cells(s: &str) -> (res: i32)
    requires
        s@.len() <= 0x1000_0000,
    ensures
        res == cells(s@),
{
    text_width(s).raw_value()
}

/// Whether a room is shown under a filter. A filter in lower case ignores case.
pub open spec fn passes(
    name: Seq<char>,
    has_unread: bool,
    filter: Seq<char>,
    only_with_unread: bool,
) -> bool {
    &&& if filter != lowercase(filter) {
        contains_text(name, filter)
    } else {
        contains_text(lowercase(name), lowercase(filter))
    }
    &&& !(only_with_unread && !has_unread)
}

/// Whether a room is shown.
pub open spec fn is_active(state: State, i: int) -> bool {
    passes(
        state.rooms@[i].name@,
        state.rooms@[i].num_unread_notifications > 0,
        state.tui@.room_filter_line,
        state.tui@.mode().builtin() is RoomFilterUnread,
    )
}

/// The places of the rooms that are shown, among the first `n`.
pub open spec fn active_up_to(state: State, n: int) -> Seq<int>
    decreases n,
{
    if n <= 0 {
        Seq::empty()
    } else if is_active(state, n - 1) {
        active_up_to(state, n - 1).push(n - 1)
    } else {
        active_up_to(state, n - 1)
    }
}

/// The ids of the rooms that are shown, in order.
pub open spec fn active_ids(state: State) -> Seq<Seq<char>> {
    let active = active_up_to(state, state.rooms@.len() as int);
    Seq::new(active.len(), |k: int| state.rooms@[active[k]].id@)
}

proof fn lemma_active_up_to(state: State, n: int)
    requires
        0 <= n <= state.rooms@.len(),
    ensures
        forall|k: int|
            0 <= k < active_up_to(state, n).len() ==> 0 <= #[trigger] active_up_to(state, n)[k]
                < n && is_active(state, active_up_to(state, n)[k]),
        forall|i: int|
            0 <= i < n && is_active(state, i) ==> active_up_to(state, n).contains(i),
    decreases n,
{
    if n > 0 {
        lemma_active_up_to(state, n - 1);
        let part = active_up_to(state, n - 1);
        let whole = active_up_to(state, n);
        assert forall|i: int| 0 <= i < n && is_active(state, i) implies whole.contains(i) by {
            if i < n - 1 {
                let k = choose|k: int| 0 <= k < part.len() && part[k] == i;
                assert(whole[k] == i);
            } else {
                assert(whole[part.len() as int] == i);
            }
        }
    }
}

/// The id that follows `current` in a list, going round. A `current` that is not in the list is
/// followed by the first id, or by itself where the list is empty.
pub open spec fn following(ids: Seq<Seq<char>>, current: Seq<char>) -> Seq<char> {
    let k = first_place(ids, current, 0);
    if k + 1 < ids.len() {
        ids[k + 1]
    } else if ids.len() > 0 {
        ids[0]
    } else {
        current
    }
}

/// The first place of an id in a list at or after `from`, or the length of the list.
pub open spec fn first_place(ids: Seq<Seq<char>>, id: Seq<char>, from: int) -> int
    decreases ids.len() - from,
{
    if from >= ids.len() {
        ids.len() as int
    } else if ids[from] == id {
        from
    } else {
        first_place(ids, id, from + 1)
    }
}

/// The room that scrolling forwards selects.
pub open spec fn next_room(state: State) -> Option<Seq<char>> {
    match state.current_id() {
        Some(current) => Some(following(active_ids(state), current)),
        None => if state.rooms@.len() > 0 {
            Some(state.rooms@[0].id@)
        } else {
            None
        },
    }
}

/// The room that scrolling backwards selects.
pub open spec fn previous_room(state: State) -> Option<Seq<char>> {
    match state.current_id() {
        Some(current) => Some(following(active_ids(state).reverse(), current)),
        None => if state.rooms@.len() > 0 {
            Some(state.rooms@.last().id@)
        } else {
            None
        },
    }
}

proof fn lemma_first_place(ids: Seq<Seq<char>>, id: Seq<char>, from: int)
    requires
        0 <= from <= ids.len(),
    ensures
        from <= first_place(ids, id, from) <= ids.len(),
        first_place(ids, id, from) < ids.len() ==> ids[first_place(ids, id, from)] == id,
        forall|j: int| from <= j < first_place(ids, id, from) ==> #[trigger] ids[j] != id,
    decreases ids.len() - from,
{
    if from < ids.len() && ids[from] != id {
        lemma_first_place(ids, id, from + 1);
    }
}

/// Every shown room is a known one.
proof fn lemma_active_known(state: State, k: int)
    requires
        0 <= k < active_ids(state).len(),
    ensures
        has_room(state.rooms@, active_ids(state)[k]),
{
    let n = state.rooms@.len() as int;
    lemma_active_up_to(state, n);
    let i = active_up_to(state, n)[k];
    assert(room_ids(state.rooms@)[i] == active_ids(state)[k]);
}

/// The id that follows `current` in a list, going round.
fn follow(ids: &Vec<String>, current: &str) -> (res: String)
    ensures
        res@ == following(Seq::new(ids@.len(), |k: int| ids@[k]@), current@),
{
    let ghost view = Seq::new(ids@.len(), |k: int| ids@[k]@);
    let len: usize = ids.len();
    let mut k: usize = 0;
    while k < len && !same(ids[k].as_str(), current)
        invariant
            k <= len,
            len == ids@.len(),
            view == Seq::new(ids@.len(), |j: int| ids@[j]@),
            first_place(view, current@, 0) == first_place(view, current@, k as int),
        decreases len - k,
    {
        k = k + 1;
    }
    if k < len && k + 1 < len {
        ids[k + 1].clone()
    } else if len > 0 {
        ids[0].clone()
    } else {
        current.to_owned()
    }
}

/// The list of rooms.
#[derive(Copy, Clone)]
pub struct Rooms<'a>(pub &'a State);

impl<'a> Rooms<'a> {
    /// The places of the rooms that are shown.
    pub fn active_rooms(self) -> (res: Vec<usize>)
        requires
            self.0.wf(),
        ensures
            res@.len() == active_up_to(*self.0, self.0.rooms@.len() as int).len(),
            forall|k: int|
                0 <= k < res@.len() ==> #[trigger] res@[k] == active_up_to(
                    *self.0,
                    self.0.rooms@.len() as int,
                )[k],
    {
        let state = self.0;
        let s = state.tui.room_filter_line.as_str();
        let s_lower = to_lowercase(s);
        let mixed = !same(s, s_lower.as_str());
        let only_with_unread = matches!(
            state.tui.current_mode().builtin_mode(),
            BuiltinMode::RoomFilterUnread
        );
        let mut active: Vec<usize> = Vec::new();
        let mut i: usize = 0;
        while i < state.rooms.len()
            invariant
                i <= state.rooms@.len(),
                *state == *self.0,
                s@ == state.tui@.room_filter_line,
                s_lower@ == lowercase(s@),
                mixed == (s@ != lowercase(s@)),
                only_with_unread == (state.tui@.mode().builtin() is RoomFilterUnread),
                active@.len() == active_up_to(*state, i as int).len(),
                forall|k: int|
                    0 <= k < active@.len() ==> #[trigger] active@[k] == active_up_to(
                        *state,
                        i as int,
                    )[k],
            decreases state.rooms@.len() - i,
        {
            let r = &state.rooms[i];
            let passes_filter_string = if mixed {
                contains(r.name(), s)
            } else {
                contains(to_lowercase(r.name()).as_str(), s_lower.as_str())
            };
            let passes_unread_filter = !(only_with_unread && !r.has_unread());
            if passes_filter_string && passes_unread_filter {
                active.push(i);
            }
            i = i + 1;
        }
        active
    }

    /// The ids of the rooms that are shown.
    fn active_room_ids(self) -> (res: Vec<String>)
        requires
            self.0.wf(),
        ensures
            Seq::new(res@.len(), |k: int| res@[k]@) == active_ids(*self.0),
    {
        let active = self.active_rooms();
        proof {
            lemma_active_up_to(*self.0, self.0.rooms@.len() as int);
        }
        let mut ids: Vec<String> = Vec::new();
        let ghost places = active_up_to(*self.0, self.0.rooms@.len() as int);
        let mut k: usize = 0;
        while k < active.len()
            invariant
                k <= active@.len(),
                ids@.len() == k,
                active@.len() == places.len(),
                places == active_up_to(*self.0, self.0.rooms@.len() as int),
                forall|j: int| 0 <= j < active@.len() ==> #[trigger] active@[j] == places[j],
                forall|j: int|
                    0 <= j < places.len() ==> 0 <= #[trigger] places[j] < self.0.rooms@.len(),
                forall|j: int| 0 <= j < k ==> (#[trigger] ids@[j])@ == self.0.rooms@[places[j]].id@,
            decreases active@.len() - k,
        {
            proof {
                assert(active@[k as int] == places[k as int]);
            }
            ids.push(self.0.rooms[active[k]].id.clone());
            k = k + 1;
        }
        proof {
            assert(Seq::new(ids@.len(), |j: int| ids@[j]@) =~= active_ids(*self.0));
        }
        ids
    }

    /// Whether the current room is among those that are shown.
    pub fn active_contains_current(&self) -> (res: bool)
        requires
            self.0.wf(),
        ensures
            res == match self.0.current_id() {
                Some(id) => active_ids(*self.0).contains(id),
                None => false,
            },
    {
        match self.0.tui.room_selection.current() {
            Some(current) => {
                let ids = self.active_room_ids();
                let ghost view = active_ids(*self.0);
                let mut k: usize = 0;
                while k < ids.len()
                    invariant
                        k <= ids@.len(),
                        view == Seq::new(ids@.len(), |j: int| ids@[j]@),
                        view == active_ids(*self.0),
                        self.0.current_id() == Some(current@),
                        forall|j: int| 0 <= j < k ==> #[trigger] view[j] != current@,
                    decreases ids@.len() - k,
                {
                    if same(ids[k].as_str(), current) {
                        proof {
                            assert(view[k as int] == current@);
                        }
                        return true;
                    }
                    k = k + 1;
                }
                false
            },
            None => false,
        }
    }

    /// Whether the line with the filter is shown.
    pub fn shows_filter(self) -> (res: bool)
        requires
            self.0.wf(),
        ensures
            res == is_room_filter(self.0.tui@.mode().builtin()),
    {
        matches!(
            self.0.tui.current_mode().builtin_mode(),
            BuiltinMode::RoomFilter | BuiltinMode::RoomFilterUnread
        )
    }

    /// What the list shows, room by room.
    pub fn as_widget(self) -> (res: Vec<RoomSummary>)
        requires
            self.0.wf(),
        ensures
            is_list(*self.0, res@),
    {
        let active = self.active_rooms();
        let ghost places = active_up_to(*self.0, self.0.rooms@.len() as int);
        proof {
            lemma_active_up_to(*self.0, self.0.rooms@.len() as int);
        }
        let mut summaries: Vec<RoomSummary> = Vec::new();
        let mut k: usize = 0;
        while k < active.len()
            invariant
                k <= active@.len(),
                summaries@.len() == k,
                active@.len() == places.len(),
                places == active_up_to(*self.0, self.0.rooms@.len() as int),
                forall|j: int| 0 <= j < active@.len() ==> #[trigger] active@[j] == places[j],
                forall|j: int|
                    0 <= j < places.len() ==> 0 <= #[trigger] places[j] < self.0.rooms@.len(),
                forall|j: int|
                    0 <= j < k ==> is_summary(
                        #[trigger] summaries@[j],
                        self.0.rooms@[places[j]],
                        self.0.current_id(),
                    ),
            decreases active@.len() - k,
        {
            proof {
                assert(active@[k as int] == places[k as int]);
            }
            let r = &self.0.rooms[active[k]];
            let current = match self.0.tui.room_selection.current() {
                Some(id) => same(id, r.id.as_str()),
                None => false,
            };
            summaries.push(
                RoomSummary {
                    name: r.name.clone(),
                    num_unread_notifications: r.num_unread_notifications,
                    current,
                },
            );
            k = k + 1;
        }
        summaries
    }
}

/// What the list shows of a room.
pub struct RoomSummary {
    pub name: String,
    pub num_unread_notifications: u64,
    /// Whether the room is the current one, which is shown inverted.
    pub current: bool,
}

/// Whether a summary is that of a room.
pub open spec fn is_summary(s: RoomSummary, room: RoomState, current: Option<Seq<char>>) -> bool {
    &&& s.name@ == room.name@
    &&& s.num_unread_notifications == room.num_unread_notifications
    &&& s.current == (current == Some(room.id@))
}

/// Whether summaries are those of the rooms that are shown.
pub open spec fn is_list(state: State, list: Seq<RoomSummary>) -> bool {
    let active = active_up_to(state, state.rooms@.len() as int);
    &&& list.len() == active.len()
    &&& forall|k: int|
        0 <= k < list.len() ==> is_summary(
            #[trigger] list[k],
            state.rooms@[active[k]],
            state.current_id(),
        )
}

/// The text behind the name of a room with notifications that were not seen.
pub open spec fn unread_text(n: u64) -> Seq<char> {
    if n > 0 {
        " "@ + decimal(n as nat)
    } else {
        Seq::empty()
    }
}

impl RoomSummary {
    /// The text behind the name.
    pub fn unread_text(&self) -> (res: String)
        ensures
            res@ == unread_text(self.num_unread_notifications),
    {
        if self.num_unread_notifications > 0 {
            joined(" ", text_of_decimal(self.num_unread_notifications).as_str())
        } else {
            String::new()
        }
    }

    /// The colour of the text.
    pub fn color(&self) -> (res: Color)
        ensures
            res == (if self.num_unread_notifications > 0 {
                Color::Yellow
            } else {
                Color::Default
            }),
    {
        if self.num_unread_notifications > 0 {
            Color::Yellow
        } else {
            Color::Default
        }
    }

    /// How many columns the text needs. The name must be short enough for an `i32` to count them.
    pub fn space_demand(&self) -> (res: i64)
        requires
            self.name@.len() <= 0x1000_0000,
        ensures
            res == cells(self.name@) + (if self.num_unread_notifications > 0 {
                cells(unread_text(self.num_unread_notifications)) as int
            } else {
                0
            }),
    {
        let w: i64 = count_cells(self.name.as_str()) as i64;
        if self.num_unread_notifications > 0 {
            let text = self.unread_text();
            proof {
                reveal_strlit(" ");
                lemma_u64_digits(self.num_unread_notifications);
            }
            w + count_cells(text.as_str()) as i64
        } else {
            w
        }
    }
}

/// The list of rooms, for selecting in it.
pub struct RoomsMut<'a>(pub &'a mut State);

impl<'a> RoomsMut<'a> {
    /// The list for looking at it.
    pub fn as_rooms<'b>(&'b self) -> (res: Rooms<'b>)
        ensures
            *res.0 == *old(self.0),
    {
        Rooms(&*self.0)
    }
}

/// Selects a known room, or none.
fn select_room(state: &mut State, id: Option<String>)
    requires
        old(state).wf(),
        id matches Some(i) ==> has_room(old(state).rooms@, i@),
    ensures
        final(state).wf(),
        final(state).rooms == old(state).rooms,
        final(state).user_id == old(state).user_id,
        final(state).tui@ == old(state).tui@.room_set(
            match id {
                Some(i) => Some(i@),
                None => None,
            },
        ),
{
    let ghost before = state.tui@.room_selection;
    match id {
        Some(i) => {
            proof {
                law_selected_is_current(before, i@);
                let after = before.selected(i@);
                assert forall|k: int| 0 <= k < after.selections.len() implies has_room(
                    state.rooms@,
                    #[trigger] after.selections[k],
                ) by {
                    assert(after.selections.contains(after.selections[k]));
                    let x = after.selections[k];
                    assert(x == i@ || before.selections.contains(x));
                    if x != i@ {
                        let j = choose|j: int|
                            0 <= j < before.selections.len() && before.selections[j] == x;
                        assert(has_room(state.rooms@, before.selections[j]));
                    }
                }
            }
            state.tui.set_current_room(Some(i.as_str()));
        },
        None => {
            state.tui.set_current_room(None);
        },
    }
}

/// Selects the room before the current one in the list, going round.
fn go_backwards(state: &mut State) -> (res: Result<(), ()>)
    requires
        old(state).wf(),
    ensures
        res is Ok,
        final(state).wf(),
        final(state).rooms == old(state).rooms,
        final(state).user_id == old(state).user_id,
        final(state).tui@ == old(state).tui@.room_set(previous_room(*old(state))),
{
    let new_current_room: Option<String> = match state.tui.room_selection.current() {
        Some(current) => {
            let ids = Rooms(&*state).active_room_ids();
            let ghost view = active_ids(*state);
            let backwards = reversed(&ids);
            proof {
                assert(Seq::new(backwards@.len(), |k: int| backwards@[k]@) =~= view.reverse());
                lemma_following_known(*state, view.reverse(), current@);
            }
            Some(follow(&backwards, current))
        },
        None => {
            let len: usize = state.rooms.len();
            if len > 0 {
                proof {
                    assert(room_ids(state.rooms@)[len - 1] == state.rooms@.last().id@);
                }
                Some(state.rooms[len - 1].id.clone())
            } else {
                None
            }
        },
    };
    select_room(state, new_current_room);
    Ok(())
}

/// Selects the room behind the current one in the list, going round.
fn go_forwards(state: &mut State) -> (res: Result<(), ()>)
    requires
        old(state).wf(),
    ensures
        res is Ok,
        final(state).wf(),
        final(state).rooms == old(state).rooms,
        final(state).user_id == old(state).user_id,
        final(state).tui@ == old(state).tui@.room_set(next_room(*old(state))),
{
    let new_current_room: Option<String> = match state.tui.room_selection.current() {
        Some(current) => {
            let ids = Rooms(&*state).active_room_ids();
            proof {
                lemma_following_known(*state, active_ids(*state), current@);
            }
            Some(follow(&ids, current))
        },
        None => {
            if state.rooms.len() > 0 {
                proof {
                    assert(room_ids(state.rooms@)[0] == state.rooms@[0].id@);
                }
                Some(state.rooms[0].id.clone())
            } else {
                None
            }
        },
    };
    select_room(state, new_current_room);
    Ok(())
}

/// A list the other way round.
fn reversed(ids: &Vec<String>) -> (res: Vec<String>)
    ensures
        res@.len() == ids@.len(),
        forall|k: int| 0 <= k < res@.len() ==> (#[trigger] res@[k])@ == ids@[ids@.len() - 1 - k]@,
{
    let mut out: Vec<String> = Vec::new();
    let mut n: usize = ids.len();
    while n > 0
        invariant
            n <= ids@.len(),
            out@.len() == ids@.len() - n,
            forall|k: int|
                0 <= k < out@.len() ==> (#[trigger] out@[k])@ == ids@[ids@.len() - 1 - k]@,
        decreases n,
    {
        n = n - 1;
        out.push(ids[n].clone());
    }
    out
}

proof fn lemma_following_known(state: State, ids: Seq<Seq<char>>, current: Seq<char>)
    requires
        state.wf(),
        state.current_id() == Some(current),
        ids == active_ids(state) || ids == active_ids(state).reverse(),
    ensures
        has_room(state.rooms@, following(ids, current)),
{
    let active = active_ids(state);
    assert forall|k: int| 0 <= k < ids.len() implies has_room(state.rooms@, #[trigger] ids[k]) by {
        if ids == active {
            lemma_active_known(state, k);
        } else {
            lemma_active_known(state, active.len() - 1 - k);
            assert(ids[k] == active[active.len() - 1 - k]);
        }
    }
    let history = state.tui@.room_selection;
    assert(has_room(state.rooms@, history.selections[history.current]));
    lemma_first_place(ids, current, 0);
}

impl<'a> RoomsMut<'a> {
    /// Selects the room before the current one in the list, going round.
    pub fn scroll_backwards(self) -> (res: Result<(), ()>)
        requires
            old(self.0).wf(),
        ensures
            res is Ok,
            final(self.0).wf(),
            final(self.0).rooms == old(self.0).rooms,
            final(self.0).user_id == old(self.0).user_id,
            final(self.0).tui@ == old(self.0).tui@.room_set(previous_room(*old(self.0))),
    {
        go_backwards(self.0)
    }

    /// Selects the room behind the current one in the list, going round.
    pub fn scroll_forwards(self) -> (res: Result<(), ()>)
        requires
            old(self.0).wf(),
        ensures
            res is Ok,
            final(self.0).wf(),
            final(self.0).rooms == old(self.0).rooms,
            final(self.0).user_id == old(self.0).user_id,
            final(self.0).tui@ == old(self.0).tui@.room_set(next_room(*old(self.0))),
    {
        go_forwards(self.0)
    }
}

/// The list shows exactly the rooms that pass the filter.
pub proof fn law_list_shows_what_passes(state: State, id: Seq<char>)
    ensures
        active_ids(state).contains(id) == (exists|i: int|
            0 <= i < state.rooms@.len() && #[trigger] is_active(state, i) && state.rooms@[i].id@
                == id),
{
    let n = state.rooms@.len() as int;
    let active = active_up_to(state, n);
    let ids = active_ids(state);
    lemma_active_up_to(state, n);
    if ids.contains(id) {
        let k = choose|k: int| 0 <= k < ids.len() && ids[k] == id;
        assert(is_active(state, active[k]));
    }
    if exists|i: int|
        0 <= i < state.rooms@.len() && #[trigger] is_active(state, i) && state.rooms@[i].id@ == id {
        let i = choose|i: int|
            0 <= i < state.rooms@.len() && #[trigger] is_active(state, i) && state.rooms@[i].id@
                == id;
        assert(active.contains(i));
        let k = choose|k: int| 0 <= k < active.len() && active[k] == i;
        assert(ids[k] == id);
    }
}

/// Scrolling one way and then the other leads back, as long as the current room is in the list.
pub proof fn law_scrolling_back_undoes_scrolling(ids: Seq<Seq<char>>, current: Seq<char>)
    requires
        ids.no_duplicates(),
        ids.contains(current),
    ensures
        following(ids.reverse(), following(ids, current)) == current,
        following(ids, following(ids.reverse(), current)) == current,
        ids.contains(following(ids, current)),
        ids.contains(following(ids.reverse(), current)),
{
    let back = ids.reverse();
    let n = ids.len() as int;
    let i = choose|i: int| 0 <= i < n && ids[i] == current;
    lemma_first_place(ids, current, 0);
    lemma_first_place(back, current, 0);
    assert(first_place(ids, current, 0) == i) by {
        let k = first_place(ids, current, 0);
        if k == n {
            assert(ids[i] != current);
        }
    }
    assert(back[n - 1 - i] == current);
    assert(first_place(back, current, 0) == n - 1 - i) by {
        let k = first_place(back, current, 0);
        if k == n {
            assert(back[n - 1 - i] != current);
        }
        assert(back[k] == ids[n - 1 - k]);
    }
    let f = following(ids, current);
    let fi = if i + 1 < n {
        i + 1
    } else {
        0
    };
    assert(f == ids[fi]);
    assert(back[n - 1 - fi] == f);
    lemma_first_place(back, f, 0);
    assert(first_place(back, f, 0) == n - 1 - fi) by {
        let k = first_place(back, f, 0);
        if k == n {
            assert(back[n - 1 - fi] != f);
        }
        assert(back[k] == ids[n - 1 - k]);
    }
    let b = following(back, current);
    let bi = if i > 0 {
        i - 1
    } else {
        n - 1
    };
    assert(b == ids[bi]) by {
        if i > 0 {
            assert(back[n - i] == ids[i - 1]);
        } else {
            assert(back[0] == ids[n - 1]);
        }
    }
    lemma_first_place(ids, b, 0);
    assert(first_place(ids, b, 0) == bi) by {
        let k = first_place(ids, b, 0);
        if k == n {
            assert(ids[bi] != b);
        }
    }
    assert(back[0] == ids[n - 1]);
    if fi > 0 {
        assert(back[n - fi] == ids[fi - 1]);
    }
}

proof fn lemma_contains_is_between(whole: Seq<char>, part: Seq<char>)
    ensures
        contains_text(whole, part) == (exists|a: Seq<char>, b: Seq<char>|
            #![trigger a + part + b]
            whole == a + part + b),
{
    if contains_text(whole, part) {
        let at = choose|at: int| occurs_at(whole, part, at);
        let a = whole.take(at);
        let b = whole.skip(at + part.len());
        assert(whole =~= a + part + b) by {
            assert forall|i: int| at <= i < at + part.len() implies whole[i] == part[i - at] by {
                assert(whole.subrange(at, at + part.len())[i - at] == whole[i]);
            }
        }
    }
    if exists|a: Seq<char>, b: Seq<char>|
        #![trigger a + part + b]
        whole == a + part + b {
        let (a, b) = choose|a: Seq<char>, b: Seq<char>|
            #![trigger a + part + b]
            whole == a + part + b;
        assert(whole.subrange(a.len() as int, (a.len() + part.len()) as int) =~= part);
        assert(occurs_at(whole, part, a.len() as int));
    }
}

/// The list shows a room exactly if the filter stands somewhere in its name. A filter without
/// capitals is looked for in the name without capitals. Where only rooms with notifications that
/// were not seen are asked for, the room has to have one.
pub proof fn law_filter_is_part_of_the_name(state: State, i: int)
    requires
        state.wf(),
        0 <= i < state.rooms@.len(),
    ensures
        ({
            let filter = state.tui@.room_filter_line;
            let name = if filter == lowercase(filter) {
                lowercase(state.rooms@[i].name@)
            } else {
                state.rooms@[i].name@
            };
            active_ids(state).contains(state.rooms@[i].id@) == ((exists|a: Seq<char>, b: Seq<char>|
                #![trigger a + filter + b]
                name == a + filter + b) && (state.tui@.mode_stack.last().builtin()
                == BuiltinMode::RoomFilterUnread ==> state.rooms@[i].num_unread_notifications > 0))
        }),
{
    let filter = state.tui@.room_filter_line;
    let name = if filter == lowercase(filter) {
        lowercase(state.rooms@[i].name@)
    } else {
        state.rooms@[i].name@
    };
    let id = state.rooms@[i].id@;
    lemma_contains_is_between(name, filter);
    law_list_shows_what_passes(state, id);
    assert(room_ids(state.rooms@)[i] == id);
    if active_ids(state).contains(id) {
        let j = choose|j: int|
            0 <= j < state.rooms@.len() && #[trigger] is_active(state, j) && state.rooms@[j].id@
                == id;
        assert(room_ids(state.rooms@)[j] == id);
        lemma_sorted_ids_differ(room_ids(state.rooms@), i, j);
    }
    if is_active(state, i) {
        assert(is_active(state, i) && state.rooms@[i].id@ == id);
    }
}

proof fn lemma_active_in_order(state: State, n: int, j: int, k: int)
    requires
        0 <= n <= state.rooms@.len(),
        0 <= j < k < active_up_to(state, n).len(),
    ensures
        active_up_to(state, n)[j] < active_up_to(state, n)[k],
    decreases n,
{
    lemma_active_up_to(state, n - 1);
    if k < active_up_to(state, n - 1).len() {
        lemma_active_in_order(state, n - 1, j, k);
    }
}

/// The list shows the rooms in the order of their ids, each one once.
pub proof fn law_list_is_in_order(state: State, j: int, k: int)
    requires
        state.wf(),
        0 <= j < k < active_ids(state).len(),
    ensures
        text_before(active_ids(state)[j], active_ids(state)[k]),
        active_ids(state)[j] != active_ids(state)[k],
{
    let n = state.rooms@.len() as int;
    lemma_active_up_to(state, n);
    lemma_active_in_order(state, n, j, k);
    let a = active_up_to(state, n)[j];
    let b = active_up_to(state, n)[k];
    let ids = room_ids(state.rooms@);
    assert(text_before(ids[a], ids[b]));
    lemma_before_irreflexive(ids[a]);
}

/// Scrolling forwards leads to the next room of the list and from the last one to the first,
/// scrolling backwards the other way round. From a room that is not in the list it leads to the
/// first one or the last one. Without a current room, the first or the last of all rooms is
/// selected.
pub proof fn law_scrolling_goes_round_the_list(state: State, k: int)
    requires
        state.wf(),
    ensures
        ({
            let ids = active_ids(state);
            let n = ids.len();
            &&& 0 <= k < n && state.current_id() == Some(ids[k]) ==> next_room(state) == Some(
                ids[(k + 1) % n as int],
            ) && previous_room(state) == Some(
                ids[if k == 0 {
                    n - 1
                } else {
                    k - 1
                }],
            )
            &&& n > 0 && state.current_id() is Some && !ids.contains(state.current_id()->0)
                ==> next_room(state) == Some(ids[0]) && previous_room(state) == Some(ids[n - 1])
            &&& state.current_id() is None && state.rooms@.len() > 0 ==> next_room(state) == Some(
                state.rooms@[0].id@,
            ) && previous_room(state) == Some(state.rooms@[state.rooms@.len() - 1].id@)
        }),
{
    let ids = active_ids(state);
    let n = ids.len() as int;
    let back = ids.reverse();
    if state.current_id() is Some {
        let current = state.current_id()->0;
        lemma_first_place(ids, current, 0);
        lemma_first_place(back, current, 0);
        if 0 <= k < n && current == ids[k] {
            let p = first_place(ids, current, 0);
            assert(p <= k);
            if p < k {
                law_list_is_in_order(state, p, k);
            }
            let q = first_place(back, current, 0);
            assert(back[n - 1 - k] == current);
            assert(q <= n - 1 - k);
            if q < n - 1 - k {
                assert(back[q] == ids[n - 1 - q]);
                law_list_is_in_order(state, k, n - 1 - q);
            }
            if k + 1 < n {
                assert((k + 1) % n == k + 1) by (nonlinear_arith)
                    requires
                        0 <= k + 1 < n,
                ;
            } else {
                assert((k + 1) % n == 0) by (nonlinear_arith)
                    requires
                        k + 1 == n,
                        n > 0,
                ;
            }
        }
        if n > 0 && !ids.contains(current) {
            let p = first_place(ids, current, 0);
            if p < n {
                assert(ids.contains(ids[p]));
            }
            let q = first_place(back, current, 0);
            if q < n {
                assert(back[q] == ids[n - 1 - q]);
                assert(ids.contains(ids[n - 1 - q]));
            }
        }
    }
}

/// Behind the name of a room stands the number of its notifications that were not seen, if there
/// are any.
pub proof fn law_number_of_unread_is_shown(n: u64)
    ensures
        n == 0 ==> unread_text(n).len() == 0,
        n > 0 ==> unread_text(n).len() > 1 && unread_text(n)[0] == ' ' && value_of(
            unread_text(n).skip(1),
        ) == n,
{
    law_decimal_stands_for_the_number(n as nat);
    reveal_strlit(" ");
    if n > 0 {
        assert(unread_text(n).skip(1) =~= decimal(n as nat));
    }
}

/// The list names the rooms that it shows, in order, each with the number of its notifications, and
/// marks the current one and no other.
pub proof fn law_list_names_its_rooms(state: State, list: Seq<RoomSummary>, k: int)
    requires
        state.wf(),
        is_list(state, list),
        0 <= k < active_ids(state).len(),
    ensures
        list.len() == active_ids(state).len(),
        list[k].current <==> state.current_id() == Some(active_ids(state)[k]),
        exists|i: int|
            0 <= i < state.rooms@.len() && (#[trigger] state.rooms@[i]).id@ == active_ids(state)[k]
                && list[k].name@ == state.rooms@[i].name@ && list[k].num_unread_notifications
                == state.rooms@[i].num_unread_notifications,
{
    let n = state.rooms@.len() as int;
    lemma_active_up_to(state, n);
    let i = active_up_to(state, n)[k];
    assert(is_summary(list[k], state.rooms@[i], state.current_id()));
    assert(state.rooms@[i].id@ == active_ids(state)[k]);
}

} // verus!
