//! The state of the running client.

use nix::sys::signal::SigSet;
use vstd::hash_map::StringHashMap;
use vstd::prelude::*;

use crate::event::StateChange;
use crate::text::{
    comes_before, lemma_before_irreflexive, lemma_before_total, lemma_before_transitive, same,
    text_before,
};
use crate::timeline::{
    all_processable, is_request, law_sync_is_put_in_order, law_timeline_grows_at_its_ends,
    optional_text, shown_ids, synced, updated, usable, CacheView, Direction, MessageQuery,
    MessageQueryResult, MessageRequest, RoomTimelineCache, SyncTimeline, QUERY_BATCH_SIZE_LIMIT,
};
use crate::tui_app::colors::{calculate_user_colors, id_texts, user_colors, wishes_of, Color};
use crate::tui_app::signals::{signals_in, signals_to_block, SignalKind};
use crate::tui_app::tui::history::HistoryView;
use crate::tui_app::tui::{MessageQueryRequest, RoomTuiState, TuiState, TuiView};

pub mod colors;
pub mod notification;
pub mod signals;
pub mod tui;

verus! {

/// What the server tells of a room.
pub struct RoomInfo {
    pub id: String,
    pub name: String,
    pub latest_read_message: Option<String>,
    pub num_unread_notifications: u64,
    pub own_user_id: String,
    pub joined_user_ids: Vec<String>,
}

/// The state of a room.
pub struct RoomState {
    pub id: String,
    pub messages: RoomTimelineCache,
    pub name: String,
    pub latest_read_message: Option<String>,
    pub num_unread_notifications: u64,
    pub user_colors: StringHashMap<Color>,
    pub tui: RoomTuiState,
}

/// Whether colours are those of the users of a room.
pub open spec fn are_user_colors(colors: Map<Seq<char>, Color>, info: RoomInfo) -> bool {
    colors == user_colors(
        info.own_user_id@,
        wishes_of(info.own_user_id@, id_texts(info.joined_user_ids@)),
    )
}

/// The newest event of a room, unless it was seen before.
pub open spec fn unread_event(room: RoomState) -> Option<Seq<char>> {
    match room.messages@.full.last() {
        Some(id) if optional_text(room.latest_read_message) != Some(id) => Some(id),
        _ => None,
    }
}

/// Whether a room differs from what it was in nothing but that its newest event was seen.
pub open spec fn is_marked_as_read(before: RoomState, after: RoomState) -> bool {
    &&& after == (RoomState {
        num_unread_notifications: 0,
        latest_read_message: after.latest_read_message,
        ..before
    })
    &&& match unread_event(before) {
        Some(id) => optional_text(after.latest_read_message) == Some(id),
        None => after.latest_read_message == before.latest_read_message,
    }
}

/// Once its newest event was seen, a room has nothing unread.
pub proof fn law_nothing_is_unread_after_reading(before: RoomState, after: RoomState)
    requires
        is_marked_as_read(before, after),
    ensures
        unread_event(after) is None,
        after.num_unread_notifications == 0,
{
}

impl RoomState {
    /// The state of a room that has just become known.
    pub fn from_room(info: RoomInfo) -> (res: RoomState)
        ensures
            is_new_room(res, info),
    {
        let colors = calculate_user_colors(info.own_user_id.as_str(), &info.joined_user_ids);
        RoomState {
            id: info.id,
            messages: RoomTimelineCache::default(),
            name: info.name,
            latest_read_message: info.latest_read_message,
            num_unread_notifications: info.num_unread_notifications,
            user_colors: colors,
            tui: RoomTuiState::at_last_message(),
        }
    }

    /// Takes note that the newest event was seen. Its id is handed back if the server has to be
    /// told.
    pub fn mark_newest_event_as_read(&mut self) -> (res: Option<String>)
        requires
            old(self).messages.wf(),
        ensures
            is_marked_as_read(*old(self), *final(self)),
            optional_text(res) == unread_event(*old(self)),
    {
        self.num_unread_notifications = 0;
        let latest: Option<String> = match self.messages.end_id() {
            Some(id) => Some(id.to_owned()),
            None => None,
        };
        match latest {
            Some(id) => {
                let is_new = match &self.latest_read_message {
                    Some(read) => !same(read.as_str(), id.as_str()),
                    None => true,
                };
                if is_new {
                    self.latest_read_message = Some(id.clone());
                    Some(id)
                } else {
                    None
                }
            },
            None => None,
        }
    }

    /// How many notifications were not seen.
    pub fn num_unread_notifications(&self) -> (res: u64)
        ensures
            res == self.num_unread_notifications,
    {
        self.num_unread_notifications
    }

    /// Whether there are notifications that were not seen.
    pub fn has_unread(&self) -> (res: bool)
        ensures
            res == (self.num_unread_notifications > 0),
    {
        self.num_unread_notifications > 0
    }

    /// The name of the room.
    pub fn name(&self) -> (res: &str)
        ensures
            res@ == self.name@,
    {
        self.name.as_str()
    }
}

/// The ids of rooms, in order.
pub open spec fn room_ids(rooms: Seq<RoomState>) -> Seq<Seq<char>> {
    Seq::new(rooms.len(), |i: int| rooms[i].id@)
}

/// Each id comes before the next ones.
pub open spec fn ids_sorted(ids: Seq<Seq<char>>) -> bool {
    forall|i: int, j: int|
        0 <= i < j < ids.len() ==> text_before(#[trigger] ids[i], #[trigger] ids[j])
}

/// The rooms are sorted by id, no id occurs twice, and their caches are in order.
pub open spec fn rooms_ok(rooms: Seq<RoomState>) -> bool {
    &&& ids_sorted(room_ids(rooms))
    &&& forall|i: int| 0 <= i < rooms.len() ==> (#[trigger] rooms[i]).messages.wf()
}

/// Whether a room is among those of a list.
pub open spec fn has_room(rooms: Seq<RoomState>, id: Seq<char>) -> bool {
    room_ids(rooms).contains(id)
}

/// How many ids of a sorted list come before an id.
pub open spec fn place_of(ids: Seq<Seq<char>>, id: Seq<char>) -> int
    decreases ids.len(),
{
    if ids.len() == 0 {
        0
    } else if text_before(ids.last(), id) {
        ids.len() as int
    } else {
        place_of(ids.drop_last(), id)
    }
}

/// The rooms with a room put in its place. It replaces the one that has its id.
pub open spec fn with_room(rooms: Seq<RoomState>, room: RoomState) -> Seq<RoomState> {
    let i = place_of(room_ids(rooms), room.id@);
    if i < rooms.len() && rooms[i].id@ == room.id@ {
        rooms.update(i, room)
    } else {
        rooms.insert(i, room)
    }
}

proof fn lemma_place_of(ids: Seq<Seq<char>>, id: Seq<char>)
    requires
        ids_sorted(ids),
    ensures
        0 <= place_of(ids, id) <= ids.len(),
        forall|i: int| 0 <= i < place_of(ids, id) ==> text_before(#[trigger] ids[i], id),
        forall|i: int|
            place_of(ids, id) <= i < ids.len() ==> !text_before(#[trigger] ids[i], id),
    decreases ids.len(),
{
    if ids.len() > 0 {
        let front = ids.drop_last();
        assert forall|i: int, j: int| 0 <= i < j < front.len() implies text_before(
            #[trigger] front[i],
            #[trigger] front[j],
        ) by {
            assert(text_before(ids[i], ids[j]));
        }
        lemma_place_of(front, id);
        let last = ids.len() - 1;
        assert(ids[last] == ids.last());
        if text_before(ids.last(), id) {
            assert forall|i: int| 0 <= i < ids.len() implies text_before(#[trigger] ids[i], id) by {
                if i < last {
                    lemma_before_transitive(ids[i], ids[last], id);
                }
            }
        } else {
            let p = place_of(front, id);
            assert forall|i: int| 0 <= i < p implies text_before(#[trigger] ids[i], id) by {
                assert(front[i] == ids[i]);
            }
            assert forall|i: int| p <= i < ids.len() implies !text_before(#[trigger] ids[i], id) by {
                if i < last {
                    assert(front[i] == ids[i]);
                }
            }
        }
    }
}

proof fn lemma_with_room(rooms: Seq<RoomState>, room: RoomState)
    requires
        rooms_ok(rooms),
        room.messages.wf(),
    ensures
        rooms_ok(with_room(rooms, room)),
{
    let ids = room_ids(rooms);
    let after = with_room(rooms, room);
    let later = room_ids(after);
    let p = place_of(ids, room.id@);
    lemma_place_of(ids, room.id@);
    if p < rooms.len() && rooms[p].id@ == room.id@ {
        assert(later =~= ids);
        assert forall|i: int| 0 <= i < after.len() implies (#[trigger] after[i]).messages.wf() by {
            assert(rooms[i].messages.wf());
        }
    } else {
        assert(later =~= ids.insert(p, room.id@));
        assert forall|i: int, j: int| 0 <= i < j < later.len() implies text_before(
            #[trigger] later[i],
            #[trigger] later[j],
        ) by {
            if i < p && j < p {
                assert(later[i] == ids[i]);
                assert(later[j] == ids[j]);
            } else if i < p && j == p {
                assert(later[i] == ids[i]);
            } else if i < p {
                assert(later[i] == ids[i]);
                assert(later[j] == ids[j - 1]);
            } else if i == p {
                assert(later[j] == ids[j - 1]);
                assert(!text_before(ids[j - 1], room.id@));
                lemma_before_total(ids[j - 1], room.id@);
                if ids[j - 1] == room.id@ {
                    if j - 1 > p {
                        assert(text_before(ids[p], ids[j - 1]));
                        assert(!text_before(ids[p], room.id@));
                    } else {
                        assert(rooms[p].id@ == ids[p]);
                    }
                }
            } else {
                assert(later[i] == ids[i - 1]);
                assert(later[j] == ids[j - 1]);
            }
        }
        assert forall|i: int| 0 <= i < after.len() implies (#[trigger] after[i]).messages.wf() by {
            if i < p {
                assert(after[i] == rooms[i]);
            } else if i > p {
                assert(after[i] == rooms[i - 1]);
            }
        }
    }
}

/// Putting a room in its place adds that room and loses none.
pub proof fn law_insert_adds_one_room(rooms: Seq<RoomState>, room: RoomState, id: Seq<char>)
    requires
        rooms_ok(rooms),
    ensures
        has_room(with_room(rooms, room), id) == (id == room.id@ || has_room(rooms, id)),
{
    let ids = room_ids(rooms);
    let after = with_room(rooms, room);
    let later = room_ids(after);
    let p = place_of(ids, room.id@);
    lemma_place_of(ids, room.id@);
    if p < rooms.len() && rooms[p].id@ == room.id@ {
        assert(later =~= ids);
        assert(ids[p] == room.id@);
    } else {
        assert(later =~= ids.insert(p, room.id@));
        assert(later[p] == room.id@);
        if ids.contains(id) {
            let i = choose|i: int| 0 <= i < ids.len() && ids[i] == id;
            if i < p {
                assert(later[i] == id);
            } else {
                assert(later[i + 1] == id);
            }
        }
        if later.contains(id) && id != room.id@ {
            let i = choose|i: int| 0 <= i < later.len() && later[i] == id;
            if i < p {
                assert(ids[i] == id);
            } else {
                assert(ids[i - 1] == id);
            }
        }
    }
}

/// No id of a sorted list occurs twice.
pub proof fn lemma_sorted_ids_differ(ids: Seq<Seq<char>>, i: int, j: int)
    requires
        ids_sorted(ids),
        0 <= i < ids.len(),
        0 <= j < ids.len(),
        ids[i] == ids[j],
    ensures
        i == j,
{
    lemma_before_irreflexive(ids[i]);
}

/// Puts a room in its place among the others.
fn insert_room(rooms: &mut Vec<RoomState>, room: RoomState)
    requires
        rooms_ok(old(rooms)@),
        room.messages.wf(),
    ensures
        final(rooms)@ == with_room(old(rooms)@, room),
        rooms_ok(final(rooms)@),
{
    let ghost before = rooms@;
    let ghost ids = room_ids(before);
    proof {
        lemma_with_room(before, room);
        lemma_place_of(ids, room.id@);
    }
    let mut i: usize = 0;
    while i < rooms.len() && comes_before(rooms[i].id.as_str(), room.id.as_str())
        invariant
            i <= rooms@.len(),
            rooms@ == before,
            ids == room_ids(before),
            forall|j: int| 0 <= j < i ==> text_before(#[trigger] ids[j], room.id@),
        decreases rooms@.len() - i,
    {
        proof {
            assert(ids[i as int] == rooms@[i as int].id@);
        }
        i = i + 1;
    }
    proof {
        let p = place_of(ids, room.id@);
        if i < p {
            assert(text_before(ids[i as int], room.id@));
        }
        if p < i {
            assert(!text_before(ids[p], room.id@));
        }
    }
    if i < rooms.len() && same(rooms[i].id.as_str(), room.id.as_str()) {
        rooms.set(i, room);
    } else {
        rooms.insert(i, room);
    }
}

/// The state of the client.
pub struct State {
    /// The rooms, sorted by id.
    pub rooms: Vec<RoomState>,
    pub tui: TuiState,
    pub user_id: String,
}

/// Every room of a selection history is among the rooms.
pub open spec fn history_known(rooms: Seq<RoomState>, history: HistoryView) -> bool {
    forall|i: int|
        0 <= i < history.selections.len() ==> has_room(rooms, #[trigger] history.selections[i])
}

/// The rooms with the given ones put in their places, one after the other.
pub open spec fn with_rooms(rooms: Seq<RoomState>, more: Seq<RoomState>) -> Seq<RoomState>
    decreases more.len(),
{
    if more.len() == 0 {
        rooms
    } else {
        with_room(with_rooms(rooms, more.drop_last()), more.last())
    }
}

impl State {
    /// The rooms and the interface are in order, and no room is selected that is not known.
    pub open spec fn wf(&self) -> bool {
        &&& rooms_ok(self.rooms@)
        &&& self.tui@.valid()
        &&& history_known(self.rooms@, self.tui@.room_selection)
    }

    /// The id of the current room.
    pub open spec fn current_id(&self) -> Option<Seq<char>> {
        self.tui@.room_selection.current_room()
    }

    /// The place of the current room among the rooms.
    pub open spec fn current_index(&self) -> int {
        room_ids(self.rooms@).index_of(self.current_id()->0)
    }

    /// The state at the start. The first room is selected.
    pub fn new(rooms: Vec<RoomState>, user_id: String) -> (res: State)
        requires
            forall|i: int| 0 <= i < rooms@.len() ==> (#[trigger] rooms@[i]).messages.wf(),
        ensures
            res.wf(),
            res.rooms@ == with_rooms(Seq::empty(), rooms@),
            res.user_id == user_id,
            res.tui@ == TuiView::started().room_set(
                if res.rooms@.len() > 0 {
                    Some(res.rooms@[0].id@)
                } else {
                    None
                },
            ),
    {
        let mut sorted: Vec<RoomState> = Vec::new();
        let ghost all = rooms@;
        for room in it: rooms
            invariant
                it.seq() == all,
                rooms_ok(sorted@),
                sorted@ == with_rooms(Seq::empty(), all.take(it.index() as int)),
                forall|i: int| 0 <= i < all.len() ==> (#[trigger] all[i]).messages.wf(),
        {
            proof {
                let i = it.index() as int;
                assert(all.take(i + 1).drop_last() =~= all.take(i));
                assert(all.take(i + 1).last() == all[i]);
            }
            insert_room(&mut sorted, room);
        }
        proof {
            assert(all.take(all.len() as int) =~= all);
        }
        let first = if sorted.len() > 0 {
            Some(sorted[0].id.as_str())
        } else {
            None
        };
        let tui = TuiState::new(first);
        proof {
            if sorted@.len() > 0 {
                assert(room_ids(sorted@)[0] == sorted@[0].id@);
                assert(has_room(sorted@, sorted@[0].id@));
            }
        }
        State { rooms: sorted, tui, user_id }
    }

    /// The place of a room among the rooms.
    pub fn room_index(&self, id: &str) -> (res: Option<usize>)
        requires
            rooms_ok(self.rooms@),
        ensures
            match res {
                Some(i) => i < self.rooms@.len() && self.rooms@[i as int].id@ == id@ && has_room(
                    self.rooms@,
                    id@,
                ) && i == room_ids(self.rooms@).index_of(id@),
                None => !has_room(self.rooms@, id@),
            },
    {
        let ghost ids = room_ids(self.rooms@);
        let mut i: usize = 0;
        while i < self.rooms.len()
            invariant
                i <= self.rooms@.len(),
                ids == room_ids(self.rooms@),
                ids_sorted(ids),
                forall|j: int| 0 <= j < i ==> #[trigger] ids[j] != id@,
            decreases self.rooms@.len() - i,
        {
            if same(self.rooms[i].id.as_str(), id) {
                proof {
                    assert(ids[i as int] == id@);
                    assert(ids.contains(id@));
                    let j = ids.index_of(id@);
                    assert(0 <= j < ids.len() && ids[j] == id@);
                    lemma_sorted_ids_differ(ids, i as int, j);
                }
                return Some(i);
            }
            i = i + 1;
        }
        None
    }

    /// Whether a room is known.
    pub fn knows_room(&self, id: &str) -> (res: bool)
        requires
            rooms_ok(self.rooms@),
        ensures
            res == has_room(self.rooms@, id@),
    {
        self.room_index(id).is_some()
    }

    /// The place of the current room among the rooms.
    pub fn current_room_index(&self) -> (res: Option<usize>)
        requires
            self.wf(),
        ensures
            match res {
                Some(i) => i < self.rooms@.len() && i == self.current_index()
                    && self.current_id() == Some(self.rooms@[i as int].id@),
                None => self.current_id() is None,
            },
    {
        match self.tui.room_selection.current() {
            Some(id) => {
                let res = self.room_index(id);
                proof {
                    let history = self.tui@.room_selection;
                    assert(has_room(self.rooms@, history.selections[history.current]));
                }
                res
            },
            None => None,
        }
    }

    /// The current room.
    pub fn current_room_state(&self) -> (res: Option<&RoomState>)
        requires
            self.wf(),
        ensures
            match res {
                Some(r) => self.current_id() == Some(r.id@) && *r
                    == self.rooms@[self.current_index()] && 0 <= self.current_index()
                    < self.rooms@.len(),
                None => self.current_id() is None,
            },
    {
        match self.current_room_index() {
            Some(i) => Some(&self.rooms[i]),
            None => None,
        }
    }

    /// The id of the own user.
    pub fn user_id(&self) -> (res: &str)
        ensures
            res@ == self.user_id@,
    {
        self.user_id.as_str()
    }

    /// Takes in what the server tells of a room: a room that is known gets its new name and new
    /// colours, any other one is added.
    pub fn update_room_info(&mut self, info: RoomInfo)
        requires
            old(self).wf(),
        ensures
            final(self).wf(),
            room_info_updated(*old(self), info, *final(self)),
    {
        let ghost before = self.rooms@;
        let ghost ids = room_ids(before);
        match self.room_index(info.id.as_str()) {
            Some(i) => {
                let colors = calculate_user_colors(
                    info.own_user_id.as_str(),
                    &info.joined_user_ids,
                );
                self.rooms[i].user_colors = colors;
                self.rooms[i].name = info.name;
                proof {
                    assert(room_ids(self.rooms@) =~= ids);
                    assert forall|k: int| 0 <= k < self.rooms@.len() implies (
                    #[trigger] self.rooms@[k]).messages.wf() by {
                        assert(before[k].messages.wf());
                    }
                    assert(self.rooms@ =~= before.update(i as int, self.rooms@[i as int]));
                }
            },
            None => {
                let ghost copy = info;
                let room = RoomState::from_room(info);
                let ghost added = room;
                insert_room(&mut self.rooms, room);
                proof {
                    assert(is_new_room(added, copy));
                    assert forall|k: int|
                        0 <= k < self.tui@.room_selection.selections.len() implies has_room(
                        self.rooms@,
                        #[trigger] self.tui@.room_selection.selections[k],
                    ) by {
                        law_insert_adds_one_room(
                            before,
                            added,
                            self.tui@.room_selection.selections[k],
                        );
                    }
                }
            },
        }
    }
}

/// Whether a room state is that of a room that has just become known.
pub open spec fn is_new_room(room: RoomState, info: RoomInfo) -> bool {
    &&& room.messages.wf()
    &&& room.messages@ == CacheView::fresh()
    &&& room.id == info.id
    &&& room.name == info.name
    &&& room.latest_read_message == info.latest_read_message
    &&& room.num_unread_notifications == info.num_unread_notifications
    &&& are_user_colors(room.user_colors@, info)
    &&& room.tui.msg_edit@ == Seq::<char>::empty()
    &&& room.tui.msg_edit_type is Simple
    &&& room.tui.selection is Newest
}

/// Whether two states differ in nothing but one room, which keeps its id.
pub open spec fn same_but_room(before: State, after: State, i: int) -> bool {
    &&& 0 <= i < before.rooms@.len()
    &&& after.tui == before.tui
    &&& after.user_id == before.user_id
    &&& after.rooms@ == before.rooms@.update(i, after.rooms@[i])
    &&& after.rooms@[i].id == before.rooms@[i].id
}

/// Taking in what the server tells of a room.
pub open spec fn room_info_updated(before: State, info: RoomInfo, after: State) -> bool {
    &&& after.tui == before.tui
    &&& after.user_id == before.user_id
    &&& if has_room(before.rooms@, info.id@) {
        let i = room_ids(before.rooms@).index_of(info.id@);
        let room = before.rooms@[i];
        let later = after.rooms@[i];
        &&& after.rooms@ == before.rooms@.update(i, later)
        &&& later.name == info.name
        &&& are_user_colors(later.user_colors@, info)
        &&& later == (RoomState { name: later.name, user_colors: later.user_colors, ..room })
    } else {
        exists|room: RoomState|
            after.rooms@ == #[trigger] with_room(before.rooms@, room) && is_new_room(room, info)
    }
}

/// Taking in the new events of a joined room.
pub open spec fn sync_handled(
    before: State,
    id: Seq<char>,
    new_room: Option<RoomState>,
    timeline: SyncTimeline,
    end_token: Seq<char>,
    after: State,
) -> bool {
    let rooms = if has_room(before.rooms@, id) {
        before.rooms@
    } else {
        with_room(before.rooms@, new_room->0)
    };
    let i = room_ids(rooms).index_of(id);
    let later = after.rooms@[i];
    &&& after.tui == before.tui
    &&& after.user_id == before.user_id
    &&& after.rooms@ == rooms.update(i, later)
    &&& later == (RoomState { messages: later.messages, ..rooms[i] })
    &&& later.messages@ == synced(rooms[i].messages@, timeline, end_token)
}

/// Taking in the answer to a query.
pub open spec fn messages_updated(
    before: State,
    id: Seq<char>,
    result: MessageQueryResult,
    after: State,
) -> bool {
    let i = room_ids(before.rooms@).index_of(id);
    let room = before.rooms@[i];
    let later = after.rooms@[i];
    &&& same_but_room(before, after, i)
    &&& later == (RoomState { messages: later.messages, ..room })
    &&& later.messages@ == updated(room.messages@, result)
}

/// Dropping the cached events of a room if some of them could not be decrypted.
pub open spec fn cache_reset(before: State, id: Seq<char>, after: State) -> bool {
    let i = room_ids(before.rooms@).index_of(id);
    let room = before.rooms@[i];
    let later = after.rooms@[i];
    &&& same_but_room(before, after, i)
    &&& later == (RoomState { messages: later.messages, ..room })
    &&& later.messages@ == (if room.messages@.undecrypted {
        room.messages@.cleared()
    } else {
        room.messages@
    })
}

/// Taking note of how many notifications of a room were not seen.
pub open spec fn unread_counted(before: State, id: Seq<char>, count: u64, after: State) -> bool {
    let i = room_ids(before.rooms@).index_of(id);
    &&& same_but_room(before, after, i)
    &&& after.rooms@[i] == (RoomState { num_unread_notifications: count, ..before.rooms@[i] })
}

/// A change of one room leaves the state in order, and the current room where it is.
pub proof fn lemma_room_changed(before: State, after: State, i: int)
    requires
        before.wf(),
        same_but_room(before, after, i),
        after.rooms@[i].messages.wf(),
    ensures
        after.wf(),
        after.current_id() == before.current_id(),
        after.current_index() == before.current_index(),
{
    assert(room_ids(after.rooms@) =~= room_ids(before.rooms@)) by {
        assert forall|k: int| 0 <= k < before.rooms@.len() implies after.rooms@[k].id
            == before.rooms@[k].id by {}
    }
    assert forall|k: int| 0 <= k < after.rooms@.len() implies (
    #[trigger] after.rooms@[k]).messages.wf() by {
        if k != i {
            assert(after.rooms@[k] == before.rooms@[k]);
        }
    }
}

impl State {
    /// Takes in the new events of a joined room. A room that is not known yet is added first.
    pub fn handle_sync(
        &mut self,
        id: &str,
        new_room: Option<RoomState>,
        timeline: SyncTimeline,
        end_token: &str,
    )
        requires
            old(self).wf(),
            all_processable(timeline.events@),
            !has_room(old(self).rooms@, id@) ==> new_room is Some,
            new_room matches Some(r) ==> r.id@ == id@ && r.messages.wf(),
        ensures
            final(self).wf(),
            sync_handled(*old(self), id@, new_room, timeline, end_token@, *final(self)),
    {
        let ghost before = self.rooms@;
        if !self.knows_room(id) {
            match new_room {
                Some(room) => {
                    let ghost added = room;
                    insert_room(&mut self.rooms, room);
                    proof {
                        assert forall|k: int|
                            0 <= k < self.tui@.room_selection.selections.len() implies has_room(
                            self.rooms@,
                            #[trigger] self.tui@.room_selection.selections[k],
                        ) by {
                            law_insert_adds_one_room(
                                before,
                                added,
                                self.tui@.room_selection.selections[k],
                            );
                        }
                        law_insert_adds_one_room(before, added, id@);
                    }
                },
                None => {},
            }
        }
        let ghost middle = *self;
        if let Some(i) = self.room_index(id) {
            self.rooms[i].messages.handle_sync_batch(timeline, end_token);
            proof {
                assert(self.rooms@ =~= middle.rooms@.update(i as int, self.rooms@[i as int]));
                lemma_room_changed(middle, *self, i as int);
            }
        }
    }

    /// What to ask the server for, for a query that drawing left behind.
    pub fn query_for(&self, task: &MessageQueryRequest, last_prev_batch: Option<String>) -> (res:
        MessageRequest)
        requires
            self.wf(),
            has_room(self.rooms@, task.room@),
            last_prev_batch is Some || (task.kind is BeforeCache && self.rooms@[room_ids(
                self.rooms@,
            ).index_of(task.room@)].messages@.begin_token is Some),
        ensures
            is_request(
                self.rooms@[room_ids(self.rooms@).index_of(task.room@)].messages@,
                task.kind,
                optional_text(last_prev_batch),
                res,
            ),
    {
        match self.room_index(task.room.as_str()) {
            Some(i) => {
                self.rooms[i].messages.events_query(task.kind, last_prev_batch)
            },
            None => vstd::pervasive::unreached(),
        }
    }

    /// Takes in the answer to a query.
    pub fn update_messages(&mut self, id: &str, result: MessageQueryResult)
        requires
            old(self).wf(),
            has_room(old(self).rooms@, id@),
            all_processable(result.events.chunk@),
            result.events.chunk@.len() + result.events.state_events >= QUERY_BATCH_SIZE_LIMIT
                ==> result.events.end is Some,
            result.query is Newest ==> result.events.start is Some,
        ensures
            final(self).wf(),
            messages_updated(*old(self), id@, result, *final(self)),
    {
        let ghost before = *self;
        if let Some(i) = self.room_index(id) {
            self.rooms[i].messages.update(result);
            proof {
                assert(self.rooms@ =~= before.rooms@.update(i as int, self.rooms@[i as int]));
                lemma_room_changed(before, *self, i as int);
            }
        }
    }

    /// Drops the cached events of a room for which a key came in, if some of them could not be
    /// decrypted.
    pub fn try_reset_timeline_cache(&mut self, room_id: &str)
        requires
            old(self).wf(),
            has_room(old(self).rooms@, room_id@),
        ensures
            final(self).wf(),
            cache_reset(*old(self), room_id@, *final(self)),
    {
        let ghost before = *self;
        if let Some(i) = self.room_index(room_id) {
            if self.rooms[i].messages.has_undecrypted_messages() {
                self.rooms[i].messages.clear();
            }
            proof {
                assert(self.rooms@ =~= before.rooms@.update(i as int, self.rooms@[i as int]));
                lemma_room_changed(before, *self, i as int);
            }
        }
    }

    /// Takes note of how many notifications of a room were not seen.
    pub fn set_unread_notifications(&mut self, room_id: &str, count: u64)
        requires
            old(self).wf(),
            has_room(old(self).rooms@, room_id@),
        ensures
            final(self).wf(),
            unread_counted(*old(self), room_id@, count, *final(self)),
    {
        let ghost before = *self;
        if let Some(i) = self.room_index(room_id) {
            self.rooms[i].num_unread_notifications = count;
            proof {
                assert(self.rooms@ =~= before.rooms@.update(i as int, self.rooms@[i as int]));
                lemma_room_changed(before, *self, i as int);
            }
        }
    }
}

/// Whether a change of a room's state changes what is shown of the room itself: its name or who
/// is in it.
pub fn changes_room_info(change: &StateChange) -> (res: bool)
    ensures
        res == (change is Member || change is Name || change is CanonicalAlias),
{
    matches!(
        change,
        StateChange::Member(_, _) | StateChange::Name(_) | StateChange::CanonicalAlias(_)
    )
}

/// The signals to block before any thread is started, so that every thread has them blocked.
pub fn init() -> (res: SigSet)
    ensures
        signals_in(res) == set![
            SignalKind::WindowChange,
            SignalKind::Stop,
            SignalKind::Terminate,
            SignalKind::Continue,
        ],
{
    signals_to_block()
}

proof fn lemma_index_of(rooms: Seq<RoomState>, i: int)
    requires
        ids_sorted(room_ids(rooms)),
        0 <= i < rooms.len(),
    ensures
        has_room(rooms, rooms[i].id@),
        room_ids(rooms).index_of(rooms[i].id@) == i,
{
    let ids = room_ids(rooms);
    assert(ids[i] == rooms[i].id@);
    assert(ids.contains(ids[i]));
    let at = ids.index_of(ids[i]);
    assert(0 <= at < ids.len() && ids[at] == ids[i]);
    lemma_sorted_ids_differ(ids, at, i);
}

/// A room that is put in its place is there afterwards, in place of the one with its id if there was
/// one, and every other room is there as it was.
pub proof fn law_room_is_put_in_its_place(rooms: Seq<RoomState>, room: RoomState, k: int)
    requires
        rooms_ok(rooms),
        0 <= k < rooms.len(),
    ensures
        with_room(rooms, room).contains(room),
        rooms[k].id@ != room.id@ ==> with_room(rooms, room).contains(rooms[k]),
        with_room(rooms, room).len() == rooms.len() + (if has_room(rooms, room.id@) {
            0int
        } else {
            1int
        }),
        with_room(Seq::empty(), room) == seq![room],
{
    let ids = room_ids(rooms);
    let after = with_room(rooms, room);
    let p = place_of(ids, room.id@);
    lemma_place_of(ids, room.id@);
    assert(after[p] == room);
    assert(ids[k] == rooms[k].id@);
    if p < rooms.len() && rooms[p].id@ == room.id@ {
        assert(ids[p] == room.id@);
        assert(has_room(rooms, room.id@));
        if rooms[k].id@ != room.id@ {
            assert(after[k] == rooms[k]);
        }
    } else {
        if k < p {
            assert(after[k] == rooms[k]);
        } else {
            assert(after[k + 1] == rooms[k]);
        }
        if has_room(rooms, room.id@) {
            let j = choose|j: int| 0 <= j < ids.len() && ids[j] == room.id@;
            lemma_before_irreflexive(room.id@);
            if j < p {
                assert(text_before(ids[j], room.id@));
            } else {
                assert(!text_before(ids[p], room.id@));
                if p < j {
                    assert(text_before(ids[p], ids[j]));
                }
                assert(ids[p] == rooms[p].id@);
            }
        }
    }
    assert(room_ids(Seq::<RoomState>::empty()).len() == 0);
    assert(with_room(Seq::empty(), room) =~= seq![room]);
}

/// What the server tells of one room, the events that come in for it, the answers to its queries and
/// the number of its notifications leave every other room as it is.
pub proof fn law_other_rooms_stay(
    before: State,
    after: State,
    k: int,
    id: Seq<char>,
    info: RoomInfo,
    new_room: Option<RoomState>,
    timeline: SyncTimeline,
    end_token: Seq<char>,
    result: MessageQueryResult,
    count: u64,
)
    requires
        before.wf(),
        after.wf(),
        0 <= k < before.rooms@.len(),
        before.rooms@[k].id@ != id,
        info.id@ == id,
        !has_room(before.rooms@, id) ==> new_room is Some,
        new_room matches Some(r) ==> r.id@ == id && r.messages.wf(),
        room_info_updated(before, info, after) || sync_handled(
            before,
            id,
            new_room,
            timeline,
            end_token,
            after,
        ) || (has_room(before.rooms@, id) && (messages_updated(before, id, result, after)
            || cache_reset(before, id, after) || unread_counted(before, id, count, after))),
    ensures
        after.rooms@.contains(before.rooms@[k]),
{
    let ids = room_ids(before.rooms@);
    assert(ids[k] == before.rooms@[k].id@);
    if has_room(before.rooms@, id) {
        let i = ids.index_of(id);
        assert(0 <= i < ids.len() && ids[i] == id);
        assert(i != k);
        assert(after.rooms@ == before.rooms@.update(i, after.rooms@[i]));
        assert(after.rooms@[k] == before.rooms@[k]);
    } else if room_info_updated(before, info, after) {
        let room = choose|room: RoomState|
            after.rooms@ == #[trigger] with_room(before.rooms@, room) && is_new_room(room, info);
        law_room_is_put_in_its_place(before.rooms@, room, k);
    } else {
        let room = new_room->0;
        let rooms = with_room(before.rooms@, room);
        law_room_is_put_in_its_place(before.rooms@, room, k);
        law_insert_adds_one_room(before.rooms@, room, id);
        let i = room_ids(rooms).index_of(id);
        assert(0 <= i < rooms.len() && room_ids(rooms)[i] == id);
        let j = choose|j: int| 0 <= j < rooms.len() && rooms[j] == before.rooms@[k];
        assert(after.rooms@[j] == rooms[j]);
    }
}

/// The events that come in for a room that is known go to that room, behind those that it has. What
/// is written and selected there stays.
pub proof fn law_sync_goes_to_its_room(
    before: State,
    after: State,
    i: int,
    timeline: SyncTimeline,
    end_token: Seq<char>,
    new_room: Option<RoomState>,
)
    requires
        before.wf(),
        0 <= i < before.rooms@.len(),
        sync_handled(before, before.rooms@[i].id@, new_room, timeline, end_token, after),
        before.rooms@[i].messages@.end is Reached,
        !timeline.limited,
    ensures
        after.rooms@.len() == before.rooms@.len(),
        after.rooms@[i].id == before.rooms@[i].id,
        after.rooms@[i].messages@.full.items == before.rooms@[i].messages@.full.items + shown_ids(
            usable(timeline.events@),
        ),
        after.rooms@[i].tui == before.rooms@[i].tui,
        after.rooms@[i].name == before.rooms@[i].name,
        after.tui == before.tui,
{
    lemma_index_of(before.rooms@, i);
    let request = MessageRequest {
        query: MessageQuery::Newest,
        direction: Direction::Forward,
        from: before.user_id,
        to: None,
        limit: 0,
    };
    law_sync_is_put_in_order(before.rooms@[i].messages@, timeline, end_token, request, None);
}

/// What the server tells of a room that is known changes its name and colours. Its events, what is
/// written there and what is selected stay. A new room starts with what the server tells, without
/// events.
pub proof fn law_room_info_is_taken_over(before: State, after: State, info: RoomInfo, k: int)
    requires
        before.wf(),
        after.wf(),
        0 <= k < after.rooms@.len(),
        after.rooms@[k].id@ == info.id@,
        room_info_updated(before, info, after),
    ensures
        after.rooms@[k].name@ == info.name@,
        are_user_colors(after.rooms@[k].user_colors@, info),
        forall|i: int|
            0 <= i < before.rooms@.len() && (#[trigger] before.rooms@[i]).id@ == info.id@ ==> {
                &&& after.rooms@[k].messages == before.rooms@[i].messages
                &&& after.rooms@[k].tui == before.rooms@[i].tui
                &&& after.rooms@[k].latest_read_message == before.rooms@[i].latest_read_message
                &&& after.rooms@[k].num_unread_notifications
                    == before.rooms@[i].num_unread_notifications
            },
        !has_room(before.rooms@, info.id@) ==> after.rooms@[k].messages@.full.items.len() == 0
            && after.rooms@[k].tui.selection is Newest && after.rooms@[k].tui.msg_edit@.len() == 0
            && after.rooms@[k].num_unread_notifications == info.num_unread_notifications,
{
    lemma_index_of(after.rooms@, k);
    if has_room(before.rooms@, info.id@) {
        let ids = room_ids(before.rooms@);
        let i = ids.index_of(info.id@);
        assert(0 <= i < ids.len() && ids[i] == info.id@);
        assert(room_ids(after.rooms@) =~= ids) by {
            assert forall|j: int| 0 <= j < ids.len() implies after.rooms@[j].id
                == before.rooms@[j].id by {}
        }
        assert forall|j: int|
            0 <= j < before.rooms@.len() && (#[trigger] before.rooms@[j]).id@
                == info.id@ implies j == k by {
            lemma_index_of(before.rooms@, j);
        }
    } else {
        let room = choose|room: RoomState|
            after.rooms@ == #[trigger] with_room(before.rooms@, room) && is_new_room(room, info);
        let p = place_of(room_ids(before.rooms@), info.id@);
        lemma_place_of(room_ids(before.rooms@), info.id@);
        if p < before.rooms@.len() {
            assert(room_ids(before.rooms@)[p] == before.rooms@[p].id@);
            assert(before.rooms@[p].id@ != info.id@);
        }
        assert(after.rooms@[p] == room);
        lemma_index_of(after.rooms@, p);
        assert forall|i: int|
            0 <= i < before.rooms@.len() && (#[trigger] before.rooms@[i]).id@
                == info.id@ implies false by {
            lemma_index_of(before.rooms@, i);
        }
    }
}

/// What is taken as seen of a room is the last event of its whole timeline, also where a filter does
/// not show it. The server has to be told exactly if that event was not seen before.
pub proof fn law_last_event_is_taken_as_seen(before: RoomState, after: RoomState)
    requires
        is_marked_as_read(before, after),
    ensures
        ({
            let items = before.messages@.full.items;
            &&& items.len() > 0 ==> optional_text(after.latest_read_message) == Some(items.last())
            &&& items.len() == 0 ==> unread_event(before) is None && after.latest_read_message
                == before.latest_read_message
            &&& items.len() > 0 ==> (unread_event(before) is Some <==> optional_text(
                before.latest_read_message,
            ) != Some(items.last()))
            &&& unread_event(before) matches Some(e) ==> e == items.last()
            &&& after.messages == before.messages && after.tui == before.tui && after.name
                == before.name
        }),
{
}

/// All rooms that the client starts with are among its rooms, and no others.
pub proof fn law_all_rooms_are_there_at_the_start(rooms: Seq<RoomState>, id: Seq<char>)
    requires
        forall|i: int| 0 <= i < rooms.len() ==> (#[trigger] rooms[i]).messages.wf(),
    ensures
        rooms_ok(with_rooms(Seq::empty(), rooms)),
        has_room(with_rooms(Seq::empty(), rooms), id) <==> exists|i: int|
            0 <= i < rooms.len() && (#[trigger] rooms[i]).id@ == id,
    decreases rooms.len(),
{
    if rooms.len() == 0 {
        assert(room_ids(with_rooms(Seq::empty(), rooms)).len() == 0);
    } else {
        let front = rooms.drop_last();
        let last = rooms.last();
        assert(last == rooms[rooms.len() - 1]);
        assert forall|i: int| 0 <= i < front.len() implies (#[trigger] front[i]).messages.wf() by {
            assert(front[i] == rooms[i]);
        }
        law_all_rooms_are_there_at_the_start(front, id);
        let sorted = with_rooms(Seq::empty(), front);
        lemma_with_room(sorted, last);
        law_insert_adds_one_room(sorted, last, id);
        if exists|i: int| 0 <= i < front.len() && (#[trigger] front[i]).id@ == id {
            let i = choose|i: int| 0 <= i < front.len() && (#[trigger] front[i]).id@ == id;
            assert(rooms[i].id@ == id);
        }
        if exists|i: int| 0 <= i < rooms.len() && (#[trigger] rooms[i]).id@ == id {
            let i = choose|i: int| 0 <= i < rooms.len() && (#[trigger] rooms[i]).id@ == id;
            if i < front.len() {
                assert(front[i].id@ == id);
            }
        }
    }
}

/// The answer to a query, the number of notifications and the arrival of a key change their room in
/// what they are about, and in nothing else: older events go in front of those that are here, newer
/// ones behind them, the number is the given one, and the events are fetched anew only if some of
/// them could not be decrypted.
pub proof fn law_news_of_a_room_reach_it(
    before: State,
    after: State,
    i: int,
    result: MessageQueryResult,
    count: u64,
)
    requires
        before.wf(),
        0 <= i < before.rooms@.len(),
    ensures
        ({
            let room = before.rooms@[i];
            let later = after.rooms@[i];
            let ids = shown_ids(usable(result.events.chunk@));
            &&& messages_updated(before, room.id@, result, after) && result.query is AfterCache
                ==> later.messages@.full.items == room.messages@.full.items + ids && later.tui
                == room.tui && later.name == room.name && after.tui == before.tui
            &&& messages_updated(before, room.id@, result, after) && result.query is BeforeCache
                ==> later.messages@.full.items == ids.reverse() + room.messages@.full.items
                && later.tui == room.tui && later.name == room.name && after.tui == before.tui
            &&& unread_counted(before, room.id@, count, after) ==> later.num_unread_notifications
                == count && later.messages == room.messages && later.tui == room.tui
                && later.latest_read_message == room.latest_read_message
            &&& cache_reset(before, room.id@, after) ==> later.tui == room.tui && (
            room.messages@.undecrypted ==> later.messages@.full.items.len() == 0
                && later.messages@.redactions == room.messages@.redactions) && (
            !room.messages@.undecrypted ==> later.messages@ == room.messages@)
        }),
{
    let room = before.rooms@[i];
    lemma_index_of(before.rooms@, i);
    law_timeline_grows_at_its_ends(room.messages@, usable(result.events.chunk@));
}

} // verus!
