//! The part of a room's timeline that is held in memory, and walks through it.

use std::collections::VecDeque;
use vstd::hash_map::StringHashMap;
use vstd::prelude::*;

use crate::event::{Event, EventContent, Relation, RoomMessage};
use crate::id_table::IdTable;
use crate::search::{selects, ExprView, Filter};
use crate::text::same;

verus! {

/// A sequence of event ids, and the position that is on record for each of them.
#[verifier::ext_equal]
pub struct SequenceView {
    pub items: Seq<Seq<char>>,
    pub position: Map<Seq<char>, int>,
}

impl SequenceView {
    /// The sequence without items.
    pub open spec fn empty() -> SequenceView {
        SequenceView { items: Seq::empty(), position: Map::empty() }
    }

    /// The sequence with one more item at the end.
    pub open spec fn append(self, id: Seq<char>) -> SequenceView {
        SequenceView {
            items: self.items.push(id),
            position: self.position.insert(id, self.items.len() as int),
        }
    }

    /// The sequence with one more item in front. Every other item moves one position up.
    pub open spec fn prepend(self, id: Seq<char>) -> SequenceView {
        SequenceView {
            items: seq![id] + self.items,
            position: Map::new(
                |k: Seq<char>| k == id || self.position.contains_key(k),
                |k: Seq<char>|
                    if k == id {
                        0
                    } else {
                        self.position[k] + 1
                    },
            ),
        }
    }

    /// The item after the position on record for `id`.
    pub open spec fn next(self, id: Seq<char>) -> Option<Seq<char>> {
        if self.position.contains_key(id) && self.position[id] + 1 < self.items.len() {
            Some(self.items[self.position[id] + 1])
        } else {
            None
        }
    }

    /// The item before the position on record for `id`.
    pub open spec fn prev(self, id: Seq<char>) -> Option<Seq<char>> {
        if self.position.contains_key(id) && self.position[id] > 0 {
            Some(self.items[self.position[id] - 1])
        } else {
            None
        }
    }

    /// The last item.
    pub open spec fn last(self) -> Option<Seq<char>> {
        if self.items.len() > 0 {
            Some(self.items.last())
        } else {
            None
        }
    }

    /// The number by which an item is known for good, if the first item is known by `first`.
    pub open spec fn number(self, first: int, id: Seq<char>) -> Option<int> {
        if self.position.contains_key(id) {
            Some(first + self.position[id])
        } else {
            None
        }
    }

    /// The item that is known by a number, if the first item is known by `first`.
    pub open spec fn numbered(self, first: int, number: int) -> Option<Seq<char>> {
        if 0 <= number - first < self.items.len() {
            Some(self.items[number - first])
        } else {
            None
        }
    }

    /// The positions on record are right: each points at its item, and every item has one.
    pub open spec fn consistent(self) -> bool {
        &&& forall|k: Seq<char>| #[trigger]
            self.position.contains_key(k) ==> 0 <= self.position[k] < self.items.len()
                && self.items[self.position[k]] == k
        &&& forall|i: int|
            0 <= i < self.items.len() ==> self.position.contains_key(#[trigger] self.items[i])
    }
}

/// The position of an event in a sequence, counted from where the first event was put.
#[derive(Copy, Clone)]
pub struct EventSequenceId {
    pos: i128,
}

impl EventSequenceId {
    /// The position as a number.
    pub closed spec fn number(self) -> int {
        self.pos as int
    }
}

/// A sequence of event ids that grows at both ends, with an index from ids to positions. An id
/// that is put in twice is found where it was put last.
pub struct EventSequence {
    index_offset: i128,
    sequence: VecDeque<String>,
    index: StringHashMap<EventSequenceId>,
}

impl View for EventSequence {
    type V = SequenceView;

    closed spec fn view(&self) -> SequenceView {
        SequenceView {
            items: Seq::new(self.sequence@.len(), |i: int| self.sequence@[i]@),
            position: Map::new(
                |k: Seq<char>| self.index@.contains_key(k),
                |k: Seq<char>| self.index@[k].pos + self.index_offset,
            ),
        }
    }
}

impl EventSequence {
    /// The index is right, and no position leaves the range of a machine address.
    pub closed spec fn wf(&self) -> bool {
        &&& self@.consistent()
        &&& 0 <= self.index_offset <= self.sequence@.len()
    }

    /// The number of the first item's id. It goes down by one with each item that is put in front.
    pub closed spec fn first_number(&self) -> int {
        -self.index_offset
    }

    /// The sequence without items.
    pub fn empty() -> (res: Self)
        ensures
            res.wf(),
            res@ == SequenceView::empty(),
            res.first_number() == 0,
    {
        EventSequence {
            sequence: VecDeque::new(),
            index: StringHashMap::new(),
            index_offset: 0,
        }
    }

    fn sequence_index_to_id(&self, id: usize) -> (res: EventSequenceId)
        requires
            self.wf(),
        ensures
            res.number() == self.first_number() + id,
    {
        let _len: usize = self.sequence.len();
        let pos: i128 = id as i128 - self.index_offset;
        EventSequenceId { pos }
    }

    fn id_to_sequence_index(&self, id: EventSequenceId) -> (res: usize)
        requires
            self.wf(),
            self@.numbered(self.first_number(), id.number()) is Some,
        ensures
            res == id.number() - self.first_number(),
    {
        let _len: usize = self.sequence.len();
        let index: i128 = id.pos + self.index_offset;
        index as usize
    }

    /// Puts an item behind the others.
    pub fn append(&mut self, item: String)
        requires
            old(self).wf(),
        ensures
            final(self).wf(),
            final(self)@ == old(self)@.append(item@),
            final(self).first_number() == old(self).first_number(),
    {
        let id = self.sequence_index_to_id(self.sequence.len());
        self.index.insert(item.clone(), id);
        self.sequence.push_back(item);
        proof {
            let before = old(self)@;
            assert(self@ =~= before.append(item@));
            lemma_append_consistent(before, item@);
        }
    }

    /// Puts an item in front of the others. The ids of the others stay as they are.
    pub fn prepend(&mut self, item: String)
        requires
            old(self).wf(),
        ensures
            final(self).wf(),
            final(self)@ == old(self)@.prepend(item@),
            final(self).first_number() == old(self).first_number() - 1,
    {
        let _len: usize = self.sequence.len();
        self.index_offset = self.index_offset + 1;
        let id = EventSequenceId { pos: -self.index_offset };
        self.index.insert(item.clone(), id);
        self.sequence.push_front(item);
        proof {
            let before = old(self)@;
            assert(self@ =~= before.prepend(item@));
            lemma_prepend_consistent(before, item@);
        }
    }

    /// The item with an id.
    pub fn event(&self, id: EventSequenceId) -> (res: &str)
        requires
            self.wf(),
            self@.numbered(self.first_number(), id.number()) is Some,
        ensures
            self@.numbered(self.first_number(), id.number()) == Some(res@),
    {
        let i: usize = self.id_to_sequence_index(id);
        self.sequence[i].as_str()
    }

    /// The id of an item.
    pub fn id(&self, value: &str) -> (res: Option<EventSequenceId>)
        ensures
            match res {
                Some(id) => self@.number(self.first_number(), value@) == Some(id.number()),
                None => self@.number(self.first_number(), value@) is None,
            },
    {
        match self.index.get(value) {
            Some(id) => Some(*id),
            None => None,
        }
    }

    /// The item behind another one.
    pub fn next(&self, e: &str) -> (res: Option<&str>)
        requires
            self.wf(),
        ensures
            match res {
                Some(n) => self@.next(e@) == Some(n@),
                None => self@.next(e@) is None,
            },
    {
        match self.id(e) {
            Some(id) => {
                let len: usize = self.sequence.len();
                let current: usize = self.id_to_sequence_index(id);
                if current < len - 1 {
                    Some(self.event(self.sequence_index_to_id(current + 1)))
                } else {
                    None
                }
            },
            None => None,
        }
    }

    /// The item in front of another one.
    pub fn prev(&self, e: &str) -> (res: Option<&str>)
        requires
            self.wf(),
        ensures
            match res {
                Some(n) => self@.prev(e@) == Some(n@),
                None => self@.prev(e@) is None,
            },
    {
        match self.id(e) {
            Some(id) => {
                let current: usize = self.id_to_sequence_index(id);
                if current > 0 {
                    Some(self.event(self.sequence_index_to_id(current - 1)))
                } else {
                    None
                }
            },
            None => None,
        }
    }

    /// The last item.
    pub fn last(&self) -> (res: Option<&str>)
        ensures
            match res {
                Some(n) => self@.last() == Some(n@),
                None => self@.last() is None,
            },
    {
        let len: usize = self.sequence.len();
        if len > 0 {
            Some(self.sequence[len - 1].as_str())
        } else {
            None
        }
    }
}

/// A reaction to an event.
pub struct Reaction {
    pub event_id: String,
    pub sender: String,
}

/// The reactions to one event that share a key.
pub struct ReactionGroup {
    pub key: String,
    pub events: Vec<Reaction>,
}

/// A key with its reactions, oldest first.
#[verifier::ext_equal]
pub struct GroupView {
    pub key: Seq<char>,
    pub events: Seq<Reaction>,
}

/// The reactions to one event, grouped by key, in the order in which the keys came up.
pub struct Reactions {
    pub groups: Vec<ReactionGroup>,
}

impl View for Reactions {
    type V = Seq<GroupView>;

    open spec fn view(&self) -> Seq<GroupView> {
        Seq::new(
            self.groups@.len(),
            |i: int| GroupView { key: self.groups@[i].key@, events: self.groups@[i].events@ },
        )
    }
}

/// The position of the first group with a key at or after `from`, or the number of groups.
pub open spec fn group_at(groups: Seq<GroupView>, key: Seq<char>, from: int) -> int
    decreases groups.len() - from,
{
    if from >= groups.len() {
        groups.len() as int
    } else if groups[from].key == key {
        from
    } else {
        group_at(groups, key, from + 1)
    }
}

/// The position of the first reaction with an id at or after `from`, or the number of reactions.
pub open spec fn reaction_at(events: Seq<Reaction>, id: Seq<char>, from: int) -> int
    decreases events.len() - from,
{
    if from >= events.len() {
        events.len() as int
    } else if events[from].event_id@ == id {
        from
    } else {
        reaction_at(events, id, from + 1)
    }
}

/// The groups with one more reaction under a key.
pub open spec fn with_reaction(
    groups: Seq<GroupView>,
    key: Seq<char>,
    reaction: Reaction,
) -> Seq<GroupView> {
    let i = group_at(groups, key, 0);
    if i < groups.len() {
        groups.update(
            i,
            GroupView { key: groups[i].key, events: groups[i].events.push(reaction) },
        )
    } else {
        groups.push(GroupView { key, events: seq![reaction] })
    }
}

/// The reactions without the first one with an id.
pub open spec fn dropped(events: Seq<Reaction>, id: Seq<char>) -> Seq<Reaction> {
    let i = reaction_at(events, id, 0);
    if i < events.len() {
        events.remove(i)
    } else {
        events
    }
}

/// The groups from position `from` on without the reaction with an id. A group that loses its
/// last reaction goes away, and the groups behind it stay as they are.
pub open spec fn without_from(groups: Seq<GroupView>, id: Seq<char>, from: int) -> Seq<GroupView>
    decreases groups.len() - from,
{
    if from < 0 || from >= groups.len() {
        groups
    } else {
        let rest = dropped(groups[from].events, id);
        if rest.len() == 0 {
            groups.remove(from)
        } else {
            without_from(
                groups.update(from, GroupView { key: groups[from].key, events: rest }),
                id,
                from + 1,
            )
        }
    }
}

/// No group is empty, and no two groups have the same key.
pub open spec fn tidy(groups: Seq<GroupView>) -> bool {
    &&& forall|i: int| 0 <= i < groups.len() ==> (#[trigger] groups[i]).events.len() > 0
    &&& forall|i: int, j: int|
        0 <= i < j < groups.len() ==> (#[trigger] groups[i]).key != (#[trigger] groups[j]).key
}

proof fn lemma_group_at(groups: Seq<GroupView>, key: Seq<char>, from: int)
    requires
        0 <= from <= groups.len(),
    ensures
        from <= group_at(groups, key, from) <= groups.len(),
        group_at(groups, key, from) < groups.len() ==> groups[group_at(groups, key, from)].key
            == key,
        forall|j: int| from <= j < group_at(groups, key, from) ==> (#[trigger] groups[j]).key != key,
    decreases groups.len() - from,
{
    if from < groups.len() && groups[from].key != key {
        lemma_group_at(groups, key, from + 1);
    }
}

proof fn lemma_reaction_at(events: Seq<Reaction>, id: Seq<char>, from: int)
    requires
        0 <= from <= events.len(),
    ensures
        from <= reaction_at(events, id, from) <= events.len(),
        reaction_at(events, id, from) < events.len() ==> events[reaction_at(
            events,
            id,
            from,
        )].event_id@ == id,
        forall|j: int|
            from <= j < reaction_at(events, id, from) ==> (#[trigger] events[j]).event_id@ != id,
    decreases events.len() - from,
{
    if from < events.len() && events[from].event_id@ != id {
        lemma_reaction_at(events, id, from + 1);
    }
}

proof fn lemma_with_tidy(groups: Seq<GroupView>, key: Seq<char>, reaction: Reaction)
    requires
        tidy(groups),
    ensures
        tidy(with_reaction(groups, key, reaction)),
        with_reaction(groups, key, reaction).len() > 0,
{
    lemma_group_at(groups, key, 0);
}

proof fn lemma_without_tidy(groups: Seq<GroupView>, id: Seq<char>, from: int)
    requires
        tidy(groups),
        0 <= from <= groups.len(),
    ensures
        tidy(without_from(groups, id, from)),
    decreases groups.len() - from,
{
    if from < groups.len() {
        let rest = dropped(groups[from].events, id);
        if rest.len() > 0 {
            lemma_without_tidy(
                groups.update(from, GroupView { key: groups[from].key, events: rest }),
                id,
                from + 1,
            );
        }
    }
}

impl Reactions {
    fn empty() -> (res: Self)
        ensures
            res@ == Seq::<GroupView>::empty(),
    {
        let res = Reactions { groups: Vec::new() };
        proof {
            assert(res@ =~= Seq::<GroupView>::empty());
        }
        res
    }

    /// Adds a reaction under a key.
    fn insert(&mut self, key: &str, reaction: Reaction)
        ensures
            final(self)@ == with_reaction(old(self)@, key@, reaction),
    {
        let ghost whole = self@;
        let mut i: usize = 0;
        while i < self.groups.len() && !same(self.groups[i].key.as_str(), key)
            invariant
                i <= self.groups@.len(),
                self@ == whole,
                whole == old(self)@,
                group_at(whole, key@, 0) == group_at(whole, key@, i as int),
            decreases self.groups@.len() - i,
        {
            i = i + 1;
        }
        proof {
            lemma_group_at(whole, key@, i as int);
        }
        if i < self.groups.len() {
            self.groups[i].events.push(reaction);
            proof {
                assert(self@ =~= with_reaction(whole, key@, reaction));
            }
        } else {
            let mut events: Vec<Reaction> = Vec::new();
            events.push(reaction);
            self.groups.push(ReactionGroup { key: key.to_owned(), events });
            proof {
                assert(self@ =~= with_reaction(whole, key@, reaction));
            }
        }
    }

    /// Takes the reaction with an id away.
    fn remove(&mut self, id: &str)
        ensures
            final(self)@ == without_from(old(self)@, id@, 0),
    {
        let ghost whole = self@;
        let len: usize = self.groups.len();
        let mut i: usize = 0;
        while i < len
            invariant
                i <= len,
                len == self.groups@.len(),
                whole == old(self)@,
                without_from(whole, id@, 0) == without_from(self@, id@, i as int),
            decreases len - i,
        {
            let ghost before = self@;
            drop_reaction(&mut self.groups[i].events, id);
            let ghost rest = dropped(before[i as int].events, id@);
            proof {
                assert(self@ =~= before.update(
                    i as int,
                    GroupView { key: before[i as int].key, events: rest },
                ));
            }
            if self.groups[i].events.len() == 0 {
                self.groups.remove(i);
                proof {
                    assert(self@ =~= before.remove(i as int));
                }
                return ;
            }
            i = i + 1;
        }
    }
}

/// Takes the first reaction with an id away.
fn drop_reaction(events: &mut Vec<Reaction>, id: &str)
    ensures
        final(events)@ == dropped(old(events)@, id@),
{
    let mut i: usize = 0;
    while i < events.len() && !same(events[i].event_id.as_str(), id)
        invariant
            i <= events@.len(),
            events@ == old(events)@,
            reaction_at(events@, id@, 0) == reaction_at(events@, id@, i as int),
        decreases events@.len() - i,
    {
        i = i + 1;
    }
    if i < events.len() {
        events.remove(i);
    }
}

/// Whether the server may hold more events beyond an end of the cache.
#[derive(Clone, Copy, Debug, PartialEq, Eq, Structural)]
pub enum CacheEndState {
    Open,
    Reached,
}

/// A filter, and the events of the timeline that it selects.
struct FilteredTimeline {
    filter: Filter,
    filtered_messages: EventSequence,
}

impl View for FilteredTimeline {
    type V = (ExprView, SequenceView);

    closed spec fn view(&self) -> (ExprView, SequenceView) {
        (self.filter@, self.filtered_messages@)
    }
}

/// The selected events after `event` was put at the end of the timeline.
pub open spec fn try_appended(ft: (ExprView, SequenceView), event: Event) -> (
    ExprView,
    SequenceView,
) {
    if selects(ft.0, event) {
        (ft.0, ft.1.append(event.event_id@))
    } else {
        ft
    }
}

/// The selected events after `event` was put in front of the timeline.
pub open spec fn try_prepended(ft: (ExprView, SequenceView), event: Event) -> (
    ExprView,
    SequenceView,
) {
    if selects(ft.0, event) {
        (ft.0, ft.1.prepend(event.event_id@))
    } else {
        ft
    }
}

impl FilteredTimeline {
    closed spec fn wf(&self) -> bool {
        self.filtered_messages.wf()
    }

    fn try_append(&mut self, event: &Event)
        requires
            old(self).wf(),
        ensures
            final(self).wf(),
            final(self).filter == old(self).filter,
            final(self)@ == try_appended(old(self)@, *event),
    {
        if self.filter.matches(event) {
            self.filtered_messages.append(event.event_id.clone());
        }
    }

    fn try_prepend(&mut self, event: &Event)
        requires
            old(self).wf(),
        ensures
            final(self).wf(),
            final(self).filter == old(self).filter,
            final(self)@ == try_prepended(old(self)@, *event),
    {
        if self.filter.matches(event) {
            self.filtered_messages.prepend(event.event_id.clone());
        }
    }
}

/// The filtered timeline of a sequence of events: the events that the filter selects, in order.
pub open spec fn filtered(
    items: Seq<Seq<char>>,
    events: Map<Seq<char>, Event>,
    filter: ExprView,
) -> SequenceView
    decreases items.len(),
{
    if items.len() == 0 {
        SequenceView::empty()
    } else {
        let before = filtered(items.drop_last(), events, filter);
        if selects(filter, events[items.last()]) {
            before.append(items.last())
        } else {
            before
        }
    }
}

/// What the cache of a room holds.
#[verifier::ext_equal]
pub struct CacheView {
    /// The events that are shown, oldest first.
    pub full: SequenceView,
    /// The filter that is set, and the events that it selects.
    pub filter: Option<(ExprView, SequenceView)>,
    pub events: Map<Seq<char>, Event>,
    pub begin: CacheEndState,
    pub end: CacheEndState,
    pub begin_token: Option<Seq<char>>,
    pub end_token: Option<Seq<char>>,
    /// For each event the reactions to it.
    pub reactions: Map<Seq<char>, Seq<GroupView>>,
    /// For each reaction the event that it is attached to.
    pub reaction_targets: Map<Seq<char>, Seq<char>>,
    /// For each event its newer versions, oldest first.
    pub edits: Map<Seq<char>, Seq<Event>>,
    /// For each newer version the event that it replaces.
    pub originals: Map<Seq<char>, Seq<char>>,
    /// For each removed event the request that removed it.
    pub redactions: Map<Seq<char>, Event>,
    pub undecrypted: bool,
}

/// Whether an event has its own place in the timeline. Reactions, removals and newer versions of
/// another event have none, nor have events without content.
pub open spec fn is_shown(event: Event) -> bool {
    match event.content {
        EventContent::Redacted(_) => false,
        EventContent::Reaction(_, _) => false,
        EventContent::Redaction(_, _) => false,
        EventContent::Message(m) => !(m.relates_to is Replacement),
        _ => true,
    }
}

/// Whether an event can be taken in: a removal has to name what it removes.
pub open spec fn is_processable(event: Event) -> bool {
    event.content matches EventContent::Redaction(id, _) ==> id is Some
}

/// The events of a batch that could be read, in order.
pub open spec fn usable(chunk: Seq<Option<Event>>) -> Seq<Event>
    decreases chunk.len(),
{
    if chunk.len() == 0 {
        Seq::empty()
    } else {
        match chunk.last() {
            Some(e) => usable(chunk.drop_last()).push(e),
            None => usable(chunk.drop_last()),
        }
    }
}

/// The value of a key in a map of sequences, which is empty where the key is missing.
pub open spec fn listed<V>(map: Map<Seq<char>, Seq<V>>, key: Seq<char>) -> Seq<V> {
    if map.contains_key(key) {
        map[key]
    } else {
        Seq::empty()
    }
}

impl CacheView {
    /// The cache that knows nothing.
    pub open spec fn fresh() -> CacheView {
        CacheView {
            full: SequenceView::empty(),
            filter: None,
            events: Map::empty(),
            begin: CacheEndState::Open,
            end: CacheEndState::Open,
            begin_token: None,
            end_token: None,
            reactions: Map::empty(),
            reaction_targets: Map::empty(),
            edits: Map::empty(),
            originals: Map::empty(),
            redactions: Map::empty(),
            undecrypted: false,
        }
    }

    /// What holds of every cache: positions are right, every id in a timeline has its event under
    /// that id, no list of newer versions is empty, and no group of reactions is.
    pub open spec fn valid(self) -> bool {
        &&& self.full.consistent()
        &&& forall|i: int|
            0 <= i < self.full.items.len() ==> self.events.contains_key(
                #[trigger] self.full.items[i],
            )
        &&& self.filter matches Some(f) ==> f.1.consistent() && forall|i: int|
            0 <= i < f.1.items.len() ==> self.events.contains_key(#[trigger] f.1.items[i])
        &&& forall|k: Seq<char>| #[trigger]
            self.events.contains_key(k) ==> self.events[k].event_id@ == k && is_shown(
                self.events[k],
            )
        &&& forall|k: Seq<char>| #[trigger] self.edits.contains_key(k) ==> self.edits[k].len() > 0
        &&& forall|k: Seq<char>| #[trigger]
            self.reactions.contains_key(k) ==> self.reactions[k].len() > 0 && tidy(
                self.reactions[k],
            )
    }

    /// The cache after the removal of the event `id` by the request `event`. A removed reaction
    /// leaves no trace; any other removal is kept.
    pub open spec fn redacted(self, id: Seq<char>, event: Event) -> CacheView {
        if self.reaction_targets.contains_key(id) {
            let target = self.reaction_targets[id];
            let rest = without_from(listed(self.reactions, target), id, 0);
            CacheView {
                reaction_targets: self.reaction_targets.remove(id),
                reactions: if !self.reactions.contains_key(target) {
                    self.reactions
                } else if rest.len() == 0 {
                    self.reactions.remove(target)
                } else {
                    self.reactions.insert(target, rest)
                },
                ..self
            }
        } else {
            CacheView { redactions: self.redactions.insert(id, event), ..self }
        }
    }

    /// The cache after it took note of what an event says about other events.
    pub open spec fn noted(self, event: Event) -> CacheView {
        let id = event.event_id@;
        match event.content {
            EventContent::Encrypted => CacheView { undecrypted: true, ..self },
            EventContent::Redacted(encrypted) => CacheView {
                undecrypted: self.undecrypted || encrypted,
                ..self
            },
            EventContent::Reaction(target, key) => CacheView {
                reaction_targets: self.reaction_targets.insert(id, target@),
                reactions: self.reactions.insert(
                    target@,
                    with_reaction(
                        listed(self.reactions, target@),
                        key@,
                        Reaction { event_id: event.event_id, sender: event.sender },
                    ),
                ),
                ..self
            },
            EventContent::Redaction(Some(target), _) => self.redacted(target@, event),
            EventContent::Message(m) => match m.relates_to {
                Relation::Replacement(original) => CacheView {
                    originals: self.originals.insert(id, original@),
                    edits: self.edits.insert(original@, listed(self.edits, original@).push(event)),
                    ..self
                },
                _ => self,
            },
            _ => self,
        }
    }

    /// The cache after a newer event came in.
    pub open spec fn appended(self, event: Event) -> CacheView {
        let noted = self.noted(event);
        if is_shown(event) {
            CacheView {
                full: noted.full.append(event.event_id@),
                filter: match noted.filter {
                    Some(ft) => Some(try_appended(ft, event)),
                    None => None,
                },
                events: noted.events.insert(event.event_id@, event),
                ..noted
            }
        } else {
            noted
        }
    }

    /// The cache after an older event came in.
    pub open spec fn prepended(self, event: Event) -> CacheView {
        let noted = self.noted(event);
        if is_shown(event) {
            CacheView {
                full: noted.full.prepend(event.event_id@),
                filter: match noted.filter {
                    Some(ft) => Some(try_prepended(ft, event)),
                    None => None,
                },
                events: noted.events.insert(event.event_id@, event),
                ..noted
            }
        } else {
            noted
        }
    }

    /// The cache after several newer events came in, one after the other.
    pub open spec fn all_appended(self, events: Seq<Event>) -> CacheView
        decreases events.len(),
    {
        if events.len() == 0 {
            self
        } else {
            self.all_appended(events.drop_last()).appended(events.last())
        }
    }

    /// The cache after several older events came in, one after the other.
    pub open spec fn all_prepended(self, events: Seq<Event>) -> CacheView
        decreases events.len(),
    {
        if events.len() == 0 {
            self
        } else {
            self.all_prepended(events.drop_last()).prepended(events.last())
        }
    }

    /// The cache with a filter set, or with none.
    pub open spec fn with_filter(self, filter: Option<ExprView>) -> CacheView {
        CacheView {
            filter: match filter {
                Some(f) => Some((f, filtered(self.full.items, self.events, f))),
                None => None,
            },
            ..self
        }
    }

    /// The cache without its events. Removals are kept, and so is the filter.
    pub open spec fn without_events(self) -> CacheView {
        CacheView {
            full: SequenceView::empty(),
            filter: match self.filter {
                Some(ft) => Some((ft.0, SequenceView::empty())),
                None => None,
            },
            events: Map::empty(),
            reactions: Map::empty(),
            reaction_targets: Map::empty(),
            edits: Map::empty(),
            originals: Map::empty(),
            ..self
        }
    }

    /// The cache as new, but for the filter and the removals.
    pub open spec fn cleared(self) -> CacheView {
        CacheView {
            begin: CacheEndState::Open,
            end: CacheEndState::Open,
            begin_token: None,
            end_token: None,
            undecrypted: false,
            ..self.without_events()
        }
    }

    /// The sequence that walks go through: the selected events where a filter is set, else all.
    pub open spec fn walked(self) -> SequenceView {
        match self.filter {
            Some(ft) => ft.1,
            None => self.full,
        }
    }
}

proof fn lemma_noted_valid(c: CacheView, event: Event)
    requires
        c.valid(),
    ensures
        c.noted(event).valid(),
{
    match event.content {
        EventContent::Reaction(target, key) => {
            lemma_with_tidy(
                listed(c.reactions, target@),
                key@,
                Reaction { event_id: event.event_id, sender: event.sender },
            );
        },
        EventContent::Redaction(Some(id), _) => {
            if c.reaction_targets.contains_key(id@) {
                let target = c.reaction_targets[id@];
                lemma_without_tidy(listed(c.reactions, target), id@, 0);
            }
        },
        _ => {},
    }
}

proof fn lemma_append_consistent(s: SequenceView, id: Seq<char>)
    requires
        s.consistent(),
    ensures
        s.append(id).consistent(),
{
    let t = s.append(id);
    assert forall|i: int| 0 <= i < t.items.len() implies t.position.contains_key(
        #[trigger] t.items[i],
    ) by {
        if i < s.items.len() {
            assert(s.position.contains_key(s.items[i]));
        }
    }
}

proof fn lemma_prepend_consistent(s: SequenceView, id: Seq<char>)
    requires
        s.consistent(),
    ensures
        s.prepend(id).consistent(),
{
    let t = s.prepend(id);
    assert forall|i: int| 0 <= i < t.items.len() implies t.position.contains_key(
        #[trigger] t.items[i],
    ) by {
        if i > 0 {
            assert(s.position.contains_key(s.items[i - 1]));
        }
    }
}

proof fn lemma_appended_valid(c: CacheView, event: Event)
    requires
        c.valid(),
    ensures
        c.appended(event).valid(),
{
    lemma_noted_valid(c, event);
    let noted = c.noted(event);
    lemma_append_consistent(noted.full, event.event_id@);
    if let Some(ft) = noted.filter {
        lemma_append_consistent(ft.1, event.event_id@);
    }
}

proof fn lemma_prepended_valid(c: CacheView, event: Event)
    requires
        c.valid(),
    ensures
        c.prepended(event).valid(),
{
    lemma_noted_valid(c, event);
    let noted = c.noted(event);
    lemma_prepend_consistent(noted.full, event.event_id@);
    if let Some(ft) = noted.filter {
        lemma_prepend_consistent(ft.1, event.event_id@);
    }
}

proof fn lemma_filtered_valid(
    items: Seq<Seq<char>>,
    events: Map<Seq<char>, Event>,
    filter: ExprView,
)
    requires
        forall|i: int| 0 <= i < items.len() ==> events.contains_key(#[trigger] items[i]),
    ensures
        filtered(items, events, filter).consistent(),
        forall|i: int|
            0 <= i < filtered(items, events, filter).items.len() ==> events.contains_key(
                #[trigger] filtered(items, events, filter).items[i],
            ),
    decreases items.len(),
{
    if items.len() > 0 {
        lemma_filtered_valid(items.drop_last(), events, filter);
        lemma_append_consistent(filtered(items.drop_last(), events, filter), items.last());
    }
}

/// Which part of the timeline is asked for.
#[derive(Clone, Copy, Debug, PartialEq, Eq, Structural)]
pub enum MessageQuery {
    BeforeCache,
    AfterCache,
    Newest,
}

/// A batch of events as the server answers it. An event that could not be read is `None`.
pub struct MessageBatch {
    pub chunk: Vec<Option<Event>>,
    pub state_events: usize,
    pub start: Option<String>,
    pub end: Option<String>,
}

/// The answer to a query.
pub struct MessageQueryResult {
    pub query: MessageQuery,
    pub events: MessageBatch,
}

/// The new events of a room as a sync brings them.
pub struct SyncTimeline {
    pub events: Vec<Option<Event>>,
    pub limited: bool,
    pub prev_batch: Option<String>,
}

/// The direction in which a query reads the timeline.
#[derive(Clone, Copy, Debug, PartialEq, Eq, Structural)]
pub enum Direction {
    Forward,
    Backward,
}

/// A query with everything that the server needs for it.
pub struct MessageRequest {
    pub query: MessageQuery,
    pub direction: Direction,
    pub from: String,
    pub to: Option<String>,
    pub limit: u32,
}

/// How many events one query asks for.
pub const QUERY_BATCH_SIZE_LIMIT: u32 = 10;

/// Whether a request asks the server for the part of the timeline that is needed, given the token
/// of the last sync. Without a token to go on from, the newest events are asked for.
pub open spec fn is_request(
    c: CacheView,
    query: MessageQuery,
    last_prev_batch: Option<Seq<char>>,
    res: MessageRequest,
) -> bool {
    &&& res.limit == QUERY_BATCH_SIZE_LIMIT
    &&& match query {
        MessageQuery::AfterCache if c.end_token is Some => {
            &&& res.query is AfterCache
            &&& res.direction is Forward
            &&& Some(res.from@) == c.end_token
            &&& optional_text(res.to) == last_prev_batch
        },
        MessageQuery::BeforeCache if c.begin_token is Some => {
            &&& res.query is BeforeCache
            &&& res.direction is Backward
            &&& Some(res.from@) == c.begin_token
            &&& res.to is None
        },
        _ => {
            &&& res.query is Newest
            &&& res.direction is Backward
            &&& Some(res.from@) == last_prev_batch
            &&& optional_text(res.to) == c.end_token
        },
    }
}

/// A place in a room's timeline.
#[derive(Clone, Copy, Debug)]
pub struct RoomTimelineIndex<'a> {
    pos: &'a str,
}

impl<'a> View for RoomTimelineIndex<'a> {
    type V = Seq<char>;

    closed spec fn view(&self) -> Seq<char> {
        self.pos@
    }
}

impl<'a> RoomTimelineIndex<'a> {
    fn new(pos: &'a str) -> (res: RoomTimelineIndex<'a>)
        ensures
            res@ == pos@,
    {
        RoomTimelineIndex { pos }
    }
}

/// Where a walk step leads.
#[derive(Debug, Clone, Copy)]
pub enum EventWalkResult<'a> {
    Message(RoomTimelineIndex<'a>),
    RequiresFetch,
    End,
}

/// Where a walk step leads, by the id of the event.
pub enum WalkView {
    Message(Seq<char>),
    RequiresFetch,
    End,
}

impl<'a> View for EventWalkResult<'a> {
    type V = WalkView;

    open spec fn view(&self) -> WalkView {
        match *self {
            EventWalkResult::Message(m) => WalkView::Message(m@),
            EventWalkResult::RequiresFetch => WalkView::RequiresFetch,
            EventWalkResult::End => WalkView::End,
        }
    }
}

impl<'a> EventWalkResult<'a> {
    /// The event that was reached, if one was.
    pub fn message(self) -> (res: Option<RoomTimelineIndex<'a>>)
        ensures
            match self {
                EventWalkResult::Message(m) => res == Some(m),
                _ => res is None,
            },
    {
        if let EventWalkResult::Message(m) = self {
            Some(m)
        } else {
            None
        }
    }
}

/// Where a walk from the newest event starts.
#[derive(Debug, Clone, Copy)]
pub enum EventWalkResultNewest<'a> {
    Message(RoomTimelineIndex<'a>),
    /// There may be newer events, but this is the newest in the cache.
    RequiresFetch(Option<RoomTimelineIndex<'a>>),
    End,
}

/// Where a walk from the newest event starts, by the id of the event.
pub enum NewestView {
    Message(Seq<char>),
    RequiresFetch(Option<Seq<char>>),
    End,
}

impl<'a> View for EventWalkResultNewest<'a> {
    type V = NewestView;

    open spec fn view(&self) -> NewestView {
        match *self {
            EventWalkResultNewest::Message(m) => NewestView::Message(m@),
            EventWalkResultNewest::RequiresFetch(Some(m)) => NewestView::RequiresFetch(Some(m@)),
            EventWalkResultNewest::RequiresFetch(None) => NewestView::RequiresFetch(None),
            EventWalkResultNewest::End => NewestView::End,
        }
    }
}

impl<'a> EventWalkResultNewest<'a> {
    /// The newest event, if it is known to be the newest.
    pub fn message(self) -> (res: Option<RoomTimelineIndex<'a>>)
        ensures
            match self {
                EventWalkResultNewest::Message(m) => res == Some(m),
                _ => res is None,
            },
    {
        if let EventWalkResultNewest::Message(m) = self {
            Some(m)
        } else {
            None
        }
    }
}

/// An event of the timeline with what became of it.
#[derive(Copy, Clone)]
pub enum TimelineEntry<'a> {
    Simple(&'a Event),
    Deleted(&'a Event),
    Edited { original: &'a Event, versions: &'a Vec<Event> },
}

/// An event of the timeline with what became of it.
pub enum EntryView {
    Simple(Event),
    Deleted(Event),
    Edited { original: Event, versions: Seq<Event> },
}

impl EntryView {
    /// The event as it came in first.
    pub open spec fn original(self) -> Event {
        match self {
            EntryView::Simple(e) => e,
            EntryView::Deleted(e) => e,
            EntryView::Edited { original, .. } => original,
        }
    }

    /// The newest version of the event, unless it was removed.
    pub open spec fn latest(self) -> Option<Event> {
        match self {
            EntryView::Simple(e) => Some(e),
            EntryView::Deleted(_) => None,
            EntryView::Edited { versions, .. } => Some(versions.last()),
        }
    }

    /// An edited event has a newer version.
    pub open spec fn wf(self) -> bool {
        self matches EntryView::Edited { versions, .. } ==> versions.len() > 0
    }
}

impl<'a> View for TimelineEntry<'a> {
    type V = EntryView;

    open spec fn view(&self) -> EntryView {
        match *self {
            TimelineEntry::Simple(e) => EntryView::Simple(*e),
            TimelineEntry::Deleted(e) => EntryView::Deleted(*e),
            TimelineEntry::Edited { original, versions } => EntryView::Edited {
                original: *original,
                versions: versions@,
            },
        }
    }
}

impl<'a> TimelineEntry<'a> {
    /// The newest version of the event, unless it was removed.
    pub fn latest(self) -> (res: Option<&'a Event>)
        requires
            self@.wf(),
        ensures
            match res {
                Some(e) => self@.latest() == Some(*e),
                None => self@.latest() is None,
            },
    {
        match self {
            TimelineEntry::Simple(e) => Some(e),
            TimelineEntry::Deleted(_) => None,
            TimelineEntry::Edited { versions, .. } => Some(&versions[versions.len() - 1]),
        }
    }

    /// The event as it came in first.
    pub fn original(self) -> (res: &'a Event)
        ensures
            *res == self@.original(),
    {
        match self {
            TimelineEntry::Simple(e) => e,
            TimelineEntry::Deleted(e) => e,
            TimelineEntry::Edited { original, .. } => original,
        }
    }

    /// The id of the event.
    pub fn event_id(self) -> (res: &'a str)
        ensures
            res@ == self@.original().event_id@,
    {
        self.original().event_id.as_str()
    }
}

/// The cache after the answer to a query came in. A batch that is not full ends at an end of the
/// timeline. The newest events, if they fill a batch, may lie far from what is cached, which is
/// then dropped.
pub open spec fn updated(c: CacheView, result: MessageQueryResult) -> CacheView {
    let events = usable(result.events.chunk@);
    let is_full = result.events.chunk@.len() + result.events.state_events >= QUERY_BATCH_SIZE_LIMIT;
    let end = optional_text(result.events.end);
    let start = optional_text(result.events.start);
    match result.query {
        MessageQuery::AfterCache => {
            let after = c.all_appended(events);
            if is_full {
                CacheView { end: CacheEndState::Open, end_token: end, ..after }
            } else {
                CacheView { end: CacheEndState::Reached, ..after }
            }
        },
        MessageQuery::BeforeCache => {
            let after = c.all_prepended(events);
            if is_full {
                CacheView { begin: CacheEndState::Open, begin_token: end, ..after }
            } else {
                CacheView { begin: CacheEndState::Reached, begin_token: None, ..after }
            }
        },
        MessageQuery::Newest => {
            let before = if is_full {
                CacheView { begin: CacheEndState::Open, begin_token: end, ..c.without_events() }
            } else {
                c
            };
            CacheView {
                end: CacheEndState::Reached,
                end_token: start,
                ..before
            }.all_appended(events.reverse())
        },
    }
}

/// The cache after the new events of a sync came in. A cache that does not reach the newest event
/// is left alone. A limited sync leaves a gap, so what was cached is dropped.
pub open spec fn synced(c: CacheView, batch: SyncTimeline, end_token: Seq<char>) -> CacheView {
    if c.end is Reached {
        let before = if batch.limited {
            match batch.prev_batch {
                Some(token) => CacheView {
                    begin: CacheEndState::Open,
                    begin_token: Some(token@),
                    ..c.without_events()
                },
                None => CacheView { begin: CacheEndState::Reached, ..c.without_events() },
            }
        } else {
            c
        };
        CacheView { end_token: Some(end_token), ..before }.all_appended(usable(batch.events@))
    } else {
        c
    }
}

/// The characters of a string that may be missing.
pub open spec fn optional_text(s: Option<String>) -> Option<Seq<char>> {
    match s {
        Some(t) => Some(t@),
        None => None,
    }
}

impl CacheView {
    /// The entry of the event under an id.
    pub open spec fn entry(self, id: Seq<char>) -> EntryView {
        let original = self.events[id];
        if self.redactions.contains_key(id) {
            EntryView::Deleted(original)
        } else if self.edits.contains_key(id) {
            EntryView::Edited { original, versions: self.edits[id] }
        } else {
            EntryView::Simple(original)
        }
    }

    /// The entry that an id belongs to: that of the event itself, or that of the event which it
    /// is a newer version of.
    pub open spec fn entry_from_id(self, id: Seq<char>) -> Option<EntryView> {
        let original = if self.originals.contains_key(id) {
            self.originals[id]
        } else {
            id
        };
        if self.events.contains_key(original) {
            Some(self.entry(original))
        } else {
            None
        }
    }

    /// The event after `id`.
    pub open spec fn next(self, id: Seq<char>) -> WalkView {
        match self.walked().next(id) {
            Some(n) => WalkView::Message(n),
            None => match self.end {
                CacheEndState::Reached => WalkView::End,
                CacheEndState::Open => WalkView::RequiresFetch,
            },
        }
    }

    /// The event before `id`.
    pub open spec fn previous(self, id: Seq<char>) -> WalkView {
        match self.walked().prev(id) {
            Some(n) => WalkView::Message(n),
            None => match self.begin {
                CacheEndState::Reached => WalkView::End,
                CacheEndState::Open => WalkView::RequiresFetch,
            },
        }
    }

    /// The newest event.
    pub open spec fn newest(self) -> NewestView {
        match self.end {
            CacheEndState::Reached => match self.walked().last() {
                Some(n) => NewestView::Message(n),
                None => match self.begin {
                    CacheEndState::Reached => NewestView::End,
                    CacheEndState::Open => NewestView::RequiresFetch(None),
                },
            },
            CacheEndState::Open => NewestView::RequiresFetch(self.walked().last()),
        }
    }
}

/// The part of a room's timeline that is held in memory.
pub struct RoomTimelineCache {
    full_timeline: EventSequence,
    filtered_timeline: Option<FilteredTimeline>,
    events: StringHashMap<Event>,
    pub begin: CacheEndState,
    pub end: CacheEndState,
    begin_token: Option<String>,
    end_token: Option<String>,
    reactions: IdTable<Reactions>,
    reactions_to_target: StringHashMap<String>,
    msg_to_edits: IdTable<Vec<Event>>,
    edits_to_original: StringHashMap<String>,
    redactions: StringHashMap<Event>,
    has_undecrypted_messages: bool,
}

impl View for RoomTimelineCache {
    type V = CacheView;

    closed spec fn view(&self) -> CacheView {
        CacheView {
            full: self.full_timeline@,
            filter: match self.filtered_timeline {
                Some(ft) => Some(ft@),
                None => None,
            },
            events: self.events@,
            begin: self.begin,
            end: self.end,
            begin_token: optional_text(self.begin_token),
            end_token: optional_text(self.end_token),
            reactions: self.reactions@.map_values(|r: Reactions| r@),
            reaction_targets: self.reactions_to_target@.map_values(|s: String| s@),
            edits: self.msg_to_edits@.map_values(|v: Vec<Event>| v@),
            originals: self.edits_to_original@.map_values(|s: String| s@),
            redactions: self.redactions@,
            undecrypted: self.has_undecrypted_messages,
        }
    }
}

impl Default for RoomTimelineCache {
    fn default() -> (res: Self)
        ensures
            res.wf(),
            res@ == CacheView::fresh(),
    {
        let res = RoomTimelineCache {
            filtered_timeline: None,
            full_timeline: EventSequence::empty(),
            events: StringHashMap::new(),
            begin: CacheEndState::Open,
            end: CacheEndState::Open,
            begin_token: None,
            end_token: None,
            reactions: IdTable::new(),
            reactions_to_target: StringHashMap::new(),
            msg_to_edits: IdTable::new(),
            edits_to_original: StringHashMap::new(),
            redactions: StringHashMap::new(),
            has_undecrypted_messages: false,
        };
        proof {
            assert(res@ =~= CacheView::fresh());
        }
        res
    }
}

impl RoomTimelineCache {
    /// The tables of the cache are in order.
    pub closed spec fn tables_ok(&self) -> bool {
        &&& self.full_timeline.wf()
        &&& self.filtered_timeline matches Some(ft) ==> ft.wf()
        &&& self.reactions.wf()
        &&& self.msg_to_edits.wf()
    }

    /// The cache is in order.
    pub open spec fn wf(&self) -> bool {
        self.tables_ok() && self@.valid()
    }

    /// The id of the newest event in the cache.
    pub fn end_id(&self) -> (res: Option<&str>)
        requires
            self.wf(),
        ensures
            match res {
                Some(id) => self@.full.last() == Some(id@),
                None => self@.full.last() is None,
            },
    {
        self.full_timeline.last()
    }

    /// The reactions to an event.
    pub fn reactions(&self, id: &str) -> (res: Option<&Reactions>)
        requires
            self.wf(),
        ensures
            match res {
                Some(r) => self@.reactions.contains_key(id@) && self@.reactions[id@] == r@,
                None => !self@.reactions.contains_key(id@),
            },
    {
        self.reactions.get(id)
    }

    fn clear_timeline(&mut self)
        requires
            old(self).wf(),
        ensures
            final(self).wf(),
            final(self)@ == old(self)@.without_events(),
    {
        self.events.clear();
        self.full_timeline = EventSequence::empty();
        self.msg_to_edits.clear();
        self.edits_to_original.clear();
        self.reactions.clear();
        self.reactions_to_target.clear();
        let f = match self.filtered_timeline.take() {
            Some(ft) => Some(ft.filter),
            None => None,
        };
        self.set_filter(f);
        proof {
            assert(self@ =~= old(self)@.without_events());
        }
    }

    /// Forgets everything but the filter and the removals.
    pub fn clear(&mut self)
        requires
            old(self).wf(),
        ensures
            final(self).wf(),
            final(self)@ == old(self)@.cleared(),
    {
        self.clear_timeline();
        self.begin = CacheEndState::Open;
        self.end = CacheEndState::Open;
        self.begin_token = None;
        self.end_token = None;
        self.has_undecrypted_messages = false;
    }

    /// Sets the filter of the walks, or takes it away.
    pub fn set_filter(&mut self, filter: Option<Filter>)
        requires
            old(self).wf(),
        ensures
            final(self).wf(),
            final(self)@ == old(self)@.with_filter(
                match filter {
                    Some(f) => Some(f@),
                    None => None,
                },
            ),
    {
        if let Some(filter) = filter {
            let mut ft = FilteredTimeline { filtered_messages: EventSequence::empty(), filter };
            let ghost items = self@.full.items;
            let ghost events = self@.events;
            let len: usize = self.full_timeline.sequence.len();
            let mut i: usize = 0;
            while i < len
                invariant
                    i <= len,
                    len == self.full_timeline.sequence@.len(),
                    *self == *old(self),
                    self.wf(),
                    items == self@.full.items,
                    events == self@.events,
                    ft.wf(),
                    ft@ == (filter@, filtered(items.take(i as int), events, filter@)),
                decreases len - i,
            {
                let eid = self.full_timeline.sequence[i].as_str();
                proof {
                    assert(items[i as int] == eid@);
                    assert(items.take(i + 1).drop_last() =~= items.take(i as int));
                    assert(items.take(i + 1).last() == eid@);
                }
                if let Some(m) = self.events.get(eid) {
                    ft.try_append(m);
                }
                i = i + 1;
            }
            proof {
                assert(items.take(len as int) =~= items);
                lemma_filtered_valid(items, events, filter@);
            }
            self.filtered_timeline = Some(ft);
        } else {
            self.filtered_timeline = None;
        }
    }

    /// Whether an event came in that could not be decrypted.
    pub fn has_undecrypted_messages(&self) -> (res: bool)
        ensures
            res == self@.undecrypted,
    {
        self.has_undecrypted_messages
    }
}

impl RoomTimelineCache {
    /// Takes note of a reaction.
    fn note_reaction(&mut self, event_id: String, sender: String, target: String, key: String)
        requires
            old(self).wf(),
        ensures
            final(self).tables_ok(),
            final(self)@ == (CacheView {
                reaction_targets: old(self)@.reaction_targets.insert(event_id@, target@),
                reactions: old(self)@.reactions.insert(
                    target@,
                    with_reaction(
                        listed(old(self)@.reactions, target@),
                        key@,
                        Reaction { event_id, sender },
                    ),
                ),
                ..old(self)@
            }),
    {
        self.reactions_to_target.insert(event_id.clone(), target.clone());
        let reaction = Reaction { event_id, sender };
        if self.reactions.contains(target.as_str()) {
            if let Some(reactions) = self.reactions.get_mut(target.as_str()) {
                reactions.insert(key.as_str(), reaction);
            }
        } else {
            let mut reactions = Reactions::empty();
            reactions.insert(key.as_str(), reaction);
            self.reactions.add(target, reactions);
        }
    }

    /// Takes note of the removal of the event `id`.
    fn note_redaction(&mut self, id: String, event: Event)
        requires
            old(self).wf(),
        ensures
            final(self).tables_ok(),
            final(self)@ == old(self)@.redacted(id@, event),
    {
        let target: Option<String> = match self.reactions_to_target.get(id.as_str()) {
            Some(target) => Some(target.clone()),
            None => None,
        };
        if let Some(target) = target {
            self.reactions_to_target.remove(id.as_str());
            let mut emptied = false;
            if let Some(reactions) = self.reactions.get_mut(target.as_str()) {
                reactions.remove(id.as_str());
                emptied = reactions.groups.len() == 0;
            }
            if emptied {
                self.reactions.remove(target.as_str());
            }
        } else {
            self.redactions.insert(id, event);
        }
    }

    /// Takes note of a newer version of the event `original`.
    fn note_edit(&mut self, original: String, event: Event)
        requires
            old(self).wf(),
        ensures
            final(self).tables_ok(),
            final(self)@ == (CacheView {
                originals: old(self)@.originals.insert(event.event_id@, original@),
                edits: old(self)@.edits.insert(
                    original@,
                    listed(old(self)@.edits, original@).push(event),
                ),
                ..old(self)@
            }),
    {
        self.edits_to_original.insert(event.event_id.clone(), original.clone());
        if self.msg_to_edits.contains(original.as_str()) {
            if let Some(edits) = self.msg_to_edits.get_mut(original.as_str()) {
                edits.push(event);
            }
        } else {
            let mut edits: Vec<Event> = Vec::new();
            edits.push(event);
            self.msg_to_edits.add(original, edits);
        }
    }

    /// Takes note of what an event says about other events, and hands it back if it has a place of
    /// its own in the timeline.
    pub fn pre_process_message(&mut self, event: Event) -> (res: Option<Event>)
        requires
            old(self).wf(),
            is_processable(event),
        ensures
            final(self).wf(),
            final(self)@ == old(self)@.noted(event),
            res == (if is_shown(event) {
                Some(event)
            } else {
                None
            }),
    {
        proof {
            lemma_noted_valid(self@, event);
        }
        match &event.content {
            EventContent::Encrypted => {
                self.has_undecrypted_messages = true;
                Some(event)
            },
            EventContent::Redacted(encrypted) => {
                if *encrypted {
                    self.has_undecrypted_messages = true;
                }
                None
            },
            EventContent::Reaction(target, key) => {
                let target = target.clone();
                let key = key.clone();
                self.note_reaction(event.event_id, event.sender, target, key);
                None
            },
            EventContent::Redaction(id, _) => {
                match id {
                    Some(id) => {
                        let id = id.clone();
                        self.note_redaction(id, event);
                    },
                    None => {},
                }
                None
            },
            EventContent::Message(m) => {
                match &m.relates_to {
                    Relation::Replacement(original) => {
                        let original = original.clone();
                        self.note_edit(original, event);
                        None
                    },
                    _ => Some(event),
                }
            },
            _ => Some(event),
        }
    }

    fn append(&mut self, msg: Event)
        requires
            old(self).wf(),
            is_processable(msg),
        ensures
            final(self).wf(),
            final(self)@ == old(self)@.appended(msg),
    {
        proof {
            lemma_appended_valid(self@, msg);
        }
        if let Some(msg) = self.pre_process_message(msg) {
            let event_id = msg.event_id.clone();
            self.full_timeline.append(event_id.clone());
            if let Some(f) = &mut self.filtered_timeline {
                f.try_append(&msg);
            }
            self.events.insert(event_id, msg);
        }
    }

    fn prepend(&mut self, msg: Event)
        requires
            old(self).wf(),
            is_processable(msg),
        ensures
            final(self).wf(),
            final(self)@ == old(self)@.prepended(msg),
    {
        proof {
            lemma_prepended_valid(self@, msg);
        }
        if let Some(msg) = self.pre_process_message(msg) {
            let event_id = msg.event_id.clone();
            self.full_timeline.prepend(event_id.clone());
            if let Some(f) = &mut self.filtered_timeline {
                f.try_prepend(&msg);
            }
            self.events.insert(event_id, msg);
        }
    }
}

/// The events that could be read, in order.
fn transform_events(chunk: Vec<Option<Event>>) -> (res: Vec<Event>)
    ensures
        res@ == usable(chunk@),
{
    let mut events: Vec<Event> = Vec::new();
    let ghost all = chunk@;
    for item in it: chunk
        invariant
            it.seq() == all,
            events@ == usable(all.take(it.index() as int)),
    {
        proof {
            let i = it.index() as int;
            assert(all.take(i + 1).drop_last() =~= all.take(i));
            assert(all.take(i + 1).last() == all[i]);
        }
        if let Some(event) = item {
            events.push(event);
        }
    }
    proof {
        assert(all.take(all.len() as int) =~= all);
    }
    events
}

/// Every event that could be read can be taken in.
pub open spec fn all_processable(chunk: Seq<Option<Event>>) -> bool {
    forall|i: int| 0 <= i < chunk.len() ==> (#[trigger] chunk[i] matches Some(e) ==> is_processable(e))
}

proof fn lemma_usable_processable(chunk: Seq<Option<Event>>)
    requires
        all_processable(chunk),
    ensures
        forall|i: int| 0 <= i < usable(chunk).len() ==> is_processable(#[trigger] usable(chunk)[i]),
    decreases chunk.len(),
{
    if chunk.len() > 0 {
        let front = chunk.drop_last();
        assert forall|i: int| 0 <= i < front.len() implies (#[trigger] front[i] matches Some(e)
            ==> is_processable(e)) by {
            assert(front[i] == chunk[i]);
        }
        lemma_usable_processable(front);
        let last = chunk[chunk.len() - 1];
        assert forall|i: int| 0 <= i < usable(chunk).len() implies is_processable(
            #[trigger] usable(chunk)[i],
        ) by {
            match last {
                Some(e) => {
                    assert(usable(chunk) == usable(front).push(e));
                    if i < usable(front).len() {
                        assert(is_processable(usable(front)[i]));
                    }
                },
                None => {},
            }
        }
    }
}

impl RoomTimelineCache {
    /// Takes in newer events, one after the other.
    fn append_all(&mut self, events: Vec<Event>)
        requires
            old(self).wf(),
            forall|i: int| 0 <= i < events@.len() ==> is_processable(#[trigger] events@[i]),
        ensures
            final(self).wf(),
            final(self)@ == old(self)@.all_appended(events@),
    {
        let ghost all = events@;
        let ghost before = self@;
        for event in it: events
            invariant
                it.seq() == all,
                self.wf(),
                before == old(self)@,
                self@ == before.all_appended(all.take(it.index() as int)),
                forall|i: int| 0 <= i < all.len() ==> is_processable(#[trigger] all[i]),
        {
            proof {
                let i = it.index() as int;
                assert(all.take(i + 1).drop_last() =~= all.take(i));
                assert(all.take(i + 1).last() == all[i]);
            }
            self.append(event);
        }
        proof {
            assert(all.take(all.len() as int) =~= all);
        }
    }

    /// Takes in older events, one after the other.
    fn prepend_all(&mut self, events: Vec<Event>)
        requires
            old(self).wf(),
            forall|i: int| 0 <= i < events@.len() ==> is_processable(#[trigger] events@[i]),
        ensures
            final(self).wf(),
            final(self)@ == old(self)@.all_prepended(events@),
    {
        let ghost all = events@;
        let ghost before = self@;
        for event in it: events
            invariant
                it.seq() == all,
                self.wf(),
                before == old(self)@,
                self@ == before.all_prepended(all.take(it.index() as int)),
                forall|i: int| 0 <= i < all.len() ==> is_processable(#[trigger] all[i]),
        {
            proof {
                let i = it.index() as int;
                assert(all.take(i + 1).drop_last() =~= all.take(i));
                assert(all.take(i + 1).last() == all[i]);
            }
            self.prepend(event);
        }
        proof {
            assert(all.take(all.len() as int) =~= all);
        }
    }

    /// Takes in newer events, the last of the list first.
    fn append_all_backwards(&mut self, events: Vec<Event>)
        requires
            old(self).wf(),
            forall|i: int| 0 <= i < events@.len() ==> is_processable(#[trigger] events@[i]),
        ensures
            final(self).wf(),
            final(self)@ == old(self)@.all_appended(events@.reverse()),
    {
        let mut events = events;
        let ghost all = events@;
        let ghost before = self@;
        let ghost backwards = all.reverse();
        let ghost mut done: int = 0;
        while events.len() > 0
            invariant
                self.wf(),
                before == old(self)@,
                backwards == all.reverse(),
                0 <= done <= all.len(),
                events@ == all.take(all.len() - done),
                self@ == before.all_appended(backwards.take(done)),
                forall|i: int| 0 <= i < all.len() ==> is_processable(#[trigger] all[i]),
            decreases events@.len(),
        {
            if let Some(event) = events.pop() {
                proof {
                    assert(backwards.take(done + 1).drop_last() =~= backwards.take(done));
                    assert(backwards.take(done + 1).last() == event);
                    assert(all[all.len() - done - 1] == event);
                }
                self.append(event);
                proof {
                    done = done + 1;
                }
            }
        }
        proof {
            assert(backwards.take(done) =~= backwards);
        }
    }

    /// Takes in the answer to a query.
    pub fn update(&mut self, query_result: MessageQueryResult)
        requires
            old(self).wf(),
            all_processable(query_result.events.chunk@),
            query_result.events.chunk@.len() + query_result.events.state_events
                >= QUERY_BATCH_SIZE_LIMIT ==> query_result.events.end is Some,
            query_result.query is Newest ==> query_result.events.start is Some,
        ensures
            final(self).wf(),
            final(self)@ == updated(old(self)@, query_result),
    {
        let batch = query_result.events;
        let limit: usize = QUERY_BATCH_SIZE_LIMIT as usize;
        let len: usize = batch.chunk.len();
        let is_full: bool = len >= limit || batch.state_events >= limit - len;
        proof {
            lemma_usable_processable(batch.chunk@);
        }
        let events = transform_events(batch.chunk);
        match query_result.query {
            MessageQuery::AfterCache => {
                self.append_all(events);
                if is_full {
                    self.end_token = batch.end;
                    self.end = CacheEndState::Open;
                } else {
                    // The server names no token at the newest end of the timeline, so none is set.
                    self.end = CacheEndState::Reached;
                }
            },
            MessageQuery::BeforeCache => {
                self.prepend_all(events);
                if is_full {
                    self.begin_token = batch.end;
                    self.begin = CacheEndState::Open;
                } else {
                    self.begin_token = None;
                    self.begin = CacheEndState::Reached;
                }
            },
            MessageQuery::Newest => {
                if is_full {
                    // The batch may or may not reach back to the cached events. Tokens cannot be
                    // compared, so only a batch that is not full is known to.
                    self.clear_timeline();
                    self.begin_token = batch.end;
                    self.begin = CacheEndState::Open;
                }
                self.end_token = batch.start;
                self.end = CacheEndState::Reached;
                self.append_all_backwards(events);
            },
        }
    }

    /// Takes in the new events of a sync.
    pub fn handle_sync_batch(&mut self, batch: SyncTimeline, end_token: &str)
        requires
            old(self).wf(),
            all_processable(batch.events@),
        ensures
            final(self).wf(),
            final(self)@ == synced(old(self)@, batch, end_token@),
    {
        if matches!(self.end, CacheEndState::Reached) {
            if batch.limited {
                self.clear_timeline();
                if let Some(token) = batch.prev_batch {
                    self.begin_token = Some(token);
                    self.begin = CacheEndState::Open;
                } else {
                    self.begin = CacheEndState::Reached;
                }
            }
            self.end_token = Some(end_token.to_owned());
            self.end = CacheEndState::Reached;
            proof {
                lemma_usable_processable(batch.events@);
            }
            self.append_all(transform_events(batch.events));
        }
    }

    fn entry_from_event<'a>(&'a self, original: &'a Event) -> (res: TimelineEntry<'a>)
        requires
            self.wf(),
            self@.events.contains_key(original.event_id@),
            self@.events[original.event_id@] == *original,
        ensures
            res@ == self@.entry(original.event_id@),
            res@.wf(),
    {
        if self.redactions.contains_key(original.event_id.as_str()) {
            TimelineEntry::Deleted(original)
        } else if let Some(e) = self.msg_to_edits.get(original.event_id.as_str()) {
            proof {
                assert(self@.edits.contains_key(original.event_id@));
            }
            TimelineEntry::Edited { original, versions: e }
        } else {
            TimelineEntry::Simple(original)
        }
    }

    /// The entry at a place in the timeline.
    pub fn message(&self, id: RoomTimelineIndex) -> (res: TimelineEntry<'_>)
        requires
            self.wf(),
            self@.events.contains_key(id@),
        ensures
            res@ == self@.entry(id@),
            res@.wf(),
    {
        match self.events.get(id.pos) {
            Some(original) => self.entry_from_event(original),
            None => vstd::pervasive::unreached(),
        }
    }

    fn find<'a>(&'a self, id: &'a str) -> (res: Option<RoomTimelineIndex<'a>>)
        ensures
            match res {
                Some(i) => self@.events.contains_key(id@) && i@ == id@,
                None => !self@.events.contains_key(id@),
            },
    {
        if self.events.contains_key(id) {
            Some(RoomTimelineIndex::new(id))
        } else {
            None
        }
    }

    /// The entry that an id belongs to.
    pub fn message_from_id(&self, id: &str) -> (res: Option<TimelineEntry<'_>>)
        requires
            self.wf(),
        ensures
            match res {
                Some(e) => self@.entry_from_id(id@) == Some(e@) && e@.wf(),
                None => self@.entry_from_id(id@) is None,
            },
    {
        let original_id = match self.edits_to_original.get(id) {
            Some(v) => v.as_str(),
            None => id,
        };
        match self.events.get(original_id) {
            Some(e) => Some(self.entry_from_event(e)),
            None => None,
        }
    }

    /// Starts a walk at an event, if it is in the cache.
    pub fn walk_from_known<'a>(&'a self, id: &'a str) -> (res: EventWalkResult<'a>)
        ensures
            res@ == (if self@.events.contains_key(id@) {
                WalkView::Message(id@)
            } else {
                WalkView::RequiresFetch
            }),
    {
        if let Some(i) = self.find(id) {
            EventWalkResult::Message(i)
        } else {
            EventWalkResult::RequiresFetch
        }
    }

    /// Starts a walk at the newest event.
    pub fn walk_from_newest<'a>(&'a self) -> (res: EventWalkResultNewest<'a>)
        requires
            self.wf(),
        ensures
            res@ == self@.newest(),
            res@ matches NewestView::Message(id) ==> self@.events.contains_key(id),
            res@ matches NewestView::RequiresFetch(Some(id)) ==> self@.events.contains_key(id),
    {
        let newest = if let Some(ft) = &self.filtered_timeline {
            ft.filtered_messages.last()
        } else {
            self.full_timeline.last()
        };
        let newest_index = match newest {
            Some(i) => Some(RoomTimelineIndex::new(i)),
            None => None,
        };
        proof {
            assert(newest_index matches Some(i) ==> i@ == self@.walked().items.last());
        }
        match self.end {
            CacheEndState::Reached => {
                if let Some(i) = newest_index {
                    EventWalkResultNewest::Message(i)
                } else {
                    match self.begin {
                        CacheEndState::Reached => EventWalkResultNewest::End,
                        CacheEndState::Open => EventWalkResultNewest::RequiresFetch(None),
                    }
                }
            },
            CacheEndState::Open => EventWalkResultNewest::RequiresFetch(newest_index),
        }
    }

    /// The event after a place in the timeline.
    pub fn next<'a>(&'a self, pos: RoomTimelineIndex) -> (res: EventWalkResult<'a>)
        requires
            self.wf(),
        ensures
            res@ == self@.next(pos@),
            res@ matches WalkView::Message(id) ==> self@.events.contains_key(id),
    {
        let new_pos = if let Some(ft) = &self.filtered_timeline {
            ft.filtered_messages.next(pos.pos)
        } else {
            self.full_timeline.next(pos.pos)
        };
        if let Some(new_pos) = new_pos {
            EventWalkResult::Message(RoomTimelineIndex::new(new_pos))
        } else {
            match self.end {
                CacheEndState::Reached => EventWalkResult::End,
                CacheEndState::Open => EventWalkResult::RequiresFetch,
            }
        }
    }

    /// The event before a place in the timeline.
    pub fn previous<'a>(&'a self, pos: RoomTimelineIndex) -> (res: EventWalkResult<'a>)
        requires
            self.wf(),
        ensures
            res@ == self@.previous(pos@),
            res@ matches WalkView::Message(id) ==> self@.events.contains_key(id),
    {
        let new_pos = if let Some(ft) = &self.filtered_timeline {
            ft.filtered_messages.prev(pos.pos)
        } else {
            self.full_timeline.prev(pos.pos)
        };
        if let Some(new_pos) = new_pos {
            EventWalkResult::Message(RoomTimelineIndex::new(new_pos))
        } else {
            match self.begin {
                CacheEndState::Reached => EventWalkResult::End,
                CacheEndState::Open => EventWalkResult::RequiresFetch,
            }
        }
    }

    /// Whether the cache reaches up to the newest event of the room.
    pub fn reached_newest(&self) -> (res: bool)
        ensures
            res == (self@.end is Reached),
    {
        matches!(self.end, CacheEndState::Reached)
    }

    /// Whether the token of the last sync is needed to ask the server for more events.
    pub fn needs_last_prev_batch(&self, query: &MessageQuery) -> (res: bool)
        ensures
            res == !(query is BeforeCache && self@.begin_token is Some),
    {
        !(matches!(query, MessageQuery::BeforeCache) && self.begin_token.is_some())
    }

    /// What to ask the server for. The token of the last sync is needed unless older events are
    /// asked for and there is a token to go on from.
    pub fn events_query(&self, query: MessageQuery, last_prev_batch: Option<String>) -> (res:
        MessageRequest)
        requires
            last_prev_batch is Some || (query is BeforeCache && self@.begin_token is Some),
        ensures
            is_request(self@, query, optional_text(last_prev_batch), res),
    {
        match (query, &self.begin_token, &self.end_token) {
            (MessageQuery::AfterCache, _, Some(t)) => MessageRequest {
                query: MessageQuery::AfterCache,
                direction: Direction::Forward,
                from: t.clone(),
                to: last_prev_batch,
                limit: QUERY_BATCH_SIZE_LIMIT,
            },
            (MessageQuery::BeforeCache, Some(t), _) => MessageRequest {
                query: MessageQuery::BeforeCache,
                direction: Direction::Backward,
                from: t.clone(),
                to: None,
                limit: QUERY_BATCH_SIZE_LIMIT,
            },
            (_, _, t) => MessageRequest {
                query: MessageQuery::Newest,
                direction: Direction::Backward,
                from: last_prev_batch.unwrap(),
                to: t.clone(),
                limit: QUERY_BATCH_SIZE_LIMIT,
            },
        }
    }
}

/// The ids of the events among `events` that have their own place in the timeline.
pub open spec fn shown_ids(events: Seq<Event>) -> Seq<Seq<char>>
    decreases events.len(),
{
    if events.len() == 0 {
        Seq::empty()
    } else if is_shown(events.last()) {
        shown_ids(events.drop_last()).push(events.last().event_id@)
    } else {
        shown_ids(events.drop_last())
    }
}

/// The timeline only grows, and only at its ends: newer events are put behind the ones that are
/// there, older ones in front of them, the last one that came in outermost.
pub proof fn law_timeline_grows_at_its_ends(c: CacheView, events: Seq<Event>)
    ensures
        c.all_appended(events).full.items == c.full.items + shown_ids(events),
        c.all_prepended(events).full.items == shown_ids(events).reverse() + c.full.items,
    decreases events.len(),
{
    let ids = shown_ids(events);
    if events.len() == 0 {
        assert(c.full.items + ids =~= c.full.items);
        assert(ids.reverse() + c.full.items =~= c.full.items);
    } else {
        law_timeline_grows_at_its_ends(c, events.drop_last());
        let before = shown_ids(events.drop_last());
        if is_shown(events.last()) {
            let id = events.last().event_id@;
            assert(c.all_appended(events).full.items =~= c.full.items + ids);
            assert(ids.reverse() =~= seq![id] + before.reverse());
            assert(c.all_prepended(events).full.items =~= ids.reverse() + c.full.items);
        }
    }
}

/// Where no id occurs twice, walking leads from each event to its neighbours, and a step in one
/// direction undoes a step in the other.
pub proof fn law_walk_visits_neighbours(s: SequenceView, i: int)
    requires
        s.consistent(),
        s.items.no_duplicates(),
        0 <= i < s.items.len(),
    ensures
        s.next(s.items[i]) == (if i + 1 < s.items.len() {
            Some(s.items[i + 1])
        } else {
            None
        }),
        s.prev(s.items[i]) == (if i > 0 {
            Some(s.items[i - 1])
        } else {
            None
        }),
        s.next(s.items[i]) matches Some(n) ==> s.prev(n) == Some(s.items[i]),
        s.prev(s.items[i]) matches Some(p) ==> s.next(p) == Some(s.items[i]),
{
    assert(s.position.contains_key(s.items[i]));
    assert(s.position[s.items[i]] == i);
    if i + 1 < s.items.len() {
        assert(s.position.contains_key(s.items[i + 1]));
    }
    if i > 0 {
        assert(s.position.contains_key(s.items[i - 1]));
    }
}

/// Where no id occurs twice, one event is next to another exactly where it directly follows it,
/// which is also where the other is the previous one. Nothing is next to an event that is missing
/// or the last.
pub proof fn law_next_is_what_follows(s: SequenceView, e: Seq<char>, f: Seq<char>)
    requires
        s.consistent(),
        s.items.no_duplicates(),
    ensures
        s.next(e) == Some(f) <==> s.prev(f) == Some(e),
        s.next(e) == Some(f) <==> exists|i: int|
            0 <= i < s.items.len() - 1 && #[trigger] s.items[i] == e && s.items[i + 1] == f,
        s.next(e) is None <==> !s.items.contains(e) || s.last() == Some(e),
{
    if s.position.contains_key(e) {
        law_walk_visits_neighbours(s, s.position[e]);
        assert(s.items[s.position[e]] == e);
    }
    if s.position.contains_key(f) {
        law_walk_visits_neighbours(s, s.position[f]);
        assert(s.items[s.position[f]] == f);
    }
    assert forall|i: int|
        0 <= i < s.items.len() - 1 && #[trigger] s.items[i] == e && s.items[i + 1] == f implies s.next(e)
        == Some(f) by {
        law_walk_visits_neighbours(s, i);
    }
    if s.items.contains(e) {
        let i = choose|i: int| 0 <= i < s.items.len() && s.items[i] == e;
        assert(s.position.contains_key(s.items[i]));
    }
}

/// Whatever was put into a sequence, the positions on record are right.
pub proof fn law_sequence_is_consistent(s: EventSequence)
    requires
        s.wf(),
    ensures
        s@.consistent(),
{
}

/// An event that is put in at either end of a sequence is found by its new id, and every id that
/// was handed out before still names the same event, as does every event its id. In front of
/// others an event leaves the last one as it is. If it was not there before, still no id occurs
/// twice.
pub proof fn law_ids_stay_valid(s: SequenceView, first: int, item: Seq<char>)
    requires
        s.consistent(),
    ensures
        s.prepend(item).consistent(),
        s.append(item).consistent(),
        s.prepend(item).items == seq![item] + s.items,
        s.append(item).items == s.items.push(item),
        forall|n: int| #[trigger]
            s.numbered(first, n) is Some ==> s.prepend(item).numbered(first - 1, n) == s.numbered(
                first,
                n,
            ) && s.append(item).numbered(first, n) == s.numbered(first, n),
        forall|k: Seq<char>|
            k != item ==> #[trigger] s.prepend(item).number(first - 1, k) == s.number(first, k),
        forall|k: Seq<char>|
            k != item ==> #[trigger] s.append(item).number(first, k) == s.number(first, k),
        forall|k: Seq<char>| #[trigger]
            s.number(first, k) matches Some(n) ==> s.numbered(first, n) == Some(k),
        s.prepend(item).number(first - 1, item) == Some(first - 1),
        s.prepend(item).numbered(first - 1, first - 1) == Some(item),
        s.append(item).number(first, item) == Some(first + s.items.len()),
        s.append(item).numbered(first, first + s.items.len()) == Some(item),
        s.prepend(item).last() == (if s.items.len() > 0 {
            s.last()
        } else {
            Some(item)
        }),
        s.items.no_duplicates() && !s.items.contains(item) ==> s.prepend(
            item,
        ).items.no_duplicates() && s.append(item).items.no_duplicates(),
{
    lemma_prepend_consistent(s, item);
    lemma_append_consistent(s, item);
}

/// The filtered timeline shows what the filter selects of the whole timeline.
pub open spec fn filter_up_to_date(c: CacheView) -> bool {
    c.filter matches Some(ft) ==> ft.1 == filtered(c.full.items, c.events, ft.0)
}

proof fn lemma_filtered_other_events(
    items: Seq<Seq<char>>,
    events: Map<Seq<char>, Event>,
    filter: ExprView,
    id: Seq<char>,
    event: Event,
)
    requires
        !items.contains(id),
    ensures
        filtered(items, events.insert(id, event), filter) == filtered(items, events, filter),
    decreases items.len(),
{
    if items.len() > 0 {
        assert(items[items.len() - 1] == items.last());
        assert forall|i: int| 0 <= i < items.drop_last().len() implies items.drop_last()[i] != id by {
            assert(items[i] != id);
        }
        lemma_filtered_other_events(items.drop_last(), events, filter, id, event);
    }
}

proof fn lemma_filtered_prepend(
    items: Seq<Seq<char>>,
    events: Map<Seq<char>, Event>,
    filter: ExprView,
    id: Seq<char>,
)
    requires
        !items.contains(id),
    ensures
        filtered(seq![id] + items, events, filter) == (if selects(filter, events[id]) {
            filtered(items, events, filter).prepend(id)
        } else {
            filtered(items, events, filter)
        }),
    decreases items.len(),
{
    let longer = seq![id] + items;
    if items.len() == 0 {
        assert(longer.drop_last() =~= Seq::<Seq<char>>::empty());
        assert(filtered(longer.drop_last(), events, filter) == SequenceView::empty());
        assert(SequenceView::empty().append(id) =~= SequenceView::empty().prepend(id));
    } else {
        let front = items.drop_last();
        assert forall|i: int| 0 <= i < front.len() implies front[i] != id by {
            assert(items[i] != id);
        }
        lemma_filtered_prepend(front, events, filter, id);
        assert(longer.drop_last() =~= seq![id] + front);
        let last = items.last();
        assert(last == items[items.len() - 1]);
        assert(longer.last() == last);
        let part = filtered(front, events, filter);
        assert(part.prepend(id).append(last) =~= part.append(last).prepend(id));
    }
}

/// An event with a new id that comes in at either end leaves the filtered timeline in step with
/// the whole timeline.
pub proof fn law_filter_stays_up_to_date(c: CacheView, event: Event)
    requires
        c.valid(),
        filter_up_to_date(c),
        !c.full.items.contains(event.event_id@),
    ensures
        filter_up_to_date(c.appended(event)),
        filter_up_to_date(c.prepended(event)),
{
    let id = event.event_id@;
    if is_shown(event) {
        if let Some(ft) = c.filter {
            let events = c.events.insert(id, event);
            lemma_filtered_other_events(c.full.items, c.events, ft.0, id, event);
            assert(c.full.items.push(id).drop_last() =~= c.full.items);
            lemma_filtered_prepend(c.full.items, events, ft.0, id);
        }
    }
}

/// Setting a filter brings the filtered timeline in step with the whole timeline.
pub proof fn law_set_filter_is_up_to_date(c: CacheView, filter: Option<ExprView>)
    ensures
        filter_up_to_date(c.with_filter(filter)),
        filter_up_to_date(c.without_events()),
        c.with_filter(filter).with_filter(None) == c.with_filter(None),
{
}

proof fn lemma_without_unrelated(groups: Seq<GroupView>, id: Seq<char>, from: int)
    requires
        tidy(groups),
        0 <= from <= groups.len(),
        forall|i: int|
            from <= i < groups.len() ==> no_reaction((#[trigger] groups[i]).events, id),
    ensures
        without_from(groups, id, from) == groups,
    decreases groups.len() - from,
{
    if from < groups.len() {
        lemma_reaction_at(groups[from].events, id, 0);
        assert(no_reaction(groups[from].events, id));
        assert(dropped(groups[from].events, id) == groups[from].events);
        assert(groups.update(from, groups[from]) =~= groups);
        lemma_without_unrelated(groups, id, from + 1);
    }
}

/// No reaction of the list has the given id.
pub open spec fn no_reaction(events: Seq<Reaction>, id: Seq<char>) -> bool {
    forall|i: int| 0 <= i < events.len() ==> (#[trigger] events[i]).event_id@ != id
}

proof fn lemma_without_undoes_with(
    groups: Seq<GroupView>,
    key: Seq<char>,
    reaction: Reaction,
    from: int,
)
    requires
        tidy(groups),
        0 <= from <= group_at(groups, key, 0),
        forall|i: int|
            0 <= i < groups.len() ==> no_reaction(
                (#[trigger] groups[i]).events,
                reaction.event_id@,
            ),
    ensures
        without_from(with_reaction(groups, key, reaction), reaction.event_id@, from) == groups,
    decreases group_at(groups, key, 0) - from,
{
    let id = reaction.event_id@;
    let at = group_at(groups, key, 0);
    let more = with_reaction(groups, key, reaction);
    lemma_group_at(groups, key, 0);
    lemma_reaction_at(more[from].events, id, 0);
    if from < at {
        assert(more[from] == groups[from]);
        assert(no_reaction(groups[from].events, id));
        assert(dropped(more[from].events, id) == more[from].events);
        assert(more.update(from, more[from]) =~= more);
        lemma_without_undoes_with(groups, key, reaction, from + 1);
    } else {
        let events = more[from].events;
        assert(events.last() == reaction);
        assert forall|i: int| 0 <= i < events.len() - 1 implies (#[trigger] events[i]).event_id@ != id by {
            assert(no_reaction(groups[from].events, id));
            assert(groups[from].events[i] == events[i]);
        }
        assert(events[events.len() - 1].event_id@ == id);
        assert(reaction_at(events, id, 0) == events.len() - 1);
        let rest = dropped(events, id);
        if at < groups.len() {
            assert(rest =~= groups[at].events);
            assert(more.update(from, groups[at]) =~= groups);
            lemma_without_unrelated(groups, id, from + 1);
        } else {
            assert(rest.len() == 0);
            assert(more.remove(from) =~= groups);
        }
    }
}

/// Removing a reaction undoes it: what is known of reactions and removals is as before the
/// reaction came in. Neither of the two has a place of its own in the timeline.
pub proof fn law_removal_undoes_reaction(
    c: CacheView,
    reaction: Event,
    removal: Event,
    target: String,
    key: String,
    removed: String,
    debug: String,
)
    requires
        c.valid(),
        reaction.content == EventContent::Reaction(target, key),
        removal.content == EventContent::Redaction(Some(removed), debug),
        removed@ == reaction.event_id@,
        !c.reaction_targets.contains_key(reaction.event_id@),
        forall|i: int|
            0 <= i < listed(c.reactions, target@).len() ==> no_reaction(
                (#[trigger] listed(c.reactions, target@)[i]).events,
                reaction.event_id@,
            ),
    ensures
        c.noted(reaction).noted(removal) == c,
        c.appended(reaction).appended(removal) == c,
        c.prepended(reaction).prepended(removal) == c,
        !is_shown(reaction),
        !is_shown(removal),
{
    let groups = listed(c.reactions, target@);
    let r = Reaction { event_id: reaction.event_id, sender: reaction.sender };
    let more = with_reaction(groups, key@, r);
    lemma_group_at(groups, key@, 0);
    lemma_without_undoes_with(groups, key@, r, 0);
    let noted = c.noted(reaction);
    assert(noted.reactions[target@] == more);
    let done = noted.noted(removal);
    assert(done.reaction_targets =~= c.reaction_targets);
    assert(done.reactions =~= c.reactions);
    assert(done =~= c);
}

/// A removed event is shown as deleted, and stays so when the events are fetched anew.
pub proof fn law_removed_is_deleted(
    c: CacheView,
    removal: Event,
    removed: String,
    debug: String,
    later: Event,
)
    requires
        removal.content == EventContent::Redaction(Some(removed), debug),
        !c.reaction_targets.contains_key(removed@),
    ensures
        c.appended(removal).entry(removed@) == EntryView::Deleted(c.events[removed@]),
        c.appended(removal).entry(removed@).latest() is None,
        later.event_id@ == removed@ && is_shown(later) ==> c.appended(
            removal,
        ).without_events().appended(later).entry(removed@) == EntryView::Deleted(later),
{
}

/// A newer version of an event is what is shown of it, whichever of the two ids it is looked up
/// by, unless the event was removed.
pub proof fn law_edit_is_shown(c: CacheView, edit: Event, m: RoomMessage, original: String)
    requires
        c.valid(),
        edit.content == EventContent::Message(m),
        m.relates_to == Relation::Replacement(original),
        c.events.contains_key(original@),
        !c.redactions.contains_key(original@),
        !c.originals.contains_key(original@),
        edit.event_id@ != original@,
    ensures
        c.appended(edit).full == c.full,
        c.appended(edit).entry_from_id(original@) matches Some(e) && e.latest() == Some(edit)
            && e.original() == c.events[original@],
        c.appended(edit).entry_from_id(edit.event_id@) == c.appended(edit).entry_from_id(original@),
{
    let after = c.appended(edit);
    let versions = listed(c.edits, original@).push(edit);
    assert(after.edits[original@] == versions);
    assert(versions.last() == edit);
}

proof fn lemma_usable_joins(a: Seq<Option<Event>>, b: Seq<Option<Event>>)
    ensures
        usable(a + b) == usable(a) + usable(b),
    decreases b.len(),
{
    if b.len() == 0 {
        assert(a + b =~= a);
        assert(usable(a) + usable(b) =~= usable(a));
    } else {
        lemma_usable_joins(a, b.drop_last());
        assert((a + b).drop_last() =~= a + b.drop_last());
        assert((a + b).last() == b.last());
        assert(usable(a + b) =~= usable(a) + usable(b));
    }
}

proof fn lemma_all_usable(events: Seq<Event>)
    ensures
        usable(Seq::new(events.len(), |i: int| Some(events[i]))) == events,
    decreases events.len(),
{
    let chunk = Seq::new(events.len(), |i: int| Some(events[i]));
    if events.len() > 0 {
        let front = events.drop_last();
        lemma_all_usable(front);
        assert(chunk.drop_last() =~= Seq::new(front.len(), |i: int| Some(front[i])));
        assert(front.push(events.last()) =~= events);
    } else {
        assert(events =~= usable(chunk));
    }
}

/// The events of a batch that could be read are all there, in the order of the batch. One that could
/// not be read does not change what becomes of the others.
pub proof fn law_readable_events_are_kept(
    events: Seq<Event>,
    a: Seq<Option<Event>>,
    b: Seq<Option<Event>>,
)
    ensures
        usable(Seq::new(events.len(), |i: int| Some(events[i]))) == events,
        usable(a + b) == usable(a) + usable(b),
        usable(a + seq![None] + b) == usable(a + b),
{
    lemma_all_usable(events);
    lemma_usable_joins(a, b);
    lemma_usable_joins(a + seq![None], b);
    lemma_usable_joins(a, seq![None]);
    let gap: Seq<Option<Event>> = seq![None];
    reveal_with_fuel(usable, 2);
    assert(gap.drop_last() =~= Seq::<Option<Event>>::empty());
    assert(usable(gap) =~= Seq::<Event>::empty());
    assert(usable(a) + usable(gap) =~= usable(a));
}

/// What has a place of its own in the timeline: every event but those that are about another one,
/// and those without content.
pub proof fn law_what_is_shown(event: Event)
    ensures
        is_shown(event) == !(event.content is Redacted || event.content is Reaction || event.content
            is Redaction || (event.content matches EventContent::Message(m) && m.relates_to
            is Replacement)),
{
}

/// Whether a batch is as long as was asked for, so that there may be more.
pub open spec fn fills_request(batch: MessageBatch, request: MessageRequest) -> bool {
    batch.chunk@.len() + batch.state_events >= request.limit
}

/// The answer to a query is put where it belongs, in order: newer events behind those that are
/// there, the oldest of them first; older ones in front of them, the newest of them nearest; the
/// newest ones, which come newest first, behind all others. Where they fill the batch, those that
/// were there are dropped.
pub proof fn law_answer_is_put_in_order(
    c: CacheView,
    result: MessageQueryResult,
    request: MessageRequest,
    last: Option<Seq<char>>,
)
    requires
        is_request(c, result.query, last, request),
    ensures
        ({
            let ids = shown_ids(usable(result.events.chunk@));
            let after = updated(c, result).full.items;
            match result.query {
                MessageQuery::AfterCache => after == c.full.items + ids,
                MessageQuery::BeforeCache => after == ids.reverse() + c.full.items,
                MessageQuery::Newest => if fills_request(result.events, request) {
                    after == ids.reverse()
                } else {
                    after == c.full.items + ids.reverse()
                },
            }
        }),
{
    let events = usable(result.events.chunk@);
    law_timeline_grows_at_its_ends(c, events);
    if result.query is Newest {
        lemma_shown_reversed(events);
        let before = if fills_request(result.events, request) {
            CacheView {
                begin: CacheEndState::Open,
                begin_token: optional_text(result.events.end),
                ..c.without_events()
            }
        } else {
            c
        };
        let start = CacheView {
            end: CacheEndState::Reached,
            end_token: optional_text(result.events.start),
            ..before
        };
        law_timeline_grows_at_its_ends(start, events.reverse());
        assert(Seq::<Seq<char>>::empty() + shown_ids(events).reverse() =~= shown_ids(
            events,
        ).reverse());
    }
}

proof fn lemma_shown_joins(a: Seq<Event>, b: Seq<Event>)
    ensures
        shown_ids(a + b) == shown_ids(a) + shown_ids(b),
    decreases b.len(),
{
    if b.len() == 0 {
        assert(a + b =~= a);
        assert(shown_ids(a) + shown_ids(b) =~= shown_ids(a));
    } else {
        lemma_shown_joins(a, b.drop_last());
        assert((a + b).drop_last() =~= a + b.drop_last());
        assert((a + b).last() == b.last());
        assert(shown_ids(a + b) =~= shown_ids(a) + shown_ids(b));
    }
}

proof fn lemma_shown_one(event: Event)
    ensures
        shown_ids(seq![event]) == (if is_shown(event) {
            seq![event.event_id@]
        } else {
            Seq::empty()
        }),
{
    reveal_with_fuel(shown_ids, 2);
    assert(seq![event].drop_last() =~= Seq::<Event>::empty());
    if is_shown(event) {
        assert(Seq::<Seq<char>>::empty().push(event.event_id@) =~= seq![event.event_id@]);
    }
}

proof fn lemma_reverse_ends_with_first<A>(front: Seq<A>, last: A)
    ensures
        front.push(last).reverse() == seq![last] + front.reverse(),
{
    assert(front.push(last).reverse() =~= seq![last] + front.reverse());
}

proof fn lemma_shown_reversed(events: Seq<Event>)
    ensures
        shown_ids(events.reverse()) == shown_ids(events).reverse(),
    decreases events.len(),
{
    if events.len() == 0 {
        assert(events.reverse() =~= events);
        assert(shown_ids(events).reverse() =~= shown_ids(events));
    } else {
        let front = events.drop_last();
        let last = events.last();
        lemma_shown_reversed(front);
        lemma_reverse_ends_with_first(front, last);
        assert(front.push(last) =~= events);
        lemma_shown_joins(seq![last], front.reverse());
        lemma_shown_one(last);
        if is_shown(last) {
            lemma_reverse_ends_with_first(shown_ids(front), last.event_id@);
        } else {
            assert(Seq::<Seq<char>>::empty() + shown_ids(front).reverse() =~= shown_ids(
                front,
            ).reverse());
        }
    }
}

/// The ids that are shown are those of the events in their order, without those that have no place
/// of their own.
pub proof fn law_shown_ids_are_in_order(a: Seq<Event>, b: Seq<Event>, event: Event)
    ensures
        shown_ids(a + b) == shown_ids(a) + shown_ids(b),
        shown_ids(seq![event]) == (if is_shown(event) {
            seq![event.event_id@]
        } else {
            Seq::empty()
        }),
{
    lemma_shown_joins(a, b);
    lemma_shown_one(event);
}

/// Taking events in changes nothing about the ends of the cache.
proof fn lemma_ends_untouched(c: CacheView, events: Seq<Event>)
    ensures
        c.all_appended(events).begin == c.begin,
        c.all_appended(events).end == c.end,
        c.all_appended(events).begin_token == c.begin_token,
        c.all_appended(events).end_token == c.end_token,
        c.all_prepended(events).begin == c.begin,
        c.all_prepended(events).end == c.end,
        c.all_prepended(events).begin_token == c.begin_token,
        c.all_prepended(events).end_token == c.end_token,
    decreases events.len(),
{
    if events.len() > 0 {
        lemma_ends_untouched(c, events.drop_last());
    }
}

/// The next query goes on where the answer to the last one ended, as long as the answer was as long
/// as was asked for. A shorter one has reached the end of the timeline in its direction. After the
/// newest events were fetched, the newest event is there, and newer ones are looked for from the
/// start of the answer. The newest ones are looked for from the last sync back to there.
pub proof fn law_next_query_goes_on(
    c: CacheView,
    result: MessageQueryResult,
    request: MessageRequest,
    last: Option<Seq<char>>,
    next: MessageRequest,
    last_again: Option<Seq<char>>,
)
    requires
        is_request(c, result.query, last, request),
        result.events.end is Some,
        result.events.start is Some,
    ensures
        ({
            let after = updated(c, result);
            let full = fills_request(result.events, request);
            &&& match result.query {
                MessageQuery::AfterCache => (after.end is Open) == full && after.begin == c.begin,
                MessageQuery::BeforeCache => (after.begin is Open) == full && after.end == c.end,
                MessageQuery::Newest => after.end is Reached && (if full {
                    after.begin is Open
                } else {
                    after.begin == c.begin
                }),
            }
            &&& result.query is AfterCache && full && is_request(
                after,
                MessageQuery::AfterCache,
                last_again,
                next,
            ) ==> next.direction is Forward && next.from@ == result.events.end->0@
            &&& result.query is BeforeCache && full && is_request(
                after,
                MessageQuery::BeforeCache,
                last_again,
                next,
            ) ==> next.direction is Backward && next.from@ == result.events.end->0@
            &&& result.query is Newest && full && is_request(
                after,
                MessageQuery::BeforeCache,
                last_again,
                next,
            ) ==> next.direction is Backward && next.from@ == result.events.end->0@
            &&& result.query is Newest && is_request(
                after,
                MessageQuery::AfterCache,
                last_again,
                next,
            ) ==> next.direction is Forward && next.from@ == result.events.start->0@
                && optional_text(next.to) == last_again
            &&& result.query is Newest && is_request(
                after,
                MessageQuery::Newest,
                last_again,
                next,
            ) ==> next.direction is Backward && Some(next.from@) == last_again && optional_text(
                next.to,
            ) == Some(result.events.start->0@)
        }),
{
    let events = usable(result.events.chunk@);
    lemma_ends_untouched(c, events);
    let before = if fills_request(result.events, request) {
        CacheView {
            begin: CacheEndState::Open,
            begin_token: optional_text(result.events.end),
            ..c.without_events()
        }
    } else {
        c
    };
    let start = CacheView {
        end: CacheEndState::Reached,
        end_token: optional_text(result.events.start),
        ..before
    };
    lemma_ends_untouched(start, events.reverse());
}

/// The new events of a sync are put behind those that are there, in order, if the newest event was
/// there. A limited sync drops those that were there; older ones are then looked for from where the
/// sync says, or there are none. Newer ones are looked for from the end of the sync.
pub proof fn law_sync_is_put_in_order(
    c: CacheView,
    batch: SyncTimeline,
    end_token: Seq<char>,
    next: MessageRequest,
    last: Option<Seq<char>>,
)
    ensures
        c.end is Open ==> synced(c, batch, end_token) == c,
        c.end is Reached ==> {
            let after = synced(c, batch, end_token);
            &&& after.full.items == (if batch.limited {
                shown_ids(usable(batch.events@))
            } else {
                c.full.items + shown_ids(usable(batch.events@))
            })
            &&& after.end is Reached
            &&& !batch.limited ==> after.begin == c.begin && after.begin_token == c.begin_token
            &&& batch.limited ==> (after.begin is Reached) == (batch.prev_batch is None)
            &&& is_request(after, MessageQuery::AfterCache, last, next) ==> next.direction is Forward
                && next.from@ == end_token
            &&& batch.limited && batch.prev_batch is Some && is_request(
                after,
                MessageQuery::BeforeCache,
                last,
                next,
            ) ==> next.direction is Backward && next.from@ == batch.prev_batch->0@
        },
{
    if c.end is Reached {
        let events = usable(batch.events@);
        let before = if batch.limited {
            match batch.prev_batch {
                Some(token) => CacheView {
                    begin: CacheEndState::Open,
                    begin_token: Some(token@),
                    ..c.without_events()
                },
                None => CacheView { begin: CacheEndState::Reached, ..c.without_events() },
            }
        } else {
            c
        };
        let start = CacheView { end_token: Some(end_token), ..before };
        law_timeline_grows_at_its_ends(start, events);
        lemma_ends_untouched(start, events);
        assert(Seq::<Seq<char>>::empty() + shown_ids(events) =~= shown_ids(events));
    }
}

/// The ids that a walk goes through.
pub open spec fn walked_ids(c: CacheView) -> Seq<Seq<char>> {
    match c.filter {
        Some(ft) => ft.1.items,
        None => c.full.items,
    }
}

/// A walk leads from each event to its neighbours. At an end of the cache it is over if that is an
/// end of the timeline, and needs more events otherwise. It starts at the last event if that is the
/// newest there is.
pub proof fn law_walk_ends_at_the_ends(c: CacheView, i: int)
    requires
        c.valid(),
        walked_ids(c).no_duplicates(),
    ensures
        ({
            let ids = walked_ids(c);
            &&& 0 <= i < ids.len() ==> c.next(ids[i]) == (if i + 1 < ids.len() {
                WalkView::Message(ids[i + 1])
            } else if c.end is Reached {
                WalkView::End
            } else {
                WalkView::RequiresFetch
            })
            &&& 0 <= i < ids.len() ==> c.previous(ids[i]) == (if i > 0 {
                WalkView::Message(ids[i - 1])
            } else if c.begin is Reached {
                WalkView::End
            } else {
                WalkView::RequiresFetch
            })
            &&& ids.len() > 0 ==> c.newest() == (if c.end is Reached {
                NewestView::Message(ids.last())
            } else {
                NewestView::RequiresFetch(Some(ids.last()))
            })
            &&& ids.len() == 0 ==> c.newest() == (if c.end is Reached && c.begin is Reached {
                NewestView::End
            } else {
                NewestView::RequiresFetch(None)
            })
        }),
{
    let ids = walked_ids(c);
    assert(c.walked().items == ids);
    if 0 <= i < ids.len() {
        law_walk_visits_neighbours(c.walked(), i);
    }
}

proof fn lemma_filtered_joins(
    a: Seq<Seq<char>>,
    b: Seq<Seq<char>>,
    events: Map<Seq<char>, Event>,
    f: ExprView,
)
    ensures
        filtered(a + b, events, f).items == filtered(a, events, f).items + filtered(
            b,
            events,
            f,
        ).items,
    decreases b.len(),
{
    if b.len() == 0 {
        assert(a + b =~= a);
        assert(filtered(a, events, f).items + filtered(b, events, f).items =~= filtered(
            a,
            events,
            f,
        ).items);
    } else {
        lemma_filtered_joins(a, b.drop_last(), events, f);
        assert((a + b).drop_last() =~= a + b.drop_last());
        assert((a + b).last() == b.last());
        assert(filtered(a + b, events, f).items =~= filtered(a, events, f).items + filtered(
            b,
            events,
            f,
        ).items);
    }
}

/// With a filter, a walk goes through the events that the filter selects, in the order of the
/// timeline. Without one it goes through all of them.
pub proof fn law_filter_selects_what_is_walked(
    c: CacheView,
    f: ExprView,
    a: Seq<Seq<char>>,
    id: Seq<char>,
    b: Seq<Seq<char>>,
)
    requires
        c.full.items == a + seq![id] + b,
    ensures
        walked_ids(c.with_filter(None)) == c.full.items,
        walked_ids(c.with_filter(Some(f))) == filtered(a, c.events, f).items + (if selects(
            f,
            c.events[id],
        ) {
            seq![id]
        } else {
            Seq::empty()
        }) + filtered(b, c.events, f).items,
        c.with_filter(Some(f)).full == c.full,
        c.with_filter(Some(f)).events == c.events,
{
    lemma_filtered_joins(a + seq![id], b, c.events, f);
    lemma_filtered_joins(a, seq![id], c.events, f);
    reveal_with_fuel(filtered, 2);
    assert(seq![id].drop_last() =~= Seq::<Seq<char>>::empty());
    let one = filtered(seq![id], c.events, f).items;
    if selects(f, c.events[id]) {
        assert(one =~= seq![id]);
    } else {
        assert(one =~= Seq::<Seq<char>>::empty());
    }
}

/// An event that comes in with an id that nothing was known of is found under that id as it is, at
/// either end.
pub proof fn law_new_event_is_found(c: CacheView, event: Event)
    requires
        is_shown(event),
        !c.redactions.contains_key(event.event_id@),
        !c.edits.contains_key(event.event_id@),
        !c.originals.contains_key(event.event_id@),
    ensures
        c.appended(event).entry_from_id(event.event_id@) == Some(EntryView::Simple(event)),
        c.prepended(event).entry_from_id(event.event_id@) == Some(EntryView::Simple(event)),
        c.appended(event).full.last() == Some(event.event_id@),
        c.prepended(event).full.items[0] == event.event_id@,
{
}

/// Whatever comes in, events under other ids stay what they are, unless they are removed or get a
/// newer version.
pub proof fn law_other_events_stay(c: CacheView, event: Event, id: Seq<char>)
    requires
        id != event.event_id@,
        event.content matches EventContent::Redaction(target, _) ==> target matches Some(t) && t@
            != id,
        event.content matches EventContent::Message(m) ==> (m.relates_to
            matches Relation::Replacement(o) ==> o@ != id),
        !c.originals.contains_key(id),
    ensures
        c.appended(event).entry_from_id(id) == c.entry_from_id(id),
        c.prepended(event).entry_from_id(id) == c.entry_from_id(id),
{
}

/// The newest version of an event is the one that came in last.
pub proof fn law_last_edit_is_latest(
    c: CacheView,
    first: Event,
    m: RoomMessage,
    second: Event,
    n: RoomMessage,
    original: String,
)
    requires
        first.content == EventContent::Message(m),
        m.relates_to == Relation::Replacement(original),
        second.content == EventContent::Message(n),
        n.relates_to == Relation::Replacement(original),
        c.events.contains_key(original@),
        !c.redactions.contains_key(original@),
        !c.originals.contains_key(original@),
        first.event_id@ != original@,
        second.event_id@ != original@,
    ensures
        c.appended(first).appended(second).entry_from_id(original@) matches Some(
            EntryView::Edited { original: o, versions },
        ) && o == c.events[original@] && versions.len() >= 2 && versions.last() == second
            && versions[versions.len() - 2] == first,
        c.prepended(first).prepended(second).entry_from_id(original@) matches Some(e) && e.latest()
            == Some(second),
        walked_ids(c.appended(first).appended(second)) == walked_ids(c),
{
    let once = listed(c.edits, original@).push(first);
    let twice = once.push(second);
    assert(twice.last() == second);
    assert(twice[twice.len() - 2] == first);
    assert(c.appended(first).edits[original@] == once);
    assert(c.appended(first).appended(second).edits[original@] == twice);
    assert(c.prepended(first).edits[original@] == once);
    assert(c.prepended(first).prepended(second).edits[original@] == twice);
}

/// Whether the reactions of an event under a key are the given ones.
pub open spec fn reacted(groups: Seq<GroupView>, key: Seq<char>, events: Seq<Reaction>) -> bool {
    if events.len() == 0 {
        forall|i: int| 0 <= i < groups.len() ==> (#[trigger] groups[i]).key != key
    } else {
        exists|i: int|
            0 <= i < groups.len() && (#[trigger] groups[i]).key == key && groups[i].events == events
    }
}

/// A reaction is added to those that its event has under its key. Those under other keys stay, and
/// so do those of other events.
pub proof fn law_reaction_is_attached(
    c: CacheView,
    reaction: Event,
    target: String,
    key: String,
    events: Seq<Reaction>,
    other_key: Seq<char>,
    other_events: Seq<Reaction>,
    other: Seq<char>,
)
    requires
        c.valid(),
        reaction.content == EventContent::Reaction(target, key),
        reacted(listed(c.reactions, target@), key@, events),
        reacted(listed(c.reactions, target@), other_key, other_events),
        other_key != key@,
        other != target@,
    ensures
        ({
            let after = c.noted(reaction);
            let groups = listed(after.reactions, target@);
            &&& reacted(
                groups,
                key@,
                events.push(Reaction { event_id: reaction.event_id, sender: reaction.sender }),
            )
            &&& reacted(groups, other_key, other_events)
            &&& listed(after.reactions, other) == listed(c.reactions, other)
            &&& after.full == c.full
            &&& after.events == c.events
            &&& after.edits == c.edits
            &&& after.redactions == c.redactions
        }),
{
    let before = listed(c.reactions, target@);
    let r = Reaction { event_id: reaction.event_id, sender: reaction.sender };
    let after = with_reaction(before, key@, r);
    lemma_group_at(before, key@, 0);
    let at = group_at(before, key@, 0);
    assert(c.noted(reaction).reactions[target@] == after);
    if events.len() > 0 {
        let i = choose|i: int|
            0 <= i < before.len() && (#[trigger] before[i]).key == key@ && before[i].events == events;
        assert(at <= i);
        assert(at == i);
        assert(after[i].key == key@ && after[i].events == events.push(r));
    } else {
        assert(at == before.len());
        assert(seq![r] =~= events.push(r));
        assert(after[at].key == key@ && after[at].events == events.push(r));
    }
    if other_events.len() > 0 {
        let j = choose|j: int|
            0 <= j < before.len() && (#[trigger] before[j]).key == other_key && before[j].events
                == other_events;
        assert(after[j].key == other_key && after[j].events == other_events);
    } else {
        assert forall|i: int| 0 <= i < after.len() implies (#[trigger] after[i]).key != other_key by {
            if i < before.len() {
                assert(before[i].key != other_key);
            }
        }
    }
}

/// That an event could not be decrypted is known from then on, until the cache is cleared. Clearing
/// keeps the filter and the removals, and nothing else: the newest events are fetched anew.
pub proof fn law_clearing_starts_anew(
    c: CacheView,
    event: Event,
    query: MessageQuery,
    last: Option<Seq<char>>,
    request: MessageRequest,
)
    requires
        is_request(c.cleared(), query, last, request),
    ensures
        event.content is Encrypted || event.content == EventContent::Redacted(true) ==> c.appended(
            event,
        ).undecrypted && c.prepended(event).undecrypted,
        c.undecrypted ==> c.appended(event).undecrypted && c.prepended(event).undecrypted,
        !c.cleared().undecrypted,
        c.cleared().full.items.len() == 0,
        c.cleared().newest() == NewestView::RequiresFetch(None),
        c.cleared().redactions == c.redactions,
        (c.filter is Some) == (c.cleared().filter is Some),
        c.filter matches Some((f, _)) ==> (c.cleared().filter matches Some((g, _)) && g == f),
        request.query is Newest,
        request.direction is Backward,
        Some(request.from@) == last,
        request.to is None,
{
}

/// A cache knows of an event that could not be decrypted exactly if one came in since it was
/// cleared, also if that one was removed by now.
pub proof fn law_undecrypted_events_are_noted(c: CacheView, event: Event)
    ensures
        c.appended(event).undecrypted <==> c.undecrypted || event.content is Encrypted
            || event.content == EventContent::Redacted(true),
        c.prepended(event).undecrypted == c.appended(event).undecrypted,
        !c.cleared().undecrypted,
        c.without_events().undecrypted == c.undecrypted,
{
}

/// The removal of a message leaves it in its place among the others.
pub proof fn law_removed_keeps_its_place(
    c: CacheView,
    removal: Event,
    removed: String,
    debug: String,
    id: Seq<char>,
)
    requires
        removal.content == EventContent::Redaction(Some(removed), debug),
    ensures
        c.appended(removal).full == c.full,
        c.prepended(removal).full == c.full,
        walked_ids(c.appended(removal)) == walked_ids(c),
        c.appended(removal).events == c.events,
        id != removed@ ==> c.appended(removal).entry(id) == c.entry(id),
        id != removed@ ==> c.prepended(removal).entry(id) == c.entry(id),
{
}

proof fn lemma_filter_kept(c: CacheView, events: Seq<Event>)
    ensures
        filter_of(c.all_appended(events)) == filter_of(c),
        filter_of(c.all_prepended(events)) == filter_of(c),
    decreases events.len(),
{
    if events.len() > 0 {
        lemma_filter_kept(c, events.drop_last());
    }
}

/// The filter that is set.
pub open spec fn filter_of(c: CacheView) -> Option<ExprView> {
    match c.filter {
        Some(ft) => Some(ft.0),
        None => None,
    }
}

/// A filter that is set stays set, whatever comes in and also when the cache is cleared. Setting
/// another one or none changes that and nothing else.
pub proof fn law_filter_is_kept(
    c: CacheView,
    result: MessageQueryResult,
    batch: SyncTimeline,
    end_token: Seq<char>,
    filter: Option<ExprView>,
)
    ensures
        filter_of(updated(c, result)) == filter_of(c),
        filter_of(synced(c, batch, end_token)) == filter_of(c),
        filter_of(c.cleared()) == filter_of(c),
        filter_of(c.with_filter(filter)) == filter,
        c.with_filter(filter) == (CacheView { filter: c.with_filter(filter).filter, ..c }),
{
    let events = usable(result.events.chunk@);
    let is_full = result.events.chunk@.len() + result.events.state_events >= QUERY_BATCH_SIZE_LIMIT;
    lemma_filter_kept(c, events);
    let before = if is_full {
        CacheView {
            begin: CacheEndState::Open,
            begin_token: optional_text(result.events.end),
            ..c.without_events()
        }
    } else {
        c
    };
    lemma_filter_kept(
        CacheView {
            end: CacheEndState::Reached,
            end_token: optional_text(result.events.start),
            ..before
        },
        events.reverse(),
    );
    let limited = match batch.prev_batch {
        Some(token) => CacheView {
            begin: CacheEndState::Open,
            begin_token: Some(token@),
            ..c.without_events()
        },
        None => CacheView { begin: CacheEndState::Reached, ..c.without_events() },
    };
    lemma_filter_kept(CacheView { end_token: Some(end_token), ..c }, usable(batch.events@));
    lemma_filter_kept(CacheView { end_token: Some(end_token), ..limited }, usable(batch.events@));
}

/// With a filter, an event that comes in joins the walk at its end of the timeline exactly if it has
/// a place of its own and the filter selects it.
pub proof fn law_selected_events_join_the_walk(c: CacheView, f: ExprView, event: Event)
    requires
        filter_of(c) == Some(f),
    ensures
        ({
            let own = if is_shown(event) && selects(f, event) {
                seq![event.event_id@]
            } else {
                Seq::empty()
            };
            &&& walked_ids(c.appended(event)) == walked_ids(c) + own
            &&& walked_ids(c.prepended(event)) == own + walked_ids(c)
        }),
{
    let own = if is_shown(event) && selects(f, event) {
        seq![event.event_id@]
    } else {
        Seq::empty()
    };
    assert(walked_ids(c.appended(event)) =~= walked_ids(c) + own);
    assert(walked_ids(c.prepended(event)) =~= own + walked_ids(c));
}

/// A request is for what was asked, unless the place to go on from is not known: then it is for the
/// newest events. Only newer events are asked for forwards, and older ones are asked for without an
/// end.
pub proof fn law_request_is_for_what_was_asked(
    c: CacheView,
    query: MessageQuery,
    last: Option<Seq<char>>,
    request: MessageRequest,
)
    requires
        is_request(c, query, last, request),
    ensures
        request.query == query || request.query is Newest,
        c.begin_token is Some && query is BeforeCache ==> request.query is BeforeCache,
        c.end_token is Some && query is AfterCache ==> request.query is AfterCache,
        c.begin_token is None && query is BeforeCache ==> request.query is Newest,
        c.end_token is None && query is AfterCache ==> request.query is Newest,
        request.direction is Forward <==> request.query is AfterCache,
        request.query is BeforeCache ==> request.to is None,
        request.limit > 0,
{
}

/// An answer changes nothing about the end of the cache that it is not for: there, queries go on
/// from where they did before. Newer events are looked for from the same place as before also after
/// an answer with the last ones of them, and older ones are not looked for any more once the first
/// one is there.
pub proof fn law_other_end_is_left_alone(
    c: CacheView,
    result: MessageQueryResult,
    last: Option<Seq<char>>,
    request: MessageRequest,
)
    ensures
        ({
            let after = updated(c, result);
            let full = result.events.chunk@.len() + result.events.state_events
                >= QUERY_BATCH_SIZE_LIMIT;
            &&& result.query is AfterCache ==> (is_request(
                after,
                MessageQuery::BeforeCache,
                last,
                request,
            ) && c.begin_token is Some ==> request.query is BeforeCache && Some(request.from@)
                == c.begin_token)
            &&& result.query is BeforeCache ==> (is_request(
                after,
                MessageQuery::AfterCache,
                last,
                request,
            ) && c.end_token is Some ==> request.query is AfterCache && Some(request.from@)
                == c.end_token)
            &&& result.query is AfterCache && !full ==> (is_request(
                after,
                MessageQuery::AfterCache,
                last,
                request,
            ) && c.end_token is Some ==> request.query is AfterCache && Some(request.from@)
                == c.end_token)
            &&& result.query is BeforeCache && !full ==> (is_request(
                after,
                MessageQuery::BeforeCache,
                last,
                request,
            ) ==> request.query is Newest)
            &&& result.query is Newest && !full ==> (is_request(
                after,
                MessageQuery::BeforeCache,
                last,
                request,
            ) && c.begin_token is Some ==> request.query is BeforeCache && Some(request.from@)
                == c.begin_token)
        }),
{
    let events = usable(result.events.chunk@);
    lemma_ends_untouched(c, events);
    lemma_ends_untouched(
        CacheView {
            end: CacheEndState::Reached,
            end_token: optional_text(result.events.start),
            ..c
        },
        events.reverse(),
    );
}

/// The groups of reactions stand in the order in which their keys first came: a reaction under a new
/// key starts a group behind the others, and one under a known key changes no other group.
pub proof fn law_groups_are_in_the_order_of_their_keys(
    groups: Seq<GroupView>,
    key: Seq<char>,
    reaction: Reaction,
    i: int,
)
    requires
        tidy(groups),
        0 <= i < groups.len(),
    ensures
        ({
            let after = with_reaction(groups, key, reaction);
            &&& after[i].key == groups[i].key
            &&& after[i].events == (if groups[i].key == key {
                groups[i].events + seq![reaction]
            } else {
                groups[i].events
            })
            &&& groups[i].key == key ==> after.len() == groups.len()
            &&& (forall|j: int| 0 <= j < groups.len() ==> (#[trigger] groups[j]).key != key)
                ==> after == groups + seq![GroupView { key, events: seq![reaction] }]
        }),
        with_reaction(Seq::empty(), key, reaction) == seq![GroupView { key, events: seq![reaction] }],
{
    let p = group_at(groups, key, 0);
    lemma_group_at(groups, key, 0);
    let after = with_reaction(groups, key, reaction);
    if groups[i].key == key {
        assert(p <= i);
        if p < i {
            assert(groups[p].key != groups[i].key);
        }
        assert(after[i].events =~= groups[i].events + seq![reaction]);
    }
    if forall|j: int| 0 <= j < groups.len() ==> (#[trigger] groups[j]).key != key {
        assert(after =~= groups + seq![GroupView { key, events: seq![reaction] }]);
    }
    let none = Seq::<GroupView>::empty();
    assert(with_reaction(none, key, reaction) =~= seq![GroupView { key, events: seq![reaction] }]);
}

proof fn lemma_without_skips(groups: Seq<GroupView>, id: Seq<char>, from: int, n: int)
    requires
        0 <= from <= n <= groups.len(),
        forall|i: int|
            from <= i < n ==> no_reaction((#[trigger] groups[i]).events, id)
                && groups[i].events.len() > 0,
    ensures
        without_from(groups, id, from) == without_from(groups, id, n),
    decreases n - from,
{
    if from < n {
        lemma_reaction_at(groups[from].events, id, 0);
        assert(no_reaction(groups[from].events, id));
        assert(dropped(groups[from].events, id) == groups[from].events);
        assert(groups.update(from, groups[from]) =~= groups);
        lemma_without_skips(groups, id, from + 1, n);
    }
}

proof fn lemma_dropped(x: Seq<Reaction>, r: Reaction, y: Seq<Reaction>)
    requires
        no_reaction(x, r.event_id@),
    ensures
        dropped(x + seq![r] + y, r.event_id@) == x + y,
{
    let events = x + seq![r] + y;
    let id = r.event_id@;
    lemma_reaction_at(events, id, 0);
    let p = reaction_at(events, id, 0);
    let n = x.len() as int;
    assert(events[n] == r);
    if p < n {
        assert(events[p] == x[p]);
    }
    if p > n {
        assert(events[n].event_id@ != id);
    }
    assert(events.remove(n) =~= x + y);
}

/// A reaction that is removed goes from its group, and the others stay where they are. A group that
/// it was alone in goes with it.
pub proof fn law_removed_reaction_leaves_the_others(
    a: Seq<GroupView>,
    key: Seq<char>,
    x: Seq<Reaction>,
    r: Reaction,
    y: Seq<Reaction>,
    b: Seq<GroupView>,
)
    requires
        tidy(a + seq![GroupView { key, events: x + seq![r] + y }] + b),
        no_reaction(x, r.event_id@),
        no_reaction(y, r.event_id@),
        forall|i: int| 0 <= i < a.len() ==> no_reaction((#[trigger] a[i]).events, r.event_id@),
        forall|i: int| 0 <= i < b.len() ==> no_reaction((#[trigger] b[i]).events, r.event_id@),
    ensures
        without_from(a + seq![GroupView { key, events: x + seq![r] + y }] + b, r.event_id@, 0)
            == (if x.len() + y.len() == 0 {
            a + b
        } else {
            a + seq![GroupView { key, events: x + y }] + b
        }),
{
    let id = r.event_id@;
    let n = a.len() as int;
    let own = GroupView { key, events: x + seq![r] + y };
    let groups = a + seq![own] + b;
    assert forall|i: int| 0 <= i < n implies no_reaction((#[trigger] groups[i]).events, id)
        && groups[i].events.len() > 0 by {
        assert(groups[i] == a[i]);
    }
    lemma_without_skips(groups, id, 0, n);
    assert(groups[n] == own);
    lemma_dropped(x, r, y);
    if x.len() + y.len() == 0 {
        assert((x + y).len() == 0);
        assert(groups.remove(n) =~= a + b);
    } else {
        let less = GroupView { key, events: x + y };
        let after = groups.update(n, less);
        assert(after =~= a + seq![less] + b);
        assert(tidy(after)) by {
            assert forall|i: int, j: int| 0 <= i < j < after.len() implies (
            #[trigger] after[i]).key != (#[trigger] after[j]).key by {
                assert(groups[i].key != groups[j].key);
            }
            assert forall|i: int| 0 <= i < after.len() implies (
            #[trigger] after[i]).events.len() > 0 by {
                assert(groups[i].events.len() > 0);
            }
        }
        assert forall|i: int| n + 1 <= i < after.len() implies no_reaction(
            (#[trigger] after[i]).events,
            id,
        ) by {
            assert(after[i] == b[i - n - 1]);
        }
        lemma_without_unrelated(after, id, n + 1);
    }
}

/// An event that was put in at an end is walked from there, also if its id was there before: behind
/// the last one there is nothing, and before it what was last. Of other events the neighbours stay,
/// but for the one that was at that end.
pub proof fn law_new_end_is_walked(s: SequenceView, id: Seq<char>, other: Seq<char>)
    requires
        s.consistent(),
    ensures
        s.append(id).next(id) is None,
        s.append(id).prev(id) == s.last(),
        s.append(id).last() == Some(id),
        s.prepend(id).prev(id) is None,
        s.prepend(id).next(id) == (if s.items.len() > 0 {
            Some(s.items[0])
        } else {
            None
        }),
        other != id ==> s.append(id).prev(other) == s.prev(other),
        other != id && s.next(other) is Some ==> s.append(id).next(other) == s.next(other),
        other != id ==> s.prepend(id).next(other) == s.next(other),
        other != id && s.prev(other) is Some ==> s.prepend(id).prev(other) == s.prev(other),
        other != id && s.position.contains_key(other) && s.next(other) is None ==> s.append(
            id,
        ).next(other) == Some(id),
        other != id && s.position.contains_key(other) && s.prev(other) is None ==> s.prepend(
            id,
        ).prev(other) == Some(id),
{
}

} // verus!
