//! The cache of a room's timeline.

use sparse::event::{Event, EventContent, MessageKind, Relation, RoomMessage};
use sparse::search::Filter;
use sparse::timeline::{
    CacheEndState, Direction, EventSequence, EventWalkResult, EventWalkResultNewest, MessageBatch, MessageQuery,
    MessageQueryResult, RoomTimelineCache, SyncTimeline, TimelineEntry, QUERY_BATCH_SIZE_LIMIT,
};

fn event(id: &str, content: EventContent) -> Event {
    Event {
        event_id: id.to_owned(),
        sender: "@a:b".to_owned(),
        timestamp: 0,
        content,
    }
}

fn related(id: &str, body: &str, relates_to: Relation) -> Event {
    event(
        id,
        EventContent::Message(RoomMessage {
            body: body.to_owned(),
            kind: MessageKind::Text,
            relates_to,
            debug: String::new(),
        }),
    )
}

fn message(id: &str, body: &str) -> Event {
    related(id, body, Relation::Unrelated)
}

fn reaction(id: &str, target: &str, key: &str) -> Event {
    event(id, EventContent::Reaction(target.to_owned(), key.to_owned()))
}

fn redaction(id: &str, target: &str) -> Event {
    event(id, EventContent::Redaction(Some(target.to_owned()), String::new()))
}

fn batch(query: MessageQuery, events: Vec<Event>, state_events: usize) -> MessageQueryResult {
    MessageQueryResult {
        query,
        events: MessageBatch {
            chunk: events.into_iter().map(Some).collect(),
            state_events,
            start: Some("start".to_owned()),
            end: Some("end".to_owned()),
        },
    }
}

fn sync(events: Vec<Event>, limited: bool, prev_batch: Option<&str>) -> SyncTimeline {
    SyncTimeline {
        events: events.into_iter().map(Some).collect(),
        limited,
        prev_batch: prev_batch.map(|t| t.to_owned()),
    }
}

/// A cache that reaches up to the newest event and holds the given ones, oldest first.
fn cache(events: Vec<Event>) -> RoomTimelineCache {
    let mut cache = RoomTimelineCache::default();
    cache.update(batch(MessageQuery::Newest, Vec::new(), 0));
    cache.handle_sync_batch(sync(events, false, None), "end");
    cache
}

/// The ids of the events on a walk from the newest one back.
fn backwards(cache: &RoomTimelineCache) -> Vec<String> {
    let mut ids = Vec::new();
    let mut at = cache.walk_from_newest().message();
    while let Some(i) = at {
        ids.push(cache.message(i).event_id().to_owned());
        at = cache.previous(i).message();
    }
    ids
}

#[test]
fn a_new_cache_knows_nothing() {
    let cache = RoomTimelineCache::default();
    assert_eq!(cache.end_id(), None);
    assert!(!cache.has_undecrypted_messages());
    assert!(!cache.reached_newest());
    assert_eq!(cache.begin, CacheEndState::Open);
    assert_eq!(cache.end, CacheEndState::Open);
    assert!(matches!(cache.walk_from_newest(), EventWalkResultNewest::RequiresFetch(None)));
    assert!(matches!(cache.walk_from_known("$1"), EventWalkResult::RequiresFetch));
    assert!(cache.message_from_id("$1").is_none());
    assert!(cache.reactions("$1").is_none());
}

#[test]
fn the_newest_events_are_put_in_order() {
    let mut cache = RoomTimelineCache::default();
    cache.update(batch(
        MessageQuery::Newest,
        vec![message("$3", "c"), message("$2", "b"), message("$1", "a")],
        0,
    ));
    assert_eq!(backwards(&cache), ["$3", "$2", "$1"]);
    assert_eq!(cache.end_id(), Some("$3"));
    assert!(cache.reached_newest());
    assert_eq!(cache.begin, CacheEndState::Open);
}

#[test]
fn a_full_batch_of_the_newest_events_replaces_the_timeline() {
    let mut cache = cache(vec![message("$1", "a")]);
    let few: Vec<Event> = vec![message("$2", "b")];
    cache.update(batch(MessageQuery::Newest, few, QUERY_BATCH_SIZE_LIMIT as usize - 2));
    assert_eq!(backwards(&cache), ["$2", "$1"]);
    let many: Vec<Event> = vec![message("$3", "c")];
    cache.update(batch(MessageQuery::Newest, many, QUERY_BATCH_SIZE_LIMIT as usize - 1));
    assert_eq!(backwards(&cache), ["$3"]);
    assert_eq!(cache.begin, CacheEndState::Open);
    assert!(!cache.needs_last_prev_batch(&MessageQuery::BeforeCache));
}

#[test]
fn older_events_are_put_in_front() {
    let mut cache = cache(vec![message("$3", "c")]);
    cache.update(batch(
        MessageQuery::BeforeCache,
        vec![message("$2", "b"), message("$1", "a")],
        QUERY_BATCH_SIZE_LIMIT as usize,
    ));
    assert_eq!(backwards(&cache), ["$3", "$2", "$1"]);
    assert_eq!(cache.begin, CacheEndState::Open);
    let request = cache.events_query(MessageQuery::BeforeCache, None);
    assert_eq!(request.query, MessageQuery::BeforeCache);
    assert_eq!(request.direction, Direction::Backward);
    assert_eq!(request.from, "end");
    assert_eq!(request.to, None);
    assert_eq!(request.limit, 10);
    cache.update(batch(MessageQuery::BeforeCache, vec![message("$0", "o")], 0));
    assert_eq!(backwards(&cache), ["$3", "$2", "$1", "$0"]);
    assert_eq!(cache.begin, CacheEndState::Reached);
    assert!(cache.needs_last_prev_batch(&MessageQuery::BeforeCache));
    let first = cache.walk_from_known("$0").message().unwrap();
    assert!(matches!(cache.previous(first), EventWalkResult::End));
}

#[test]
fn newer_events_are_put_behind() {
    let mut cache = cache(vec![message("$1", "a")]);
    cache.update(batch(
        MessageQuery::AfterCache,
        vec![message("$2", "b")],
        QUERY_BATCH_SIZE_LIMIT as usize,
    ));
    assert_eq!(cache.end, CacheEndState::Open);
    assert!(matches!(
        cache.walk_from_newest(),
        EventWalkResultNewest::RequiresFetch(Some(_))
    ));
    let last = cache.walk_from_known("$2").message().unwrap();
    assert!(matches!(cache.next(last), EventWalkResult::RequiresFetch));
    let request = cache.events_query(MessageQuery::AfterCache, Some("last".to_owned()));
    assert_eq!(request.query, MessageQuery::AfterCache);
    assert_eq!(request.direction, Direction::Forward);
    assert_eq!(request.from, "end");
    assert_eq!(request.to, Some("last".to_owned()));
    cache.update(batch(MessageQuery::AfterCache, vec![message("$3", "c")], 0));
    assert_eq!(cache.end, CacheEndState::Reached);
    assert_eq!(backwards(&cache), ["$3", "$2", "$1"]);
    let last = cache.walk_from_known("$3").message().unwrap();
    assert!(matches!(cache.next(last), EventWalkResult::End));
}

#[test]
fn without_a_token_the_newest_events_are_asked_for() {
    let fresh = RoomTimelineCache::default();
    assert!(fresh.needs_last_prev_batch(&MessageQuery::AfterCache));
    for query in [MessageQuery::AfterCache, MessageQuery::BeforeCache, MessageQuery::Newest] {
        let request = fresh.events_query(query, Some("last".to_owned()));
        assert_eq!(request.query, MessageQuery::Newest);
        assert_eq!(request.direction, Direction::Backward);
        assert_eq!(request.from, "last");
        assert_eq!(request.to, None);
    }
    let known = cache(Vec::new());
    let request = known.events_query(MessageQuery::Newest, Some("last".to_owned()));
    assert_eq!(request.to, Some("end".to_owned()));
}

#[test]
fn a_sync_is_ignored_where_newer_events_are_missing() {
    let mut cache = RoomTimelineCache::default();
    cache.handle_sync_batch(sync(vec![message("$1", "a")], false, None), "t");
    assert!(backwards(&cache).is_empty());
    assert!(!cache.reached_newest());
}

#[test]
fn a_limited_sync_replaces_the_timeline() {
    let mut cache = cache(vec![message("$1", "a")]);
    cache.handle_sync_batch(sync(vec![message("$5", "e")], true, Some("before")), "t");
    assert_eq!(backwards(&cache), ["$5"]);
    assert_eq!(cache.begin, CacheEndState::Open);
    assert_eq!(cache.events_query(MessageQuery::BeforeCache, None).from, "before");
    cache.handle_sync_batch(sync(vec![message("$6", "f")], true, None), "t");
    assert_eq!(backwards(&cache), ["$6"]);
    assert_eq!(cache.begin, CacheEndState::Reached);
}

#[test]
fn an_empty_room_ends_at_once() {
    let mut cache = cache(Vec::new());
    assert!(matches!(cache.walk_from_newest(), EventWalkResultNewest::RequiresFetch(None)));
    cache.update(batch(MessageQuery::BeforeCache, Vec::new(), 0));
    assert!(matches!(cache.walk_from_newest(), EventWalkResultNewest::End));
}

#[test]
fn unreadable_events_are_left_out() {
    let mut cache = cache(Vec::new());
    let timeline = SyncTimeline {
        events: vec![Some(message("$1", "a")), None, Some(message("$2", "b"))],
        limited: false,
        prev_batch: None,
    };
    cache.handle_sync_batch(timeline, "t");
    assert_eq!(backwards(&cache), ["$2", "$1"]);
}

#[test]
fn steps_back_and_forth_cancel_out() {
    let cache = cache(vec![message("$1", "a"), message("$2", "b"), message("$3", "c")]);
    let middle = cache.walk_from_known("$2").message().unwrap();
    let before = cache.previous(middle).message().unwrap();
    let after = cache.next(middle).message().unwrap();
    assert_eq!(cache.message(before).event_id(), "$1");
    assert_eq!(cache.message(after).event_id(), "$3");
    assert_eq!(cache.message(cache.next(before).message().unwrap()).event_id(), "$2");
    assert_eq!(cache.message(cache.previous(after).message().unwrap()).event_id(), "$2");
}

#[test]
fn a_filter_selects_what_is_walked_through() {
    let mut cache = cache(vec![message("$1", "one"), message("$2", "two"), message("$3", "none")]);
    cache.set_filter(Some(Filter::parse("one").unwrap()));
    assert_eq!(backwards(&cache), ["$3", "$1"]);
    // Events that come later are selected as well.
    cache.handle_sync_batch(sync(vec![message("$4", "bone"), message("$5", "x")], false, None), "t");
    assert_eq!(backwards(&cache), ["$4", "$3", "$1"]);
    cache.update(batch(
        MessageQuery::BeforeCache,
        vec![message("$0", "one"), message("$-1", "y")],
        0,
    ));
    assert_eq!(backwards(&cache), ["$4", "$3", "$1", "$0"]);
    assert_eq!(cache.end_id(), Some("$5"));
    cache.set_filter(None);
    assert_eq!(backwards(&cache), ["$5", "$4", "$3", "$2", "$1", "$0", "$-1"]);
}

#[test]
fn a_reaction_is_attached_to_its_event() {
    let mut cache = cache(vec![
        message("$1", "a"),
        reaction("$r1", "$1", "+"),
        reaction("$r2", "$1", "-"),
        reaction("$r3", "$1", "+"),
    ]);
    assert_eq!(backwards(&cache), ["$1"]);
    let groups = &cache.reactions("$1").unwrap().groups;
    assert_eq!(groups.len(), 2);
    assert_eq!(groups[0].key, "+");
    assert_eq!(groups[0].events.len(), 2);
    assert_eq!(groups[0].events[1].event_id, "$r3");
    assert_eq!(groups[0].events[1].sender, "@a:b");
    assert_eq!(groups[1].key, "-");
    // What is removed again leaves no trace.
    cache.handle_sync_batch(sync(vec![redaction("$x", "$r1")], false, None), "t");
    assert_eq!(cache.reactions("$1").unwrap().groups[0].events[0].event_id, "$r3");
    cache.handle_sync_batch(sync(vec![redaction("$y", "$r3")], false, None), "t");
    assert_eq!(cache.reactions("$1").unwrap().groups.len(), 1);
    cache.handle_sync_batch(sync(vec![redaction("$z", "$r2")], false, None), "t");
    assert!(cache.reactions("$1").is_none());
    assert!(matches!(cache.message_from_id("$1"), Some(TimelineEntry::Simple(_))));
}

#[test]
fn a_removed_reaction_leaves_no_trace() {
    let mut cache = cache(vec![message("$1", "a")]);
    assert!(cache.pre_process_message(reaction("$2", "$1", "+")).is_none());
    assert!(cache.pre_process_message(reaction("$3", "$1", "-")).is_none());
    assert_eq!(cache.reactions("$1").map(|r| r.groups.len()), Some(2));
    assert!(cache.pre_process_message(redaction("$4", "$3")).is_none());
    let groups = &cache.reactions("$1").unwrap().groups;
    assert_eq!(groups.len(), 1);
    assert_eq!(groups[0].key, "+");
    assert_eq!(groups[0].events.len(), 1);
    assert!(cache.pre_process_message(redaction("$5", "$2")).is_none());
    assert!(cache.reactions("$1").is_none());
}

#[test]
fn ids_in_a_sequence_stay_valid() {
    let mut s = EventSequence::empty();
    assert_eq!(s.last(), None);
    assert!(s.id("$1").is_none());
    s.append("$1".to_owned());
    s.append("$2".to_owned());
    let one = s.id("$1").unwrap();
    let two = s.id("$2").unwrap();
    s.prepend("$0".to_owned());
    s.append("$3".to_owned());
    s.prepend("$-1".to_owned());
    assert_eq!(s.event(one), "$1");
    assert_eq!(s.event(two), "$2");
    for id in ["$-1", "$0", "$1", "$2", "$3"] {
        assert_eq!(s.event(s.id(id).unwrap()), id);
    }
    assert_eq!(s.last(), Some("$3"));
}

#[test]
fn neighbours_in_a_sequence() {
    let mut s = EventSequence::empty();
    s.append("$2".to_owned());
    s.append("$3".to_owned());
    s.prepend("$1".to_owned());
    assert_eq!(s.next("$1"), Some("$2"));
    assert_eq!(s.next("$2"), Some("$3"));
    assert_eq!(s.next("$3"), None);
    assert_eq!(s.next("$4"), None);
    assert_eq!(s.prev("$3"), Some("$2"));
    assert_eq!(s.prev("$2"), Some("$1"));
    assert_eq!(s.prev("$1"), None);
    assert_eq!(s.prev("$4"), None);
}

#[test]
fn a_removed_message_is_shown_as_deleted() {
    let mut cache = cache(vec![message("$1", "a"), redaction("$x", "$1")]);
    let entry = cache.message_from_id("$1").unwrap();
    assert!(matches!(entry, TimelineEntry::Deleted(_)));
    assert!(entry.latest().is_none());
    assert_eq!(entry.original().event_id, "$1");
    // Removals are kept when the timeline is fetched anew.
    cache.clear();
    assert!(cache.message_from_id("$1").is_none());
    cache.update(batch(MessageQuery::Newest, vec![message("$1", "a")], 0));
    assert!(matches!(cache.message_from_id("$1"), Some(TimelineEntry::Deleted(_))));
}

#[test]
fn an_edited_message_shows_its_latest_version() {
    let cache = cache(vec![
        message("$1", "a"),
        related("$2", "b", Relation::Replacement("$1".to_owned())),
        related("$3", "c", Relation::Replacement("$1".to_owned())),
        related("$4", "d", Relation::Reply("$1".to_owned())),
    ]);
    assert_eq!(backwards(&cache), ["$4", "$1"]);
    for id in ["$1", "$2", "$3"] {
        let entry = cache.message_from_id(id).unwrap();
        assert_eq!(entry.event_id(), "$1");
        assert_eq!(entry.latest().unwrap().event_id, "$3");
        assert_eq!(entry.original().body(), Some("a"));
    }
}

#[test]
fn events_without_content_are_not_shown() {
    let cache = cache(vec![event("$1", EventContent::Redacted(false)), message("$2", "b")]);
    assert_eq!(backwards(&cache), ["$2"]);
    assert!(!cache.has_undecrypted_messages());
}

#[test]
fn undecrypted_messages_are_noticed() {
    let mut cache = cache(vec![event("$1", EventContent::Encrypted)]);
    assert!(cache.has_undecrypted_messages());
    assert_eq!(backwards(&cache), ["$1"]);
    cache.clear();
    assert!(!cache.has_undecrypted_messages());
    assert_eq!(cache.end, CacheEndState::Open);
}
