//! The colours of the users of a room.

use std::collections::hash_map::DefaultHasher;
use std::hash::{Hash, Hasher};
use vstd::hash_map::StringHashMap;
use vstd::prelude::*;
use vstd::std_specs::hash::DefaultHasherAdditionalSpecFns;

use crate::text::same;

verus! {

/// The colours of the terminal that are used.
#[derive(Copy, Clone, Debug, PartialEq, Eq, Structural)]
pub enum Color {
    Default,
    White,
    Red,
    Blue,
    Cyan,
    Green,
    Yellow,
    Magenta,
}

/// How many colours there are for other users.
pub const NUM_COLORS: usize = 6;

/// The colours for other users.
pub open spec fn available_color(i: int) -> Color {
    if i == 0 {
        Color::Red
    } else if i == 1 {
        Color::Blue
    } else if i == 2 {
        Color::Cyan
    } else if i == 3 {
        Color::Green
    } else if i == 4 {
        Color::Yellow
    } else {
        Color::Magenta
    }
}

/// The colours for other users.
fn color_at(i: usize) -> (res: Color)
    ensures
        res == available_color(i as int),
{
    match i {
        0 => Color::Red,
        1 => Color::Blue,
        2 => Color::Cyan,
        3 => Color::Green,
        4 => Color::Yellow,
        _ => Color::Magenta,
    }
}

/// The writes that `str::hash` makes to a hasher.
pub uninterp spec fn hash_input(text: Seq<char>) -> Seq<Seq<u8>>;

/// Calls `str::hash` on a `DefaultHasher`. The claim is that what is written to the hasher depends
/// on the characters of the text alone, as texts that are equal have equal hashes; the writes are
/// not written out.
#[verifier::external_body]
fn feed_text(hasher: &mut DefaultHasher, s: &str)
    ensures
        final(hasher)@ == old(hasher)@ + hash_input(s@),
{
    s.hash(hasher);
}

/// The hash of a text.
pub open spec fn text_hash(text: Seq<char>) -> u64 {
    DefaultHasher::spec_finish(hash_input(text))
}

/// The hash of a text.
fn hash_text(s: &str) -> (res: u64)
    ensures
        res == text_hash(s@),
{
    let mut hasher = DefaultHasher::new();
    feed_text(&mut hasher, s);
    proof {
        assert(hasher@ =~= hash_input(s@));
    }
    hasher.finish()
}

/// The colour that a user tries first.
pub open spec fn first_choice(id: Seq<char>) -> usize {
    (text_hash(id) as usize) % NUM_COLORS
}

/// One user in line for a colour: the id, and the colour to try first.
pub struct ColorWish {
    pub id: String,
    pub position: usize,
}

/// One user in line for a colour, with the id as characters.
pub struct WishView {
    pub id: Seq<char>,
    pub position: usize,
}

impl View for ColorWish {
    type V = WishView;

    open spec fn view(&self) -> WishView {
        WishView { id: self.id@, position: self.position }
    }
}

/// The users in line, with their ids as characters.
pub open spec fn wish_views(wishes: Seq<ColorWish>) -> Seq<WishView> {
    Seq::new(wishes.len(), |i: int| wishes[i]@)
}

/// The users that hold a colour in the current round, by colour.
pub type Table = Seq<Option<Seq<char>>>;

/// A round in which no colour is taken.
pub open spec fn empty_table() -> Table {
    Seq::new(NUM_COLORS as nat, |i: int| None)
}

/// The place that lies `offset` places behind `position`, going round.
pub open spec fn slot_at(position: int, offset: int) -> int {
    (position + offset) % (NUM_COLORS as int)
}

/// The first colour that is not taken, from `position + offset` on, going round.
pub open spec fn free_slot(table: Table, position: int, offset: int) -> Option<int>
    decreases NUM_COLORS - offset,
{
    if offset >= NUM_COLORS {
        None
    } else if table[slot_at(position, offset)] is None {
        Some(slot_at(position, offset))
    } else {
        free_slot(table, position, offset + 1)
    }
}

/// The colours after the first `n` places of a round were given out.
pub open spec fn given_out(table: Table, colors: Map<Seq<char>, Color>, n: int) -> Map<
    Seq<char>,
    Color,
>
    decreases n,
{
    if n <= 0 {
        colors
    } else {
        let before = given_out(table, colors, n - 1);
        match table[n - 1] {
            Some(id) => before.insert(id, available_color(n - 1)),
            None => before,
        }
    }
}

/// A round, and the colours of the rounds before it.
pub struct ColorState {
    pub table: Table,
    pub colors: Map<Seq<char>, Color>,
}

/// The state after one more user got in line. When every colour of the round is taken, a new round
/// begins.
pub open spec fn seated(s: ColorState, id: Seq<char>, position: int) -> ColorState {
    match free_slot(s.table, position, 0) {
        Some(i) => ColorState { table: s.table.update(i, Some(id)), colors: s.colors },
        None => ColorState {
            table: empty_table().update(position % (NUM_COLORS as int), Some(id)),
            colors: given_out(s.table, s.colors, NUM_COLORS as int),
        },
    }
}

/// The state after all users got in line, one after the other.
pub open spec fn all_seated(own: Seq<char>, wishes: Seq<WishView>) -> ColorState
    decreases wishes.len(),
{
    if wishes.len() == 0 {
        ColorState {
            table: empty_table(),
            colors: Map::<Seq<char>, Color>::empty().insert(own, Color::White),
        }
    } else {
        seated(
            all_seated(own, wishes.drop_last()),
            wishes.last().id,
            wishes.last().position as int,
        )
    }
}

/// The colours of the users: white for the own user, and for the others the colour that each one
/// wished for or the next one that was free in its round.
pub open spec fn user_colors(own: Seq<char>, wishes: Seq<WishView>) -> Map<Seq<char>, Color> {
    let s = all_seated(own, wishes);
    given_out(s.table, s.colors, NUM_COLORS as int)
}

/// Gives the colours of a round out.
fn give_out(table: &Vec<Option<String>>, colors: &mut StringHashMap<Color>)
    requires
        table@.len() == NUM_COLORS,
    ensures
        final(colors)@ == given_out(table_view(table@), old(colors)@, NUM_COLORS as int),
{
    let mut i: usize = 0;
    while i < NUM_COLORS
        invariant
            i <= NUM_COLORS,
            table@.len() == NUM_COLORS,
            colors@ == given_out(table_view(table@), old(colors)@, i as int),
        decreases NUM_COLORS - i,
    {
        if let Some(id) = &table[i] {
            colors.insert(id.clone(), color_at(i));
        }
        i = i + 1;
    }
}

/// A round with its ids as characters.
pub open spec fn table_view(table: Seq<Option<String>>) -> Table {
    Seq::new(
        table.len(),
        |i: int|
            match table[i] {
                Some(s) => Some(s@),
                None => None,
            },
    )
}

/// A round in which no colour is taken.
fn new_table() -> (res: Vec<Option<String>>)
    ensures
        res@.len() == NUM_COLORS,
        table_view(res@) == empty_table(),
{
    let mut table: Vec<Option<String>> = Vec::new();
    let mut i: usize = 0;
    while i < NUM_COLORS
        invariant
            i <= NUM_COLORS,
            table@.len() == i,
            forall|j: int| 0 <= j < i ==> (#[trigger] table@[j]) is None,
        decreases NUM_COLORS - i,
    {
        table.push(None);
        i = i + 1;
    }
    proof {
        assert(table_view(table@) =~= empty_table());
    }
    table
}

/// The first colour of a round that is not taken, from a position on, going round.
fn find_free(table: &Vec<Option<String>>, position: usize) -> (res: Option<usize>)
    requires
        table@.len() == NUM_COLORS,
        position < NUM_COLORS,
    ensures
        match res {
            Some(i) => i < NUM_COLORS && free_slot(table_view(table@), position as int, 0) == Some(
                i as int,
            ),
            None => free_slot(table_view(table@), position as int, 0) is None,
        },
{
    let mut offset: usize = 0;
    while offset < NUM_COLORS
        invariant
            offset <= NUM_COLORS,
            position < NUM_COLORS,
            table@.len() == NUM_COLORS,
            free_slot(table_view(table@), position as int, 0) == free_slot(
                table_view(table@),
                position as int,
                offset as int,
            ),
        decreases NUM_COLORS - offset,
    {
        let i: usize = (position + offset) % NUM_COLORS;
        if table[i].is_none() {
            return Some(i);
        }
        offset = offset + 1;
    }
    None
}

/// Gives every user a colour.
pub fn assign_colors(own: &str, wishes: &Vec<ColorWish>) -> (res: StringHashMap<Color>)
    requires
        forall|i: int| 0 <= i < wishes@.len() ==> (#[trigger] wishes@[i]).position < NUM_COLORS,
    ensures
        res@ == user_colors(own@, wish_views(wishes@)),
{
    let mut colors: StringHashMap<Color> = StringHashMap::new();
    colors.insert(own.to_owned(), Color::White);
    let mut table = new_table();
    let mut i: usize = 0;
    while i < wishes.len()
        invariant
            i <= wishes@.len(),
            table@.len() == NUM_COLORS,
            forall|j: int| 0 <= j < wishes@.len() ==> (#[trigger] wishes@[j]).position < NUM_COLORS,
            all_seated(own@, wish_views(wishes@).take(i as int)) == (ColorState {
                table: table_view(table@),
                colors: colors@,
            }),
        decreases wishes@.len() - i,
    {
        let wish = &wishes[i];
        proof {
            let views = wish_views(wishes@);
            assert(views.take(i + 1).drop_last() =~= views.take(i as int));
            assert(views.take(i + 1).last() == wish@);
        }
        let ghost before = table_view(table@);
        match find_free(&table, wish.position) {
            Some(slot) => {
                table.set(slot, Some(wish.id.clone()));
                proof {
                    assert(table_view(table@) =~= before.update(slot as int, Some(wish.id@)));
                }
            },
            None => {
                give_out(&table, &mut colors);
                table = new_table();
                let ghost emptied = table_view(table@);
                table.set(wish.position, Some(wish.id.clone()));
                proof {
                    assert(wish.position as int % (NUM_COLORS as int) == wish.position);
                    assert(table_view(table@) =~= emptied.update(
                        wish.position as int,
                        Some(wish.id@),
                    ));
                }
            },
        }
        i = i + 1;
    }
    give_out(&table, &mut colors);
    proof {
        assert(wish_views(wishes@).take(i as int) =~= wish_views(wishes@));
    }
    colors
}

/// The other users among those in a room, in order.
pub open spec fn others(own: Seq<char>, users: Seq<Seq<char>>) -> Seq<Seq<char>>
    decreases users.len(),
{
    if users.len() == 0 {
        Seq::empty()
    } else if users.last() == own {
        others(own, users.drop_last())
    } else {
        others(own, users.drop_last()).push(users.last())
    }
}

/// The ids as characters.
pub open spec fn id_texts(users: Seq<String>) -> Seq<Seq<char>> {
    Seq::new(users.len(), |i: int| users[i]@)
}

/// The other users of a room in line, each with the colour that the hash of the id picks.
pub open spec fn wishes_of(own: Seq<char>, users: Seq<Seq<char>>) -> Seq<WishView> {
    let ids = others(own, users);
    Seq::new(ids.len(), |i: int| WishView { id: ids[i], position: first_choice(ids[i]) })
}

/// Gives every user of a room a colour.
pub fn calculate_user_colors(own_user_id: &str, users: &Vec<String>) -> (res: StringHashMap<Color>)
    ensures
        res@ == user_colors(own_user_id@, wishes_of(own_user_id@, id_texts(users@))),
{
    let mut wishes: Vec<ColorWish> = Vec::new();
    let ghost ids = id_texts(users@);
    let mut i: usize = 0;
    proof {
        assert(wish_views(wishes@) =~= wishes_of(own_user_id@, ids.take(0)));
    }
    while i < users.len()
        invariant
            i <= users@.len(),
            ids == id_texts(users@),
            wish_views(wishes@) == wishes_of(own_user_id@, ids.take(i as int)),
            forall|j: int| 0 <= j < wishes@.len() ==> (#[trigger] wishes@[j]).position < NUM_COLORS,
        decreases users@.len() - i,
    {
        proof {
            assert(ids.take(i + 1).drop_last() =~= ids.take(i as int));
        }
        if !same(users[i].as_str(), own_user_id) {
            let ghost before = wish_views(wishes@);
            let position: usize = hash_text(users[i].as_str()) as usize % NUM_COLORS;
            wishes.push(ColorWish { id: users[i].clone(), position });
            proof {
                let id = users@[i as int]@;
                assert(wish_views(wishes@) =~= before.push(WishView { id, position }));
                assert(wish_views(wishes@) =~= wishes_of(own_user_id@, ids.take(i + 1)));
            }
        }
        i = i + 1;
    }
    proof {
        assert(ids.take(i as int) =~= ids);
    }
    assign_colors(own_user_id, &wishes)
}

proof fn lemma_given_out_len(table: Table, colors: Map<Seq<char>, Color>, n: int, id: Seq<char>)
    requires
        0 <= n <= NUM_COLORS,
        forall|i: int| 0 <= i < n ==> #[trigger] table[i] != Some(id),
    ensures
        given_out(table, colors, n).contains_key(id) == colors.contains_key(id),
        given_out(table, colors, n)[id] == colors[id],
    decreases n,
{
    if n > 0 {
        lemma_given_out_len(table, colors, n - 1, id);
        assert(table[n - 1] != Some(id));
    }
}

proof fn lemma_given_out(
    table: Table,
    colors: Map<Seq<char>, Color>,
    n: int,
    slot: int,
    id: Seq<char>,
)
    requires
        0 <= slot < n <= NUM_COLORS,
        table[slot] == Some(id),
        forall|i: int| slot < i < n ==> #[trigger] table[i] != Some(id),
    ensures
        given_out(table, colors, n).contains_key(id),
        given_out(table, colors, n)[id] == available_color(slot),
    decreases n,
{
    if n - 1 > slot {
        lemma_given_out(table, colors, n - 1, slot, id);
        assert(table[n - 1] != Some(id));
    }
}

/// What holds of a colour that a user has: it is one of the colours for other users.
pub open spec fn is_available(c: Color) -> bool {
    exists|i: int| 0 <= i < NUM_COLORS && c == #[trigger] available_color(i)
}

proof fn lemma_given_out_available(
    table: Table,
    colors: Map<Seq<char>, Color>,
    n: int,
    id: Seq<char>,
)
    requires
        0 <= n <= NUM_COLORS,
        (colors.contains_key(id) && is_available(colors[id])) || exists|i: int|
            0 <= i < n && #[trigger] table[i] == Some(id),
    ensures
        given_out(table, colors, n).contains_key(id),
        is_available(given_out(table, colors, n)[id]),
    decreases n,
{
    if n > 0 {
        if table[n - 1] == Some(id) {
            assert(is_available(available_color(n - 1)));
        } else {
            if !(colors.contains_key(id) && is_available(colors[id])) {
                let i = choose|i: int| 0 <= i < n && #[trigger] table[i] == Some(id);
                assert(i < n - 1);
                assert(table[i] == Some(id));
            }
            lemma_given_out_available(table, colors, n - 1, id);
        }
    }
}

proof fn lemma_free_slot(table: Table, position: int, offset: int)
    requires
        table.len() == NUM_COLORS,
        0 <= position < NUM_COLORS,
        0 <= offset <= NUM_COLORS,
    ensures
        free_slot(table, position, offset) matches Some(i) ==> 0 <= i < NUM_COLORS
            && table[i] is None,
        free_slot(table, position, offset) is None ==> forall|o: int|
            offset <= o < NUM_COLORS ==> table[#[trigger] slot_at(position, o)] is Some,
    decreases NUM_COLORS - offset,
{
    if offset < NUM_COLORS {
        lemma_free_slot(table, position, offset + 1);
    }
}

proof fn lemma_slots_cover(position: int, i: int) -> (o: int)
    requires
        0 <= position < NUM_COLORS,
        0 <= i < NUM_COLORS,
    ensures
        0 <= o < NUM_COLORS,
        slot_at(position, o) == i,
{
    if i >= position {
        i - position
    } else {
        i + NUM_COLORS - position
    }
}

proof fn lemma_none_free(table: Table, position: int)
    requires
        table.len() == NUM_COLORS,
        0 <= position < NUM_COLORS,
        free_slot(table, position, 0) is None,
    ensures
        taken(table) == NUM_COLORS,
{
    lemma_free_slot(table, position, 0);
    assert forall|i: int| 0 <= i < NUM_COLORS implies (#[trigger] table[i]) is Some by {
        let o = lemma_slots_cover(position, i);
        assert(table[slot_at(position, o)] is Some);
    }
}

/// Whether a user is seated in the round, or got a colour in an earlier one.
spec fn is_served(s: ColorState, id: Seq<char>) -> bool {
    (s.colors.contains_key(id) && is_available(s.colors[id])) || exists|i: int|
        0 <= i < NUM_COLORS && #[trigger] s.table[i] == Some(id)
}

proof fn lemma_seated(s: ColorState, id: Seq<char>, position: int, other: Seq<char>)
    requires
        s.table.len() == NUM_COLORS,
        0 <= position < NUM_COLORS,
    ensures
        seated(s, id, position).table.len() == NUM_COLORS,
        is_served(seated(s, id, position), id),
        is_served(s, other) ==> is_served(seated(s, id, position), other),
{
    let after = seated(s, id, position);
    lemma_free_slot(s.table, position, 0);
    match free_slot(s.table, position, 0) {
        Some(i) => {
            assert(after.table[i] == Some(id));
            if is_served(s, other) && !(s.colors.contains_key(other) && is_available(
                s.colors[other],
            )) {
                let j = choose|j: int|
                    0 <= j < NUM_COLORS && #[trigger] s.table[j] == Some(other);
                assert(after.table[j] == Some(other));
            }
        },
        None => {
            assert(after.table[position % (NUM_COLORS as int)] == Some(id));
            if is_served(s, other) {
                lemma_given_out_available(s.table, s.colors, NUM_COLORS as int, other);
            }
        },
    }
}

proof fn lemma_all_served(own: Seq<char>, wishes: Seq<WishView>, k: int)
    requires
        forall|i: int| 0 <= i < wishes.len() ==> (#[trigger] wishes[i]).position < NUM_COLORS,
    ensures
        all_seated(own, wishes).table.len() == NUM_COLORS,
        0 <= k < wishes.len() ==> is_served(all_seated(own, wishes), wishes[k].id),
    decreases wishes.len(),
{
    if wishes.len() > 0 {
        let front = wishes.drop_last();
        assert forall|i: int| 0 <= i < front.len() implies (#[trigger] front[i]).position
            < NUM_COLORS by {
            assert(front[i] == wishes[i]);
        }
        lemma_all_served(own, front, k);
        let last = wishes.last();
        assert(last == wishes[wishes.len() - 1]);
        let other = if 0 <= k < wishes.len() {
            wishes[k].id
        } else {
            last.id
        };
        if 0 <= k < front.len() {
            assert(front[k] == wishes[k]);
        }
        lemma_seated(all_seated(own, front), last.id, last.position as int, other);
    }
}

/// Every other user has one of the colours for other users.
pub proof fn law_others_have_available_colors(own: Seq<char>, wishes: Seq<WishView>, k: int)
    requires
        forall|i: int| 0 <= i < wishes.len() ==> (#[trigger] wishes[i]).position < NUM_COLORS,
        0 <= k < wishes.len(),
    ensures
        user_colors(own, wishes).contains_key(wishes[k].id),
        is_available(user_colors(own, wishes)[wishes[k].id]),
        user_colors(own, wishes)[wishes[k].id] != Color::White,
{
    lemma_all_served(own, wishes, k);
    let s = all_seated(own, wishes);
    lemma_given_out_available(s.table, s.colors, NUM_COLORS as int, wishes[k].id);
}

proof fn lemma_own_untouched(own: Seq<char>, wishes: Seq<WishView>)
    requires
        forall|i: int| 0 <= i < wishes.len() ==> (#[trigger] wishes[i]).position < NUM_COLORS,
        forall|i: int| 0 <= i < wishes.len() ==> (#[trigger] wishes[i]).id != own,
    ensures
        all_seated(own, wishes).table.len() == NUM_COLORS,
        all_seated(own, wishes).colors.contains_key(own),
        all_seated(own, wishes).colors[own] == Color::White,
        forall|i: int|
            0 <= i < NUM_COLORS ==> #[trigger] all_seated(own, wishes).table[i] != Some(own),
    decreases wishes.len(),
{
    if wishes.len() > 0 {
        let front = wishes.drop_last();
        assert forall|i: int| 0 <= i < front.len() implies (#[trigger] front[i]).position
            < NUM_COLORS && front[i].id != own by {
            assert(front[i] == wishes[i]);
        }
        lemma_own_untouched(own, front);
        let s = all_seated(own, front);
        let last = wishes[wishes.len() - 1];
        assert(last == wishes.last());
        lemma_free_slot(s.table, last.position as int, 0);
        lemma_given_out_len(s.table, s.colors, NUM_COLORS as int, own);
    }
}

/// The own user is white.
pub proof fn law_own_user_is_white(own: Seq<char>, wishes: Seq<WishView>)
    requires
        forall|i: int| 0 <= i < wishes.len() ==> (#[trigger] wishes[i]).position < NUM_COLORS,
        forall|i: int| 0 <= i < wishes.len() ==> (#[trigger] wishes[i]).id != own,
    ensures
        user_colors(own, wishes).contains_key(own),
        user_colors(own, wishes)[own] == Color::White,
{
    lemma_own_untouched(own, wishes);
    let s = all_seated(own, wishes);
    lemma_given_out_len(s.table, s.colors, NUM_COLORS as int, own);
}

/// One for a place that is taken, else none.
spec fn one_if_taken(table: Table, i: int) -> int {
    if table[i] is Some {
        1
    } else {
        0
    }
}

/// How many places of a round are taken.
spec fn taken(table: Table) -> int {
    one_if_taken(table, 0) + one_if_taken(table, 1) + one_if_taken(table, 2) + one_if_taken(
        table,
        3,
    ) + one_if_taken(table, 4) + one_if_taken(table, 5)
}

proof fn lemma_taken_update(table: Table, slot: int, id: Seq<char>)
    requires
        table.len() == NUM_COLORS,
        0 <= slot < NUM_COLORS,
        table[slot] is None,
    ensures
        taken(table.update(slot, Some(id))) == taken(table) + 1,
{
    let after = table.update(slot, Some(id));
    assert forall|i: int| 0 <= i < NUM_COLORS && i != slot implies one_if_taken(after, i)
        == #[trigger] one_if_taken(table, i) by {}
}

/// Whether a user has a place in a round.
spec fn has_place(table: Table, id: Seq<char>) -> bool {
    exists|i: int| 0 <= i < NUM_COLORS && #[trigger] table[i] == Some(id)
}

/// Whether a user is in line.
spec fn is_wished(wishes: Seq<WishView>, id: Seq<char>) -> bool {
    exists|k: int| 0 <= k < wishes.len() && (#[trigger] wishes[k]).id == id
}

/// Whether the users in line, and no others, have each a place of their own in a round.
spec fn all_placed(table: Table, wishes: Seq<WishView>) -> bool {
    &&& table.len() == NUM_COLORS
    &&& taken(table) == wishes.len()
    &&& forall|k: int| 0 <= k < wishes.len() ==> has_place(table, (#[trigger] wishes[k]).id)
    &&& forall|i: int|
        0 <= i < NUM_COLORS && #[trigger] table[i] is Some ==> is_wished(wishes, table[i]->0)
    &&& forall|i: int, j: int|
        0 <= i < j < NUM_COLORS && #[trigger] table[i] is Some && #[trigger] table[j] is Some
            ==> table[i] != table[j]
}

proof fn lemma_one_more_placed(table: Table, wishes: Seq<WishView>, last: WishView, slot: int)
    requires
        all_placed(table, wishes),
        !is_wished(wishes, last.id),
        0 <= slot < NUM_COLORS,
        table[slot] is None,
    ensures
        all_placed(table.update(slot, Some(last.id)), wishes.push(last)),
{
    let after = table.update(slot, Some(last.id));
    let more = wishes.push(last);
    lemma_taken_update(table, slot, last.id);
    assert(after[slot] == Some(last.id));
    assert forall|k: int| 0 <= k < more.len() implies has_place(after, (#[trigger] more[k]).id) by {
        if k < wishes.len() {
            assert(has_place(table, wishes[k].id));
            let i = choose|i: int| 0 <= i < NUM_COLORS && #[trigger] table[i] == Some(wishes[k].id);
            assert(after[i] == Some(more[k].id));
        }
    }
    assert(more[wishes.len() as int].id == last.id);
    assert forall|i: int| 0 <= i < NUM_COLORS && #[trigger] after[i] is Some implies is_wished(
        more,
        after[i]->0,
    ) by {
        if i != slot {
            assert(is_wished(wishes, table[i]->0));
            let k = choose|k: int|
                0 <= k < wishes.len() && (#[trigger] wishes[k]).id == table[i]->0;
            assert(more[k].id == after[i]->0);
        }
    }
    assert forall|i: int, j: int|
        0 <= i < j < NUM_COLORS && #[trigger] after[i] is Some && #[trigger] after[j] is Some
            implies after[i] != after[j] by {
        if i == slot {
            assert(is_wished(wishes, table[j]->0));
        } else if j == slot {
            assert(is_wished(wishes, table[i]->0));
        } else {
            assert(table[i] != table[j]);
        }
    }
}

proof fn lemma_first_round(own: Seq<char>, wishes: Seq<WishView>)
    requires
        wishes.len() <= NUM_COLORS,
        forall|i: int| 0 <= i < wishes.len() ==> (#[trigger] wishes[i]).position < NUM_COLORS,
        forall|i: int, j: int|
            0 <= i < j < wishes.len() ==> (#[trigger] wishes[i]).id != (#[trigger] wishes[j]).id,
    ensures
        all_placed(all_seated(own, wishes).table, wishes),
    decreases wishes.len(),
{
    if wishes.len() > 0 {
        let front = wishes.drop_last();
        let last = wishes.last();
        assert(last == wishes[wishes.len() - 1]);
        assert forall|i: int| 0 <= i < front.len() implies (#[trigger] front[i]).position
            < NUM_COLORS by {
            assert(front[i] == wishes[i]);
        }
        assert forall|i: int, j: int| 0 <= i < j < front.len() implies (#[trigger] front[i]).id != (
        #[trigger] front[j]).id by {
            assert(wishes[i].id != wishes[j].id);
        }
        lemma_first_round(own, front);
        if is_wished(front, last.id) {
            let k = choose|k: int| 0 <= k < front.len() && (#[trigger] front[k]).id == last.id;
            assert(wishes[k].id != wishes[wishes.len() - 1].id);
        }
        let table = all_seated(own, front).table;
        let position = last.position as int;
        lemma_free_slot(table, position, 0);
        if free_slot(table, position, 0) is None {
            lemma_none_free(table, position);
        }
        lemma_one_more_placed(table, front, last, free_slot(table, position, 0)->0);
        assert(front.push(last) =~= wishes);
    }
}

/// As long as there are no more other users than colours, no two of them share a colour.
pub proof fn law_few_users_have_different_colors(
    own: Seq<char>,
    wishes: Seq<WishView>,
    a: int,
    b: int,
)
    requires
        wishes.len() <= NUM_COLORS,
        forall|i: int| 0 <= i < wishes.len() ==> (#[trigger] wishes[i]).position < NUM_COLORS,
        forall|i: int, j: int|
            0 <= i < j < wishes.len() ==> (#[trigger] wishes[i]).id != (#[trigger] wishes[j]).id,
        0 <= a < b < wishes.len(),
    ensures
        user_colors(own, wishes)[wishes[a].id] != user_colors(own, wishes)[wishes[b].id],
{
    lemma_first_round(own, wishes);
    let s = all_seated(own, wishes);
    let x = wishes[a].id;
    let y = wishes[b].id;
    assert(has_place(s.table, x));
    assert(has_place(s.table, y));
    let i = choose|i: int| 0 <= i < NUM_COLORS && #[trigger] s.table[i] == Some(x);
    let j = choose|j: int| 0 <= j < NUM_COLORS && #[trigger] s.table[j] == Some(y);
    assert(x != y);
    assert forall|k: int| i < k < NUM_COLORS implies #[trigger] s.table[k] != Some(x) by {}
    assert forall|k: int| j < k < NUM_COLORS implies #[trigger] s.table[k] != Some(y) by {}
    lemma_given_out(s.table, s.colors, NUM_COLORS as int, i, x);
    lemma_given_out(s.table, s.colors, NUM_COLORS as int, j, y);
}

/// How many of the users in line hold a colour.
pub open spec fn holders(colors: Map<Seq<char>, Color>, wishes: Seq<WishView>, c: Color) -> int
    decreases wishes.len(),
{
    if wishes.len() == 0 {
        0
    } else {
        let id = wishes.last().id;
        holders(colors, wishes.drop_last(), c) + (if colors.contains_key(id) && colors[id] == c {
            1int
        } else {
            0int
        })
    }
}

/// One more user with a place in the round gets the colour of that place, and nothing else changes.
proof fn lemma_one_more_given_out(
    table: Table,
    colors: Map<Seq<char>, Color>,
    slot: int,
    id: Seq<char>,
    n: int,
)
    requires
        table.len() == NUM_COLORS,
        0 <= slot < NUM_COLORS,
        table[slot] is None,
        forall|i: int| 0 <= i < NUM_COLORS ==> #[trigger] table[i] != Some(id),
        0 <= n <= NUM_COLORS,
    ensures
        given_out(table.update(slot, Some(id)), colors, n) == (if n <= slot {
            given_out(table, colors, n)
        } else {
            given_out(table, colors, n).insert(id, available_color(slot))
        }),
    decreases n,
{
    if n > 0 {
        lemma_one_more_given_out(table, colors, slot, id, n - 1);
        let before = given_out(table, colors, n - 1);
        if n - 1 > slot {
            if let Some(other) = table[n - 1] {
                assert(table[n - 1] != Some(id));
                assert(before.insert(id, available_color(slot)).insert(
                    other,
                    available_color(n - 1),
                ) =~= before.insert(other, available_color(n - 1)).insert(
                    id,
                    available_color(slot),
                ));
            }
        }
    }
}

proof fn lemma_holders_insert(
    colors: Map<Seq<char>, Color>,
    wishes: Seq<WishView>,
    id: Seq<char>,
    color: Color,
    c: Color,
)
    requires
        !is_wished(wishes, id),
    ensures
        holders(colors.insert(id, color), wishes, c) == holders(colors, wishes, c),
    decreases wishes.len(),
{
    if wishes.len() > 0 {
        let front = wishes.drop_last();
        assert(wishes[wishes.len() - 1].id != id);
        if is_wished(front, id) {
            let k = choose|k: int| 0 <= k < front.len() && (#[trigger] front[k]).id == id;
            assert(wishes[k].id == id);
        }
        lemma_holders_insert(colors, front, id, color, c);
    }
}

proof fn lemma_none_taken_given_out(colors: Map<Seq<char>, Color>, n: int)
    requires
        0 <= n <= NUM_COLORS,
    ensures
        given_out(empty_table(), colors, n) == colors,
    decreases n,
{
    if n > 0 {
        lemma_none_taken_given_out(colors, n - 1);
    }
}

/// Whether each colour is held by the users of `rounds` rounds that are over, and by the one that
/// has its place in the current round, if one has.
spec fn is_balanced(s: ColorState, wishes: Seq<WishView>, rounds: int) -> bool {
    &&& s.table.len() == NUM_COLORS
    &&& forall|i: int|
        0 <= i < NUM_COLORS && #[trigger] s.table[i] is Some ==> is_wished(wishes, s.table[i]->0)
    &&& forall|i: int|
        0 <= i < NUM_COLORS ==> holders(
            given_out(s.table, s.colors, NUM_COLORS as int),
            wishes,
            #[trigger] available_color(i),
        ) == rounds + one_if_taken(s.table, i)
}

proof fn lemma_all_taken(table: Table)
    requires
        taken(table) == NUM_COLORS,
    ensures
        forall|i: int| 0 <= i < NUM_COLORS ==> #[trigger] one_if_taken(table, i) == 1,
{
    assert forall|i: int| 0 <= i < NUM_COLORS implies #[trigger] one_if_taken(table, i) == 1 by {
        assert(i == 0 || i == 1 || i == 2 || i == 3 || i == 4 || i == 5);
    }
}

/// Where one more user takes a free place, the colours stay balanced.
proof fn lemma_one_more_balanced(
    s: ColorState,
    wishes: Seq<WishView>,
    rounds: int,
    last: WishView,
    slot: int,
)
    requires
        is_balanced(s, wishes, rounds),
        !is_wished(wishes, last.id),
        0 <= slot < NUM_COLORS,
        s.table[slot] is None,
    ensures
        is_balanced(
            ColorState { table: s.table.update(slot, Some(last.id)), colors: s.colors },
            wishes.push(last),
            rounds,
        ),
{
    let table = s.table.update(slot, Some(last.id));
    let more = wishes.push(last);
    let full = NUM_COLORS as int;
    let before = given_out(s.table, s.colors, full);
    let after = given_out(table, s.colors, full);
    assert forall|i: int| 0 <= i < NUM_COLORS implies #[trigger] s.table[i] != Some(last.id) by {
        if s.table[i] is Some {
            assert(is_wished(wishes, s.table[i]->0));
        }
    }
    lemma_one_more_given_out(s.table, s.colors, slot, last.id, full);
    assert(after == before.insert(last.id, available_color(slot)));
    assert(more.drop_last() =~= wishes);
    assert forall|i: int| 0 <= i < NUM_COLORS && #[trigger] table[i] is Some implies is_wished(
        more,
        table[i]->0,
    ) by {
        if i == slot {
            assert(more[wishes.len() as int].id == last.id);
        } else {
            assert(s.table[i] is Some);
            assert(is_wished(wishes, s.table[i]->0));
            let k = choose|k: int|
                0 <= k < wishes.len() && (#[trigger] wishes[k]).id == s.table[i]->0;
            assert(more[k].id == table[i]->0);
        }
    }
    assert forall|i: int| 0 <= i < NUM_COLORS implies holders(
        after,
        more,
        #[trigger] available_color(i),
    ) == rounds + one_if_taken(table, i) by {
        let c = available_color(i);
        lemma_holders_insert(before, wishes, last.id, available_color(slot), c);
        assert(holders(before, wishes, c) == rounds + one_if_taken(s.table, i));
        assert((c == available_color(slot)) == (i == slot));
    }
}

proof fn lemma_balanced(own: Seq<char>, wishes: Seq<WishView>) -> (rounds: int)
    requires
        forall|i: int| 0 <= i < wishes.len() ==> (#[trigger] wishes[i]).position < NUM_COLORS,
        forall|i: int, j: int|
            0 <= i < j < wishes.len() ==> (#[trigger] wishes[i]).id != (#[trigger] wishes[j]).id,
    ensures
        is_balanced(all_seated(own, wishes), wishes, rounds),
    decreases wishes.len(),
{
    if wishes.len() == 0 {
        0
    } else {
        let front = wishes.drop_last();
        let last = wishes.last();
        let position = last.position as int;
        assert(last == wishes[wishes.len() - 1]);
        assert forall|i: int| 0 <= i < front.len() implies (#[trigger] front[i]).position
            < NUM_COLORS by {
            assert(front[i] == wishes[i]);
        }
        assert forall|i: int, j: int| 0 <= i < j < front.len() implies (#[trigger] front[i]).id != (
        #[trigger] front[j]).id by {
            assert(wishes[i].id != wishes[j].id);
        }
        let rounds = lemma_balanced(own, front);
        if is_wished(front, last.id) {
            let k = choose|k: int| 0 <= k < front.len() && (#[trigger] front[k]).id == last.id;
            assert(wishes[k].id != wishes[wishes.len() - 1].id);
        }
        assert(front.push(last) =~= wishes);
        let s = all_seated(own, front);
        lemma_free_slot(s.table, position, 0);
        match free_slot(s.table, position, 0) {
            Some(slot) => {
                lemma_one_more_balanced(s, front, rounds, last, slot);
                rounds
            },
            None => {
                lemma_none_free(s.table, position);
                lemma_all_taken(s.table);
                let fresh = ColorState {
                    table: empty_table(),
                    colors: given_out(s.table, s.colors, NUM_COLORS as int),
                };
                lemma_none_taken_given_out(fresh.colors, NUM_COLORS as int);
                assert forall|i: int| 0 <= i < NUM_COLORS implies holders(
                    given_out(fresh.table, fresh.colors, NUM_COLORS as int),
                    front,
                    #[trigger] available_color(i),
                ) == rounds + 1 + one_if_taken(fresh.table, i) by {
                    assert(one_if_taken(s.table, i) == 1);
                }
                assert(position % (NUM_COLORS as int) == position);
                lemma_one_more_balanced(fresh, front, rounds + 1, last, position);
                rounds + 1
            },
        }
    }
}

/// The colours are spread evenly: of any two colours for other users, one is held by at most one
/// user more than the other.
pub proof fn law_colors_are_balanced(own: Seq<char>, wishes: Seq<WishView>, a: int, b: int)
    requires
        forall|i: int| 0 <= i < wishes.len() ==> (#[trigger] wishes[i]).position < NUM_COLORS,
        forall|i: int, j: int|
            0 <= i < j < wishes.len() ==> (#[trigger] wishes[i]).id != (#[trigger] wishes[j]).id,
        0 <= a < NUM_COLORS,
        0 <= b < NUM_COLORS,
    ensures
        holders(user_colors(own, wishes), wishes, available_color(a)) <= holders(
            user_colors(own, wishes),
            wishes,
            available_color(b),
        ) + 1,
{
    let rounds = lemma_balanced(own, wishes);
}

proof fn lemma_probe(table: Table, position: int, offset: int) -> (d: int)
    requires
        0 <= offset <= NUM_COLORS,
        free_slot(table, position, offset) is Some,
    ensures
        offset <= d < NUM_COLORS,
        free_slot(table, position, offset) == Some(slot_at(position, d)),
        table[slot_at(position, d)] is None,
        forall|e: int| offset <= e < d ==> table[#[trigger] slot_at(position, e)] is Some,
    decreases NUM_COLORS - offset,
{
    if table[slot_at(position, offset)] is None {
        offset
    } else {
        lemma_probe(table, position, offset + 1)
    }
}

proof fn lemma_color_of_place(
    table: Table,
    colors: Map<Seq<char>, Color>,
    wishes: Seq<WishView>,
    i: int,
)
    requires
        all_placed(table, wishes),
        0 <= i < NUM_COLORS,
        table[i] is Some,
    ensures
        given_out(table, colors, NUM_COLORS as int)[table[i]->0] == available_color(i),
{
    let x = table[i]->0;
    assert forall|k: int| i < k < NUM_COLORS implies #[trigger] table[k] != Some(x) by {
        if table[k] is Some {
            assert(table[i] != table[k]);
        }
    }
    lemma_given_out(table, colors, NUM_COLORS as int, i, x);
}

/// As long as there are no more other users than colours, one more user leaves the colours of the
/// others as they are, and gets the first colour that none of them has, from the one that it tries
/// first on, going round.
pub proof fn law_one_more_user_gets_the_next_free_color(
    own: Seq<char>,
    wishes: Seq<WishView>,
    last: WishView,
) -> (d: int)
    requires
        wishes.len() < NUM_COLORS,
        last.position < NUM_COLORS,
        forall|i: int| 0 <= i < wishes.len() ==> (#[trigger] wishes[i]).position < NUM_COLORS,
        forall|i: int, j: int|
            0 <= i < j < wishes.len() ==> (#[trigger] wishes[i]).id != (#[trigger] wishes[j]).id,
        forall|i: int| 0 <= i < wishes.len() ==> (#[trigger] wishes[i]).id != last.id,
    ensures
        0 <= d < NUM_COLORS,
        user_colors(own, wishes.push(last))[last.id] == available_color(
            (last.position + d) % (NUM_COLORS as int),
        ),
        forall|i: int|
            0 <= i < wishes.len() ==> user_colors(own, wishes.push(last))[(
            #[trigger] wishes[i]).id] == user_colors(own, wishes)[wishes[i].id]
                && user_colors(own, wishes)[wishes[i].id] != available_color(
                (last.position + d) % (NUM_COLORS as int),
            ),
        forall|e: int|
            0 <= e < d ==> exists|i: int|
                0 <= i < wishes.len() && user_colors(own, wishes)[(#[trigger] wishes[i]).id]
                    == available_color(#[trigger] slot_at(last.position as int, e)),
{
    let more = wishes.push(last);
    let before = all_seated(own, wishes);
    let after = all_seated(own, more);
    let position = last.position as int;
    assert(more.drop_last() =~= wishes);
    assert(more.last() == last);
    assert forall|i: int, j: int| 0 <= i < j < more.len() implies (#[trigger] more[i]).id != (
    #[trigger] more[j]).id by {
        if j < wishes.len() {
            assert(wishes[i].id != wishes[j].id);
        } else {
            assert(wishes[i].id != last.id);
        }
    }
    assert forall|i: int| 0 <= i < more.len() implies (#[trigger] more[i]).position < NUM_COLORS by {
        if i < wishes.len() {
            assert(wishes[i].position < NUM_COLORS);
        }
    }
    lemma_first_round(own, wishes);
    lemma_first_round(own, more);
    if free_slot(before.table, position, 0) is None {
        lemma_none_free(before.table, position);
    }
    let d = lemma_probe(before.table, position, 0);
    let slot = slot_at(position, d);
    assert(0 <= slot < NUM_COLORS);
    assert(after.table == before.table.update(slot, Some(last.id)));
    assert(after.colors == before.colors);
    lemma_color_of_place(after.table, after.colors, more, slot);
    assert forall|i: int| 0 <= i < wishes.len() implies user_colors(own, more)[(
    #[trigger] wishes[i]).id] == user_colors(own, wishes)[wishes[i].id] && user_colors(
        own,
        wishes,
    )[wishes[i].id] != available_color(slot) by {
        assert(has_place(before.table, wishes[i].id));
        let p = choose|p: int|
            0 <= p < NUM_COLORS && #[trigger] before.table[p] == Some(wishes[i].id);
        assert(p != slot);
        assert(after.table[p] == Some(wishes[i].id));
        lemma_color_of_place(before.table, before.colors, wishes, p);
        lemma_color_of_place(after.table, after.colors, more, p);
    }
    assert forall|e: int| 0 <= e < d implies exists|i: int|
        0 <= i < wishes.len() && user_colors(own, wishes)[(#[trigger] wishes[i]).id]
            == available_color(#[trigger] slot_at(position, e)) by {
        let p = slot_at(position, e);
        assert(0 <= p < NUM_COLORS);
        assert(before.table[p] is Some);
        lemma_color_of_place(before.table, before.colors, wishes, p);
        assert(is_wished(wishes, before.table[p]->0));
        let i = choose|i: int|
            0 <= i < wishes.len() && (#[trigger] wishes[i]).id == before.table[p]->0;
        assert(user_colors(own, wishes)[wishes[i].id] == available_color(p));
    }
    d
}

/// Every user of a room but the own one is in line for a colour, as often as in the list of users
/// and in its order. Each tries first the colour that the hash of the id leads to when it counts
/// round the colours, which is the same in every room.
pub proof fn law_everyone_else_is_in_line(
    own: Seq<char>,
    users: Seq<Seq<char>>,
    more: Seq<Seq<char>>,
    user: Seq<char>,
)
    ensures
        wishes_of(own, users + more) == wishes_of(own, users) + wishes_of(own, more),
        user != own ==> wishes_of(own, seq![user]).len() == 1 && wishes_of(own, seq![user])[0].id
            == user,
        user != own ==> exists|rounds: int|
            #![trigger rounds * NUM_COLORS]
            text_hash(user) as usize == rounds * NUM_COLORS + wishes_of(
                own,
                seq![user],
            )[0].position && wishes_of(own, seq![user])[0].position < NUM_COLORS,
        wishes_of(own, seq![own]).len() == 0,
        forall|other: Seq<char>|
            user != own && user != other ==> wishes_of(own, seq![user]) == #[trigger] wishes_of(
                other,
                seq![user],
            ),
{
    lemma_others_join(own, users, more);
    assert(wishes_of(own, users + more) =~= wishes_of(own, users) + wishes_of(own, more));
    reveal_with_fuel(others, 2);
    assert(seq![user].drop_last().len() == 0);
    assert(seq![own].drop_last().len() == 0);
    if user != own {
        assert(others(own, seq![user]) =~= seq![user]);
        let hash = text_hash(user) as usize as int;
        let rounds = hash / (NUM_COLORS as int);
        assert(hash == rounds * NUM_COLORS + hash % (NUM_COLORS as int)) by (nonlinear_arith)
            requires
                rounds == hash / (NUM_COLORS as int),
                NUM_COLORS == 6,
        ;
        assert forall|other: Seq<char>| user != other implies wishes_of(own, seq![user])
            == #[trigger] wishes_of(other, seq![user]) by {
            assert(others(other, seq![user]) =~= seq![user]);
        }
    }
}

proof fn lemma_others_join(own: Seq<char>, a: Seq<Seq<char>>, b: Seq<Seq<char>>)
    ensures
        others(own, a + b) == others(own, a) + others(own, b),
    decreases b.len(),
{
    if b.len() == 0 {
        assert(a + b =~= a);
        assert(others(own, a) + others(own, b) =~= others(own, a));
    } else {
        lemma_others_join(own, a, b.drop_last());
        assert((a + b).drop_last() =~= a + b.drop_last());
        assert((a + b).last() == b.last());
        assert(others(own, a + b) =~= others(own, a) + others(own, b));
    }
}

proof fn lemma_first_table(own: Seq<char>, wishes: Seq<WishView>)
    requires
        wishes.len() <= NUM_COLORS,
        forall|i: int| 0 <= i < wishes.len() ==> (#[trigger] wishes[i]).position < NUM_COLORS,
    ensures
        all_seated(own, wishes).table.len() == NUM_COLORS,
        taken(all_seated(own, wishes).table) == wishes.len(),
        all_seated(own, wishes).colors == Map::<Seq<char>, Color>::empty().insert(
            own,
            Color::White,
        ),
    decreases wishes.len(),
{
    if wishes.len() > 0 {
        let front = wishes.drop_last();
        let last = wishes[wishes.len() - 1];
        assert forall|i: int| 0 <= i < front.len() implies (#[trigger] front[i]).position
            < NUM_COLORS by {
            assert(front[i] == wishes[i]);
        }
        lemma_first_table(own, front);
        lemma_one_more_taken(all_seated(own, front), last);
    }
}

proof fn lemma_one_more_taken(s: ColorState, last: WishView)
    requires
        s.table.len() == NUM_COLORS,
        last.position < NUM_COLORS,
    ensures
        taken(s.table) < NUM_COLORS ==> ({
            let after = seated(s, last.id, last.position as int);
            &&& after.table.len() == NUM_COLORS
            &&& taken(after.table) == taken(s.table) + 1
            &&& after.colors == s.colors
            &&& free_slot(s.table, last.position as int, 0) is Some
        }),
        taken(s.table) == NUM_COLORS ==> free_slot(s.table, last.position as int, 0) is None,
{
    let position = last.position as int;
    lemma_free_slot(s.table, position, 0);
    match free_slot(s.table, position, 0) {
        Some(i) => {
            lemma_taken_update(s.table, i, last.id);
            assert(one_if_taken(s.table, i) == 0);
        },
        None => lemma_none_free(s.table, position),
    }
}

proof fn lemma_new_round(own: Seq<char>, earlier: Seq<WishView>, current: Seq<WishView>)
    requires
        earlier.len() > 0,
        earlier.len() % (NUM_COLORS as nat) == 0,
        1 <= current.len() <= NUM_COLORS,
        forall|i: int| 0 <= i < earlier.len() ==> (#[trigger] earlier[i]).position < NUM_COLORS,
        forall|i: int| 0 <= i < current.len() ==> (#[trigger] current[i]).position < NUM_COLORS,
    ensures
        all_seated(own, earlier + current).table == all_seated(own, current).table,
        all_seated(own, earlier + current).colors == user_colors(own, earlier),
        taken(all_seated(own, earlier + current).table) == current.len(),
        all_seated(own, earlier + current).table.len() == NUM_COLORS,
    decreases earlier.len(), current.len(),
{
    let all = earlier + current;
    let front = current.drop_last();
    let last = current[current.len() - 1];
    assert(all.drop_last() =~= earlier + front);
    assert(all.last() == last);
    assert(current.last() == last);
    lemma_first_table(own, current);
    assert forall|i: int| 0 <= i < front.len() implies (#[trigger] front[i]).position
        < NUM_COLORS by {
        assert(front[i] == current[i]);
    }
    lemma_first_table(own, front);
    lemma_one_more_taken(all_seated(own, front), last);
    if front.len() > 0 {
        lemma_new_round(own, earlier, front);
        lemma_one_more_taken(all_seated(own, earlier + front), last);
    } else {
        assert(earlier + front =~= earlier);
        let n = earlier.len() as int - NUM_COLORS as int;
        let before = earlier.take(n);
        let round = earlier.skip(n);
        assert(before + round =~= earlier);
        assert forall|i: int| 0 <= i < before.len() implies (#[trigger] before[i]).position
            < NUM_COLORS by {
            assert(before[i] == earlier[i]);
        }
        assert forall|i: int| 0 <= i < round.len() implies (#[trigger] round[i]).position
            < NUM_COLORS by {
            assert(round[i] == earlier[n + i]);
        }
        if n > 0 {
            lemma_new_round(own, before, round);
        } else {
            assert(round =~= earlier);
            lemma_first_table(own, round);
        }
        lemma_one_more_taken(all_seated(own, earlier), last);
        let position = last.position as int;
        let empty = all_seated(own, front).table;
        assert(front.len() == 0);
        assert(empty == empty_table());
        assert(slot_at(position, 0) == position);
        assert(free_slot(empty, position, 0) == Some(position));
        assert(position % (NUM_COLORS as int) == position);
    }
}

/// Once every colour is taken as often as every other one, the colours are given out anew: the users
/// that come then get the colours that they would get by themselves, and those of the users before
/// stay.
pub proof fn law_rounds_are_independent(
    own: Seq<char>,
    earlier: Seq<WishView>,
    current: Seq<WishView>,
    a: int,
    b: int,
)
    requires
        earlier.len() > 0,
        earlier.len() % (NUM_COLORS as nat) == 0,
        current.len() <= NUM_COLORS,
        forall|i: int| 0 <= i < earlier.len() ==> (#[trigger] earlier[i]).position < NUM_COLORS,
        forall|i: int| 0 <= i < current.len() ==> (#[trigger] current[i]).position < NUM_COLORS,
        forall|i: int, j: int|
            0 <= i < j < current.len() ==> (#[trigger] current[i]).id != (#[trigger] current[j]).id,
        forall|i: int, j: int|
            0 <= i < earlier.len() && 0 <= j < current.len() ==> (#[trigger] earlier[i]).id != (
            #[trigger] current[j]).id,
        0 <= a < earlier.len(),
        0 <= b < current.len(),
    ensures
        user_colors(own, earlier + current)[earlier[a].id] == user_colors(
            own,
            earlier,
        )[earlier[a].id],
        user_colors(own, earlier + current)[current[b].id] == user_colors(
            own,
            current,
        )[current[b].id],
{
    lemma_new_round(own, earlier, current);
    lemma_first_round(own, current);
    let s = all_seated(own, earlier + current);
    let t = all_seated(own, current);
    assert(has_place(t.table, current[b].id));
    let p = choose|p: int| 0 <= p < NUM_COLORS && #[trigger] t.table[p] == Some(current[b].id);
    lemma_color_of_place(s.table, s.colors, current, p);
    lemma_color_of_place(t.table, t.colors, current, p);
    assert forall|i: int| 0 <= i < NUM_COLORS implies #[trigger] s.table[i] != Some(
        earlier[a].id,
    ) by {
        if s.table[i] is Some {
            assert(is_wished(current, s.table[i]->0));
        }
    }
    lemma_given_out_len(s.table, s.colors, NUM_COLORS as int, earlier[a].id);
}

} // verus!
