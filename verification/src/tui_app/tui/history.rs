//! The rooms that were selected, and the one that is.

use vstd::prelude::*;

use crate::text::same;

verus! {

/// The rooms that were selected, ordered from the least to the most recent selection, and the place
/// of the current one. The place behind the last means that none is.
#[verifier::ext_equal]
pub struct HistoryView {
    pub selections: Seq<Seq<char>>,
    pub current: int,
}

impl HistoryView {
    /// The current room.
    pub open spec fn current_room(self) -> Option<Seq<char>> {
        if 0 <= self.current < self.selections.len() {
            Some(self.selections[self.current])
        } else {
            None
        }
    }

    /// No room occurs twice.
    pub open spec fn valid(self) -> bool {
        self.selections.no_duplicates() && 0 <= self.current <= self.selections.len()
    }

    /// The history after no room is current any more.
    pub open spec fn deselected(self) -> HistoryView {
        HistoryView { current: self.selections.len() as int, ..self }
    }

    /// The history after a room was selected: it moves to the end.
    pub open spec fn selected(self, id: Seq<char>) -> HistoryView {
        let rest = without(self.selections, id);
        HistoryView { selections: rest.push(id), current: rest.len() as int }
    }

    /// The history after going back to the room before, if there is one.
    pub open spec fn backwards(self) -> Option<HistoryView> {
        if self.current > 0 {
            Some(HistoryView { current: self.current - 1, ..self })
        } else {
            None
        }
    }

    /// The history after going forward to the room behind, if there is one.
    pub open spec fn forwards(self) -> Option<HistoryView> {
        if self.current + 1 < self.selections.len() {
            Some(HistoryView { current: self.current + 1, ..self })
        } else {
            None
        }
    }
}

/// The sequence without an item.
pub open spec fn without(s: Seq<Seq<char>>, id: Seq<char>) -> Seq<Seq<char>>
    decreases s.len(),
{
    if s.len() == 0 {
        s
    } else if s.last() == id {
        s.drop_last()
    } else {
        without(s.drop_last(), id).push(s.last())
    }
}

/// The sequence without an item lacks nothing but that item, and keeps the order.
proof fn lemma_without(s: Seq<Seq<char>>, id: Seq<char>)
    requires
        s.no_duplicates(),
    ensures
        without(s, id).no_duplicates(),
        !without(s, id).contains(id),
        forall|k: Seq<char>| k != id ==> #[trigger] without(s, id).contains(k) == s.contains(k),
    decreases s.len(),
{
    if s.len() > 0 {
        let front = s.drop_last();
        assert(s.last() == s[s.len() - 1]);
        assert(front.no_duplicates()) by {
            assert forall|i: int, j: int| 0 <= i < front.len() && 0 <= j < front.len() && i != j implies front[i] != front[j] by {
                assert(s[i] != s[j]);
            }
        }
        assert(!front.contains(s.last())) by {
            if front.contains(s.last()) {
                let i = choose|i: int| 0 <= i < front.len() && front[i] == s.last();
                assert(s[i] != s[s.len() - 1]);
            }
        }
        assert forall|k: Seq<char>| s.contains(k) == (front.contains(k) || k == s.last()) by {
            if front.contains(k) {
                let i = choose|i: int| 0 <= i < front.len() && front[i] == k;
                assert(s[i] == k);
            }
            if s.contains(k) && k != s.last() {
                let i = choose|i: int| 0 <= i < s.len() && s[i] == k;
                assert(front[i] == k);
            }
        }
        if s.last() != id {
            lemma_without(front, id);
            let w = without(front, id);
            assert(w.contains(s.last()) == front.contains(s.last()));
            assert forall|k: Seq<char>| w.push(s.last()).contains(k) == (w.contains(k) || k
                == s.last()) by {
                if w.contains(k) {
                    let i = choose|i: int| 0 <= i < w.len() && w[i] == k;
                    assert(w.push(s.last())[i] == k);
                }
                if k == s.last() {
                    assert(w.push(s.last())[w.len() as int] == k);
                }
            }
        }
        assert forall|k: Seq<char>| k != id implies #[trigger] without(s, id).contains(k)
            == s.contains(k) by {
            assert(s.contains(k) == (front.contains(k) || k == s.last()));
            if s.last() != id {
                assert(without(front, id).contains(k) == front.contains(k));
                assert(without(front, id).push(s.last()).contains(k) == (without(
                    front,
                    id,
                ).contains(k) || k == s.last()));
            }
        }
    }
}

/// Where the place of an item is known, leaving the item out is taking that place away.
proof fn lemma_without_at(s: Seq<Seq<char>>, id: Seq<char>, i: int)
    requires
        0 <= i < s.len(),
        s[i] == id,
        s.no_duplicates(),
    ensures
        without(s, id) == s.remove(i),
    decreases s.len(),
{
    if i == s.len() - 1 {
        assert(s.remove(i) =~= s.drop_last());
    } else {
        let front = s.drop_last();
        assert(s[s.len() - 1] != s[i]);
        assert(front.no_duplicates()) by {
            assert forall|a: int, b: int| 0 <= a < front.len() && 0 <= b < front.len() && a != b implies front[a] != front[b] by {
                assert(s[a] != s[b]);
            }
        }
        lemma_without_at(front, id, i);
        assert(front.remove(i).push(s.last()) =~= s.remove(i));
    }
}

proof fn lemma_without_absent(s: Seq<Seq<char>>, id: Seq<char>)
    requires
        !s.contains(id),
    ensures
        without(s, id) == s,
    decreases s.len(),
{
    if s.len() > 0 {
        let front = s.drop_last();
        assert(s[s.len() - 1] != id);
        assert(!front.contains(id)) by {
            if front.contains(id) {
                let i = choose|i: int| 0 <= i < front.len() && front[i] == id;
                assert(s[i] == id);
            }
        }
        lemma_without_absent(front, id);
        assert(front.push(s.last()) =~= s);
    }
}

/// A room that is selected becomes the current one, and the history stays free of repetitions.
pub proof fn law_selected_is_current(h: HistoryView, id: Seq<char>)
    requires
        h.valid(),
    ensures
        h.selected(id).valid(),
        h.selected(id).current_room() == Some(id),
        h.selected(id).selections.last() == id,
        forall|k: Seq<char>|
            h.selected(id).selections.contains(k) <==> k == id || #[trigger] h.selections.contains(
                k,
            ),
        h.deselected().valid(),
        h.deselected().current_room() is None,
{
    lemma_without(h.selections, id);
    let rest = without(h.selections, id);
    assert forall|k: Seq<char>|
        h.selected(id).selections.contains(k) <==> k == id || #[trigger] h.selections.contains(k) by {
        if k == id {
            assert(rest.push(id)[rest.len() as int] == id);
        } else {
            if rest.contains(k) {
                let i = choose|i: int| 0 <= i < rest.len() && rest[i] == k;
                assert(rest.push(id)[i] == k);
            }
            if rest.push(id).contains(k) {
                let i = choose|i: int| 0 <= i < rest.push(id).len() && rest.push(id)[i] == k;
                assert(rest[i] == k);
            }
            assert(rest.contains(k) == h.selections.contains(k));
        }
    }
}

/// Going back and going forward undo each other, as long as a room is current at the start.
pub proof fn law_history_steps_undo_each_other(h: HistoryView)
    requires
        h.valid(),
        h.current_room() is Some,
    ensures
        h.backwards() matches Some(b) ==> b.valid() && b.forwards() == Some(h),
        h.forwards() matches Some(f) ==> f.valid() && f.backwards() == Some(h),
{
}

/// The rooms that were selected, ordered from the least to the most recent selection.
pub struct RoomSelectionHistory {
    selections: Vec<String>,
    current: usize,
}

impl View for RoomSelectionHistory {
    type V = HistoryView;

    closed spec fn view(&self) -> HistoryView {
        HistoryView {
            selections: Seq::new(self.selections@.len(), |i: int| self.selections@[i]@),
            current: self.current as int,
        }
    }
}

impl Default for RoomSelectionHistory {
    fn default() -> (res: Self)
        ensures
            res@ == (HistoryView { selections: Seq::empty(), current: 0 }),
    {
        let res = RoomSelectionHistory { selections: Vec::new(), current: 0 };
        proof {
            assert(res@.selections =~= Seq::<Seq<char>>::empty());
        }
        res
    }
}

impl RoomSelectionHistory {
    /// The current room.
    pub fn current(&self) -> (res: Option<&str>)
        ensures
            match res {
                Some(id) => self@.current_room() == Some(id@),
                None => self@.current_room() is None,
            },
    {
        if self.current < self.selections.len() {
            Some(self.selections[self.current].as_str())
        } else {
            None
        }
    }

    /// Makes no room the current one.
    pub fn deselect(&mut self)
        ensures
            final(self)@ == old(self)@.deselected(),
    {
        self.current = self.selections.len();
    }

    /// Makes a room the current one.
    pub fn select(&mut self, id: &str)
        requires
            old(self)@.valid(),
        ensures
            final(self)@ == old(self)@.selected(id@),
            final(self)@.valid(),
    {
        let ghost before = self@;
        proof {
            law_selected_is_current(before, id@);
        }
        let mut i: usize = 0;
        while i < self.selections.len() && !same(self.selections[i].as_str(), id)
            invariant
                i <= self.selections@.len(),
                self@ == before,
                forall|j: int| 0 <= j < i ==> before.selections[j] != id@,
            decreases self.selections@.len() - i,
        {
            i = i + 1;
        }
        let new_newest = if i < self.selections.len() {
            proof {
                lemma_without_at(before.selections, id@, i as int);
            }
            self.selections.remove(i)
        } else {
            proof {
                lemma_without_absent(before.selections, id@);
            }
            id.to_owned()
        };
        proof {
            assert(self@.selections =~= without(before.selections, id@));
        }
        self.selections.push(new_newest);
        self.current = self.selections.len() - 1;
        proof {
            assert(self@ =~= before.selected(id@));
        }
    }

    /// Goes back to the room that was selected before.
    pub fn scroll_backwards(&mut self) -> (res: Result<(), ()>)
        requires
            old(self)@.valid(),
        ensures
            final(self)@.valid(),
            match old(self)@.backwards() {
                Some(h) => res is Ok && final(self)@ == h,
                None => res is Err && final(self)@ == old(self)@,
            },
    {
        if self.current > 0 {
            self.current = self.current - 1;
            Ok(())
        } else {
            Err(())
        }
    }

    /// Goes forward to the room that was selected after.
    pub fn scroll_forwards(&mut self) -> (res: Result<(), ()>)
        requires
            old(self)@.valid(),
        ensures
            final(self)@.valid(),
            match old(self)@.forwards() {
                Some(h) => res is Ok && final(self)@ == h,
                None => res is Err && final(self)@ == old(self)@,
            },
    {
        let len: usize = self.selections.len();
        if self.current < len && self.current + 1 < len {
            self.current = self.current + 1;
            Ok(())
        } else {
            Err(())
        }
    }
}

/// A room that is selected moves behind all others, which keep their order, whether it was
/// selected before or not.
pub proof fn law_selected_moves_to_the_end(
    h: HistoryView,
    a: Seq<Seq<char>>,
    id: Seq<char>,
    b: Seq<Seq<char>>,
)
    requires
        h.valid(),
        h.selections == a + seq![id] + b,
    ensures
        h.selected(id).selections == a + b + seq![id],
        h.selected(id).current == a.len() + b.len(),
        forall|other: Seq<char>|
            !h.selections.contains(other) ==> (#[trigger] h.selected(other)).selections
                == h.selections + seq![other],
{
    let s = h.selections;
    assert(s[a.len() as int] == id);
    lemma_without_at(s, id, a.len() as int);
    assert(s.remove(a.len() as int) =~= a + b);
    assert((a + b).push(id) =~= a + b + seq![id]);
    assert forall|other: Seq<char>| !s.contains(other) implies (
    #[trigger] h.selected(other)).selections == s + seq![other] by {
        lemma_without_absent(s, other);
        assert(s.push(other) =~= s + seq![other]);
    }
}

/// Going back leads to the room that was selected before the current one, or to the last one where
/// none is current, and going forward to the one selected after it. At the ends there is nowhere to
/// go.
pub proof fn law_history_is_gone_through_in_order(h: HistoryView)
    requires
        h.valid(),
    ensures
        h.backwards() is None <==> h.current == 0,
        h.backwards() matches Some(b) ==> b.selections == h.selections && b.current_room() == Some(
            h.selections[h.current - 1],
        ),
        h.forwards() is None <==> h.current + 1 >= h.selections.len(),
        h.forwards() matches Some(f) ==> f.selections == h.selections && f.current_room() == Some(
            h.selections[h.current + 1],
        ),
        h.selections.len() > 0 ==> (h.deselected().backwards() matches Some(b) && b.current_room()
            == Some(h.selections.last())),
{
}

} // verus!
