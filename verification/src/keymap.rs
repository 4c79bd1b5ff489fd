//! Bindings of key sequences to actions.

use sequence_trie::SequenceTrie;
use vstd::prelude::*;

use crate::key::{keys_text, Key, Keys};
use crate::text::joined;
use crate::tui_app::tui::actions::Action;
use crate::tui_app::tui::{Mode, ModeView};

verus! {

/// The trie of the `sequence_trie` crate, over numbers that stand for keys.
#[verifier::external_body]
pub struct KeyTrie {
    trie: SequenceTrie<u32, u64>,
}

/// A node of the trie of the `sequence_trie` crate. A node is the trie of what follows behind the
/// fragments that lead to it.
#[verifier::external_body]
pub struct KeyTrieNode<'a> {
    node: &'a SequenceTrie<u32, u64>,
}

/// The values of a trie by their sequences of fragments.
pub uninterp spec fn trie_values(trie: KeyTrie) -> Map<Seq<u32>, u64>;

/// The values below a node of a trie by the fragments that follow behind the node.
pub uninterp spec fn node_values(node: KeyTrieNode<'_>) -> Map<Seq<u32>, u64>;

/// The values whose sequences start with `prefix`, by what follows.
pub open spec fn values_behind(values: Map<Seq<u32>, u64>, prefix: Seq<u32>) -> Map<
    Seq<u32>,
    u64,
> {
    Map::new(|k: Seq<u32>| values.contains_key(prefix + k), |k: Seq<u32>| values[prefix + k])
}

/// Whether a value has a sequence that starts with `prefix`.
pub open spec fn has_values_behind(values: Map<Seq<u32>, u64>, prefix: Seq<u32>) -> bool {
    exists|k: Seq<u32>| values.contains_key(#[trigger] (prefix + k))
}

impl KeyTrie {
    /// Calls `SequenceTrie::new`, which makes a trie without values.
    #[verifier::external_body]
    fn new() -> (res: KeyTrie)
        ensures
            trie_values(res).dom() == Set::<Seq<u32>>::empty(),
    {
        KeyTrie { trie: SequenceTrie::new() }
    }

    /// Calls `SequenceTrie::get`, which finds the value of a sequence.
    #[verifier::external_body]
    fn get(&self, key: &Vec<u32>) -> (res: Option<u64>)
        ensures
            match res {
                Some(v) => trie_values(*self).contains_key(key@) && trie_values(*self)[key@] == v,
                None => !trie_values(*self).contains_key(key@),
            },
    {
        self.trie.get(key.iter()).copied()
    }

    /// Calls `SequenceTrie::get_prefix_nodes`. It follows the fragments of the key from the root
    /// as long as there are nodes, and hands out the root and the nodes on the way. As the crate
    /// keeps no node but the root without a value at or below it, a node exists exactly where a
    /// value has a sequence that starts with the fragments up to it.
    #[verifier::external_body]
    fn get_prefix_nodes(&self, key: &Vec<u32>) -> (res: Vec<KeyTrieNode<'_>>)
        ensures
            1 <= res@.len() <= key@.len() + 1,
            forall|i: int|
                0 <= i < res@.len() ==> node_values(#[trigger] res@[i]) == values_behind(
                    trie_values(*self),
                    key@.take(i),
                ),
            forall|i: int|
                0 < i < res@.len() ==> has_values_behind(
                    trie_values(*self),
                    #[trigger] key@.take(i),
                ),
            res@.len() <= key@.len() ==> !has_values_behind(
                trie_values(*self),
                key@.take(res@.len() as int),
            ),
    {
        self.trie.get_prefix_nodes(key.iter()).into_iter().map(|node| KeyTrieNode { node }).collect()
    }

    /// Calls `SequenceTrie::insert_owned`, which gives a sequence a value and returns the one that
    /// it had before.
    #[verifier::external_body]
    fn insert_owned(&mut self, key: Vec<u32>, value: u64) -> (res: Option<u64>)
        ensures
            trie_values(*final(self)) == trie_values(*old(self)).insert(key@, value),
            match res {
                Some(v) => trie_values(*old(self)).contains_key(key@) && trie_values(
                    *old(self),
                )[key@] == v,
                None => !trie_values(*old(self)).contains_key(key@),
            },
    {
        self.trie.insert_owned(key, value)
    }

    /// Calls `SequenceTrie::remove`, which takes the value of a sequence away.
    #[verifier::external_body]
    fn remove(&mut self, key: &Vec<u32>)
        ensures
            trie_values(*final(self)) == trie_values(*old(self)).remove(key@),
    {
        self.trie.remove(key.iter())
    }
}

impl<'a> KeyTrieNode<'a> {
    /// Calls `SequenceTrie::value`, which finds the value at the node itself.
    #[verifier::external_body]
    fn value(&self) -> (res: Option<u64>)
        ensures
            match res {
                Some(v) => node_values(*self).contains_key(seq![]) && node_values(*self)[seq![]]
                    == v,
                None => !node_values(*self).contains_key(seq![]),
            },
    {
        self.node.value().copied()
    }

    /// Calls `SequenceTrie::keys` and takes the first sequence. It is one of those that have a
    /// value; which one is left open.
    #[verifier::external_body]
    fn first_key(&self) -> (res: Option<Vec<u32>>)
        ensures
            match res {
                Some(k) => node_values(*self).contains_key(k@),
                None => forall|k: Seq<u32>| !node_values(*self).contains_key(k),
            },
    {
        self.node.keys().next().map(|k| k.into_iter().copied().collect())
    }
}

/// `char::from_u32` finds the character with a number, where there is one.
pub assume_specification[ char::from_u32 ](i: u32) -> (res: Option<char>)
    ensures
        match res {
            Some(c) => c as u32 == i,
            None => i > 0x10ffff || (0xd800 <= i && i <= 0xdfff),
        },
;

/// The number that stands for a key in the trie.
pub open spec fn code(k: Key) -> u32 {
    match k {
        Key::Char(c) => c as u32,
        Key::Alt(c) => (0x20_0000 + c as u32) as u32,
        Key::Ctrl(c) => (0x40_0000 + c as u32) as u32,
        Key::F(n) => (0x60_0000 + n) as u32,
        Key::Backspace => 0x70_0000,
        Key::Left => 0x70_0001,
        Key::Right => 0x70_0002,
        Key::Up => 0x70_0003,
        Key::Down => 0x70_0004,
        Key::Home => 0x70_0005,
        Key::End => 0x70_0006,
        Key::PageUp => 0x70_0007,
        Key::PageDown => 0x70_0008,
        Key::BackTab => 0x70_0009,
        Key::Delete => 0x70_000a,
        Key::Insert => 0x70_000b,
        Key::Null => 0x70_000c,
        Key::Esc => 0x70_000d,
        Key::Unknown => 0x70_000e,
    }
}

/// The numbers that stand for the keys of a sequence.
pub open spec fn codes(keys: Seq<Key>) -> Seq<u32> {
    Seq::new(keys.len(), |i: int| code(keys[i]))
}

proof fn lemma_code_injective(a: Key, b: Key)
    requires
        code(a) == code(b),
    ensures
        a == b,
{
}

proof fn lemma_codes_injective(a: Seq<Key>, b: Seq<Key>)
    requires
        codes(a) == codes(b),
    ensures
        a == b,
{
    assert(a.len() == codes(a).len());
    assert(b.len() == codes(b).len());
    assert forall|i: int| 0 <= i < a.len() implies a[i] == b[i] by {
        assert(codes(a)[i] == code(a[i]));
        assert(codes(b)[i] == code(b[i]));
        lemma_code_injective(a[i], b[i]);
    }
    assert(a =~= b);
}

/// The number that stands for a key.
fn code_of(k: Key) -> (res: u32)
    ensures
        res == code(k),
{
    match k {
        Key::Char(c) => c as u32,
        Key::Alt(c) => 0x20_0000 + c as u32,
        Key::Ctrl(c) => 0x40_0000 + c as u32,
        Key::F(n) => 0x60_0000 + n as u32,
        Key::Backspace => 0x70_0000,
        Key::Left => 0x70_0001,
        Key::Right => 0x70_0002,
        Key::Up => 0x70_0003,
        Key::Down => 0x70_0004,
        Key::Home => 0x70_0005,
        Key::End => 0x70_0006,
        Key::PageUp => 0x70_0007,
        Key::PageDown => 0x70_0008,
        Key::BackTab => 0x70_0009,
        Key::Delete => 0x70_000a,
        Key::Insert => 0x70_000b,
        Key::Null => 0x70_000c,
        Key::Esc => 0x70_000d,
        Key::Unknown => 0x70_000e,
    }
}

/// The key that a number stands for.
fn key_of(n: u32) -> (res: Key)
    requires
        exists|k: Key| code(k) == n,
    ensures
        code(res) == n,
{
    if n < 0x20_0000 {
        match char::from_u32(n) {
            Some(c) => Key::Char(c),
            None => Key::Unknown,
        }
    } else if n < 0x40_0000 {
        match char::from_u32(n - 0x20_0000) {
            Some(c) => Key::Alt(c),
            None => Key::Unknown,
        }
    } else if n < 0x60_0000 {
        match char::from_u32(n - 0x40_0000) {
            Some(c) => Key::Ctrl(c),
            None => Key::Unknown,
        }
    } else if n < 0x70_0000 {
        Key::F((n - 0x60_0000) as u8)
    } else {
        match n {
            0x70_0000 => Key::Backspace,
            0x70_0001 => Key::Left,
            0x70_0002 => Key::Right,
            0x70_0003 => Key::Up,
            0x70_0004 => Key::Down,
            0x70_0005 => Key::Home,
            0x70_0006 => Key::End,
            0x70_0007 => Key::PageUp,
            0x70_0008 => Key::PageDown,
            0x70_0009 => Key::BackTab,
            0x70_000a => Key::Delete,
            0x70_000b => Key::Insert,
            0x70_000c => Key::Null,
            0x70_000d => Key::Esc,
            _ => Key::Unknown,
        }
    }
}

/// The numbers that stand for the keys of a sequence.
fn codes_of(keys: &Vec<Key>) -> (res: Vec<u32>)
    ensures
        res@ == codes(keys@),
{
    let mut out: Vec<u32> = Vec::new();
    let mut i: usize = 0;
    while i < keys.len()
        invariant
            i <= keys@.len(),
            out@ == codes(keys@).take(i as int),
        decreases keys@.len() - i,
    {
        out.push(code_of(keys[i]));
        i = i + 1;
    }
    proof {
        assert(codes(keys@).take(i as int) =~= codes(keys@));
    }
    out
}

/// What a lookup of a key sequence leads to.
pub enum KeyMapFunctionResult {
    /// The keys are the beginning of a binding, which is given.
    IsPrefix(Keys),
    /// The keys start with a binding, which is given.
    FoundPrefix(Keys),
    /// The keys are bound.
    Found(Action),
    /// The keys have nothing to do with any binding.
    NotFound,
}

/// What a lookup of a key sequence leads to.
pub enum FindView {
    IsPrefix(Seq<Key>),
    FoundPrefix(Seq<Key>),
    Found(Action),
    NotFound,
}

impl View for KeyMapFunctionResult {
    type V = FindView;

    open spec fn view(&self) -> FindView {
        match *self {
            KeyMapFunctionResult::IsPrefix(k) => FindView::IsPrefix(k@),
            KeyMapFunctionResult::FoundPrefix(k) => FindView::FoundPrefix(k@),
            KeyMapFunctionResult::Found(a) => FindView::Found(a),
            KeyMapFunctionResult::NotFound => FindView::NotFound,
        }
    }
}

/// Whether `a` is a proper beginning of `b`.
pub open spec fn begins(a: Seq<Key>, b: Seq<Key>) -> bool {
    a.len() < b.len() && b.take(a.len() as int) == a
}

/// No binding is the beginning of another.
pub open spec fn prefix_free(bindings: Map<Seq<Key>, Action>) -> bool {
    forall|a: Seq<Key>, b: Seq<Key>|
        #![trigger bindings.contains_key(a), bindings.contains_key(b)]
        bindings.contains_key(a) && bindings.contains_key(b) ==> !begins(a, b)
}

/// Whether a lookup of `keys` may lead to `res`. Only which one of several longer bindings is
/// given is left open.
pub open spec fn finds(bindings: Map<Seq<Key>, Action>, keys: Seq<Key>, res: FindView) -> bool {
    match res {
        FindView::Found(a) => bindings.contains_key(keys) && bindings[keys] == a,
        FindView::FoundPrefix(p) => bindings.contains_key(p) && begins(p, keys),
        FindView::IsPrefix(k) => bindings.contains_key(k) && begins(keys, k),
        FindView::NotFound => forall|k: Seq<Key>| #[trigger]
            bindings.contains_key(k) ==> k != keys && !begins(k, keys) && !begins(keys, k),
    }
}

/// The message for a binding that is in conflict with what a lookup of its keys found.
pub open spec fn conflict_text(keys: Seq<Key>, found: FindView) -> Seq<char> {
    match found {
        FindView::IsPrefix(k) => "Key binding '"@ + keys_text(keys)
            + "' is a prefix of the existing binding '"@ + keys_text(k) + "'"@,
        FindView::FoundPrefix(k) => "Existing key binding '"@ + keys_text(k)
            + "' is a prefix of the desired binding '"@ + keys_text(keys) + "'"@,
        FindView::Found(_) => "Key binding '"@ + keys_text(keys) + "' already exists"@,
        FindView::NotFound => Seq::empty(),
    }
}

/// A set of bindings.
pub struct KeyMap {
    trie: KeyTrie,
}

impl View for KeyMap {
    type V = Map<Seq<Key>, Action>;

    closed spec fn view(&self) -> Map<Seq<Key>, Action> {
        Map::new(
            |k: Seq<Key>| trie_values(self.trie).contains_key(codes(k)),
            |k: Seq<Key>| Action(trie_values(self.trie)[codes(k)]),
        )
    }
}

impl Default for KeyMap {
    fn default() -> (res: Self)
        ensures
            res.wf(),
            res@ == Map::<Seq<Key>, Action>::empty(),
    {
        let res = KeyMap { trie: KeyTrie::new() };
        proof {
            assert(res@ =~= Map::<Seq<Key>, Action>::empty());
            assert forall|c: Seq<u32>| !trie_values(res.trie).contains_key(c) by {
                assert(!trie_values(res.trie).dom().contains(c));
            }
        }
        res
    }
}

proof fn lemma_codes_take(keys: Seq<Key>, n: int)
    requires
        0 <= n <= keys.len(),
    ensures
        codes(keys).take(n) == codes(keys.take(n)),
{
    assert(codes(keys).take(n) =~= codes(keys.take(n)));
}

proof fn lemma_codes_concat(a: Seq<Key>, b: Seq<Key>)
    ensures
        codes(a + b) == codes(a) + codes(b),
{
    assert(codes(a + b) =~= codes(a) + codes(b));
}

/// Where a sequence of numbers that starts with the numbers of some keys stands for keys, the rest
/// of it does too.
proof fn lemma_rest_stands_for_keys(keys: Seq<Key>, rest: Seq<u32>, all: Seq<Key>)
    requires
        codes(all) == codes(keys) + rest,
    ensures
        rest == codes(all.skip(keys.len() as int)),
        all == keys + all.skip(keys.len() as int),
{
    let n = keys.len() as int;
    assert(all.len() == codes(all).len());
    assert(rest =~= codes(all.skip(n))) by {
        assert forall|i: int| 0 <= i < rest.len() implies rest[i] == codes(all.skip(n))[i] by {
            assert(codes(all)[n + i] == rest[i]);
        }
    }
    assert(codes(all.take(n)) =~= codes(keys)) by {
        assert forall|i: int| 0 <= i < n implies codes(all.take(n))[i] == codes(keys)[i] by {
            assert(codes(all)[i] == codes(keys)[i]);
        }
    }
    lemma_codes_injective(all.take(n), keys);
    assert(all =~= keys + all.skip(n));
}

impl KeyMap {
    /// The trie holds nothing but keys, and no binding is the beginning of another.
    pub closed spec fn wf(&self) -> bool {
        &&& forall|c: Seq<u32>| #[trigger]
            trie_values(self.trie).contains_key(c) ==> exists|k: Seq<Key>| codes(k) == c
        &&& prefix_free(self@)
    }

    proof fn lemma_values_behind(&self, keys: Seq<Key>)
        requires
            self.wf(),
        ensures
            has_values_behind(trie_values(self.trie), codes(keys)) == (exists|k: Seq<Key>|
                #![trigger self@.contains_key(k)]
                self@.contains_key(k) && (k == keys || begins(keys, k))),
    {
        let values = trie_values(self.trie);
        if has_values_behind(values, codes(keys)) {
            let rest = choose|r: Seq<u32>| values.contains_key(#[trigger] (codes(keys) + r));
            let all = choose|k: Seq<Key>| codes(k) == codes(keys) + rest;
            lemma_rest_stands_for_keys(keys, rest, all);
            assert(self@.contains_key(all));
            assert(all.take(keys.len() as int) =~= keys);
            if all.len() == keys.len() {
                assert(all =~= keys);
            }
        }
        if exists|k: Seq<Key>|
            #![trigger self@.contains_key(k)]
            self@.contains_key(k) && (k == keys || begins(keys, k)) {
            let k = choose|k: Seq<Key>|
                #![trigger self@.contains_key(k)]
                self@.contains_key(k) && (k == keys || begins(keys, k));
            let rest = k.skip(keys.len() as int);
            if k == keys {
                assert(keys.take(keys.len() as int) =~= keys);
            }
            assert(k =~= keys + rest);
            lemma_codes_concat(keys, rest);
            assert(values.contains_key(codes(keys) + codes(rest)));
        }
    }

    /// Looks a key sequence up. The empty sequence can only be looked up where there are
    /// bindings.
    pub fn find(&self, keys: &Keys) -> (res: KeyMapFunctionResult)
        requires
            self.wf(),
            keys@.len() > 0 || exists|k: Seq<Key>| self@.contains_key(k),
        ensures
            finds(self@, keys@, res@),
    {
        let c = codes_of(&keys.0);
        if let Some(f) = self.trie.get(&c) {
            return KeyMapFunctionResult::Found(Action(f));
        }
        let ghost values = trie_values(self.trie);
        let len: usize = keys.0.len();
        let prefix_nodes = self.trie.get_prefix_nodes(&c);
        let num_prefix_keys: usize = prefix_nodes.len() - 1;
        let longest_prefix = &prefix_nodes[num_prefix_keys];
        let ghost n = num_prefix_keys as int;
        proof {
            lemma_codes_take(keys@, n);
            assert(codes(keys@.take(n)) + seq![] =~= codes(keys@.take(n)));
            self.lemma_values_behind(keys@.take(n));
            assert(keys@.take(len as int) =~= keys@);
        }
        if longest_prefix.value().is_some() {
            let prefix = prefix_of(&keys.0, num_prefix_keys);
            return KeyMapFunctionResult::FoundPrefix(Keys(prefix));
        }
        if len == num_prefix_keys {
            proof {
                assert(c@ == codes(keys@));
                if len == 0 {
                    let k = choose|k: Seq<Key>| self@.contains_key(k);
                    assert(codes(keys@) + codes(k) =~= codes(k));
                    assert(values.contains_key(codes(keys@) + codes(k)));
                }
                assert(has_values_behind(values, codes(keys@)));
                let r = choose|r: Seq<u32>| values.contains_key(#[trigger] (codes(keys@) + r));
                assert(node_values(*longest_prefix).contains_key(r));
            }
            match longest_prefix.first_key() {
                Some(k) => {
                    let ghost all = choose|a: Seq<Key>| #[trigger] codes(a) == codes(keys@) + k@;
                    proof {
                        assert(values.contains_key(codes(keys@) + k@));
                        lemma_rest_stands_for_keys(keys@, k@, all);
                        assert(k@.len() > 0) by {
                            if k@.len() == 0 {
                                assert(codes(keys@) + k@ =~= codes(keys@));
                            }
                        }
                        assert(all.take(len as int) =~= keys@);
                    }
                    let conflict_keys = followed_by(&keys.0, &k, Ghost(all));
                    return KeyMapFunctionResult::IsPrefix(Keys(conflict_keys));
                },
                None => {
                    return vstd::pervasive::unreached();
                },
            }
        }
        proof {
            lemma_codes_take(keys@, n + 1);
            self.lemma_values_behind(keys@.take(n + 1));
            assert forall|k: Seq<Key>| #[trigger] self@.contains_key(k) implies k != keys@
                && !begins(k, keys@) && !begins(keys@, k) by {
                if begins(k, keys@) {
                    if k.len() < n {
                        // A longer binding lies behind the last node, and `k` begins it.
                        assert(has_values_behind(values, c@.take(n)));
                        let longer = choose|b: Seq<Key>|
                            #![trigger self@.contains_key(b)]
                            self@.contains_key(b) && (b == keys@.take(n) || begins(
                                keys@.take(n),
                                b,
                            ));
                        if longer == keys@.take(n) {
                            assert(longer.take(k.len() as int) =~= keys@.take(k.len() as int));
                        } else {
                            assert(longer.take(k.len() as int) =~= longer.take(n).take(
                                k.len() as int,
                            ));
                            assert(longer.take(k.len() as int) =~= keys@.take(k.len() as int));
                        }
                        assert(begins(k, longer));
                        assert(false);
                    } else if k.len() == n {
                        assert(k == keys@.take(n));
                        assert(node_values(*longest_prefix).contains_key(seq![]));
                    } else {
                        assert(k.take(n + 1) =~= keys@.take(n + 1));
                        if k.len() == n + 1 {
                            assert(k =~= k.take(n + 1));
                        }
                    }
                }
                if begins(keys@, k) {
                    assert(k.take(n + 1) =~= keys@.take(n + 1));
                }
            }
        }
        KeyMapFunctionResult::NotFound
    }

    /// Whether there are bindings.
    pub fn has_bindings(&self) -> (res: bool)
        requires
            self.wf(),
        ensures
            res == (exists|k: Seq<Key>| self@.contains_key(k)),
    {
        let root: Vec<u32> = Vec::new();
        let nodes = self.trie.get_prefix_nodes(&root);
        let ghost values = trie_values(self.trie);
        let ghost none = Seq::<Key>::empty();
        proof {
            assert(root@.take(0) =~= codes(none));
            self.lemma_values_behind(none);
            assert(node_values(nodes@[0]) == values_behind(values, codes(none)));
            if exists|k: Seq<Key>| self@.contains_key(k) {
                let k = choose|k: Seq<Key>| self@.contains_key(k);
                assert(k == none || begins(none, k)) by {
                    assert(k.take(0) =~= none);
                    if k.len() == 0 {
                        assert(k =~= none);
                    }
                }
                let r = choose|r: Seq<u32>| values.contains_key(#[trigger] (codes(none) + r));
                assert(node_values(nodes@[0]).contains_key(r));
            }
        }
        match nodes[0].first_key() {
            Some(k) => {
                proof {
                    assert(values.contains_key(codes(none) + k@));
                    assert(has_values_behind(values, codes(none)));
                }
                true
            },
            None => false,
        }
    }
}

/// The first keys of a sequence.
fn prefix_of(keys: &Vec<Key>, n: usize) -> (res: Vec<Key>)
    requires
        n <= keys@.len(),
    ensures
        res@ == keys@.take(n as int),
{
    let mut out: Vec<Key> = Vec::new();
    let mut i: usize = 0;
    while i < n
        invariant
            i <= n <= keys@.len(),
            out@ == keys@.take(i as int),
        decreases n - i,
    {
        out.push(keys[i]);
        i = i + 1;
    }
    out
}

/// The keys followed by those that the numbers stand for.
fn followed_by(keys: &Vec<Key>, rest: &Vec<u32>, all: Ghost<Seq<Key>>) -> (res: Vec<Key>)
    requires
        all@.len() == keys@.len() + rest@.len(),
        all@.take(keys@.len() as int) == keys@,
        rest@ == codes(all@.skip(keys@.len() as int)),
    ensures
        res@ == all@,
{
    let mut out = prefix_of(keys, keys.len());
    let ghost n = keys@.len() as int;
    proof {
        assert(keys@.take(n) =~= keys@);
    }
    let mut i: usize = 0;
    while i < rest.len()
        invariant
            i <= rest@.len(),
            n == keys@.len(),
            all@.len() == n + rest@.len(),
            rest@ == codes(all@.skip(n)),
            out@ == all@.take(n + i),
        decreases rest@.len() - i,
    {
        proof {
            assert(rest@[i as int] == code(all@[n + i]));
        }
        let k = key_of(rest[i]);
        proof {
            lemma_code_injective(k, all@[n + i]);
        }
        out.push(k);
        i = i + 1;
    }
    proof {
        assert(all@.take(n + i) =~= all@);
    }
    out
}

impl KeyMap {
    /// Binds keys to an action, unless that is in conflict with another binding. Before the first
    /// binding the keys cannot be empty.
    pub fn add_binding(&mut self, keys: Keys, f: Action) -> (res: Result<(), String>)
        requires
            old(self).wf(),
            keys@.len() > 0 || exists|k: Seq<Key>| old(self)@.contains_key(k),
        ensures
            final(self).wf(),
            match res {
                Ok(_) => finds(old(self)@, keys@, FindView::NotFound) && final(self)@ == old(self)@.insert(keys@, f),
                Err(m) => final(self)@ == old(self)@ && exists|found: FindView|
                    !(found is NotFound) && #[trigger] finds(old(self)@, keys@, found) && m@
                        == conflict_text(keys@, found),
            },
    {
        let found = self.find(&keys);
        let ghost view = found@;
        match found {
            KeyMapFunctionResult::IsPrefix(conflict) => {
                let mut m = joined("Key binding '", keys.to_string().as_str());
                m.append("' is a prefix of the existing binding '");
                m.append(conflict.to_string().as_str());
                m.append("'");
                proof {
                    assert(m@ =~= conflict_text(keys@, view));
                }
                Err(m)
            },
            KeyMapFunctionResult::FoundPrefix(conflict) => {
                let mut m = joined("Existing key binding '", conflict.to_string().as_str());
                m.append("' is a prefix of the desired binding '");
                m.append(keys.to_string().as_str());
                m.append("'");
                proof {
                    assert(m@ =~= conflict_text(keys@, view));
                }
                Err(m)
            },
            KeyMapFunctionResult::Found(_) => {
                let mut m = joined("Key binding '", keys.to_string().as_str());
                m.append("' already exists");
                proof {
                    assert(m@ =~= conflict_text(keys@, view));
                }
                Err(m)
            },
            KeyMapFunctionResult::NotFound => {
                let ghost before = self@;
                let _ = self.trie.insert_owned(codes_of(&keys.0), f.0);
                proof {
                    assert forall|k: Seq<Key>| #[trigger] codes(k) == codes(keys@) implies k == keys@ by {
                        lemma_codes_injective(k, keys@);
                    }
                    assert(self@ =~= before.insert(keys@, f));
                }
                Ok(())
            },
        }
    }

    /// Takes a binding away.
    pub fn remove(&mut self, keys: &Keys)
        requires
            old(self).wf(),
        ensures
            final(self).wf(),
            final(self)@ == old(self)@.remove(keys@),
    {
        self.trie.remove(&codes_of(&keys.0));
        proof {
            assert forall|k: Seq<Key>| #[trigger] codes(k) == codes(keys@) implies k == keys@ by {
                lemma_codes_injective(k, keys@);
            }
            assert(self@ =~= old(self)@.remove(keys@));
        }
    }
}

/// Whatever was bound and taken away, no binding is the beginning of another.
pub proof fn law_keymap_is_prefix_free(keymap: KeyMap)
    requires
        keymap.wf(),
    ensures
        prefix_free(keymap@),
{
}

/// A lookup has one outcome: which of the four, and for all but a longer binding also what is
/// given.
pub proof fn law_find_is_unique(
    bindings: Map<Seq<Key>, Action>,
    keys: Seq<Key>,
    a: FindView,
    b: FindView,
)
    requires
        prefix_free(bindings),
        finds(bindings, keys, a),
        finds(bindings, keys, b),
    ensures
        a == b || (a is IsPrefix && b is IsPrefix),
{
    if let FindView::FoundPrefix(p) = a {
        if let FindView::FoundPrefix(q) = b {
            if p.len() < q.len() {
                assert(q.take(p.len() as int) =~= keys.take(p.len() as int));
                assert(begins(p, q));
            } else if q.len() < p.len() {
                assert(p.take(q.len() as int) =~= keys.take(q.len() as int));
                assert(begins(q, p));
            } else {
                assert(p =~= q);
            }
        }
        if let FindView::IsPrefix(k) = b {
            assert(k.take(p.len() as int) =~= keys.take(p.len() as int));
            assert(begins(p, k));
        }
    }
    if let FindView::IsPrefix(k) = a {
        if let FindView::FoundPrefix(p) = b {
            assert(k.take(p.len() as int) =~= keys.take(p.len() as int));
            assert(begins(p, k));
        }
    }
}

/// What was bound is found, other bindings stay, and taking the binding away undoes it.
pub proof fn law_bind_and_unbind(bindings: Map<Seq<Key>, Action>, keys: Seq<Key>, f: Action)
    requires
        prefix_free(bindings),
        finds(bindings, keys, FindView::NotFound),
    ensures
        prefix_free(bindings.insert(keys, f)),
        finds(bindings.insert(keys, f), keys, FindView::Found(f)),
        forall|k: Seq<Key>| #[trigger]
            bindings.contains_key(k) ==> finds(
                bindings.insert(keys, f),
                k,
                FindView::Found(bindings[k]),
            ),
        bindings.insert(keys, f).remove(keys) == bindings,
{
    assert(!bindings.contains_key(keys));
    assert(bindings.insert(keys, f).remove(keys) =~= bindings);
}

/// The bindings of each mode.
pub struct KeyMaps(Vec<(Mode, KeyMap)>);

impl View for KeyMaps {
    type V = Map<ModeView, Map<Seq<Key>, Action>>;

    closed spec fn view(&self) -> Map<ModeView, Map<Seq<Key>, Action>> {
        Map::new(
            |m: ModeView| self.has(m),
            |m: ModeView| self.0@[self.place(m)].1@,
        )
    }
}

impl KeyMaps {
    spec fn has(&self, m: ModeView) -> bool {
        exists|i: int| 0 <= i < self.0@.len() && (#[trigger] self.0@[i]).0@ == m
    }

    spec fn place(&self, m: ModeView) -> int {
        choose|i: int| 0 <= i < self.0@.len() && (#[trigger] self.0@[i]).0@ == m
    }

    /// Each mode has one set of bindings, which is in order.
    pub closed spec fn wf(&self) -> bool {
        &&& forall|i: int, j: int|
            0 <= i < j < self.0@.len() ==> (#[trigger] self.0@[i]).0@ != (#[trigger] self.0@[j]).0@
        &&& forall|i: int| 0 <= i < self.0@.len() ==> (#[trigger] self.0@[i]).1.wf()
    }

    /// No bindings in any mode.
    pub fn new() -> (res: KeyMaps)
        ensures
            res.wf(),
            res@ == Map::<ModeView, Map<Seq<Key>, Action>>::empty(),
    {
        let res = KeyMaps(Vec::new());
        proof {
            assert(res@ =~= Map::<ModeView, Map<Seq<Key>, Action>>::empty());
        }
        res
    }

    /// Whether there are bindings in a mode.
    pub fn has_bindings(&self, mode: &Mode) -> (res: bool)
        requires
            self.wf(),
        ensures
            res == (exists|k: Seq<Key>| self.bindings(mode@).contains_key(k)),
    {
        match self.index_of(mode) {
            Some(i) => {
                proof {
                    assert(self.bindings(mode@) == self.0@[i as int].1@);
                }
                self.0[i].1.has_bindings()
            },
            None => {
                proof {
                    assert(self.bindings(mode@) == Map::<Seq<Key>, Action>::empty());
                }
                false
            },
        }
    }

    /// The place of a mode's bindings.
    fn index_of(&self, mode: &Mode) -> (res: Option<usize>)
        requires
            self.wf(),
        ensures
            match res {
                Some(i) => i < self.0@.len() && self.0@[i as int].0@ == mode@
                    && self@.contains_key(mode@) && self@[mode@] == self.0@[i as int].1@,
                None => !self@.contains_key(mode@),
            },
    {
        let mut i: usize = 0;
        while i < self.0.len()
            invariant
                i <= self.0@.len(),
                forall|j: int| 0 <= j < i ==> (#[trigger] self.0@[j]).0@ != mode@,
                self.wf(),
            decreases self.0@.len() - i,
        {
            if self.0[i].0.same_as(mode) {
                return Some(i);
            }
            i = i + 1;
        }
        None
    }

    /// The place of a mode's bindings, which are made where there are none yet.
    fn entry(&mut self, mode: &Mode) -> (res: usize)
        requires
            old(self).wf(),
        ensures
            final(self).wf(),
            res < final(self).0@.len(),
            final(self).0@[res as int].0@ == mode@,
            final(self)@ == (if old(self)@.contains_key(mode@) {
                old(self)@
            } else {
                old(self)@.insert(mode@, Map::empty())
            }),
            final(self)@[mode@] == final(self).0@[res as int].1@,
    {
        match self.index_of(mode) {
            Some(i) => i,
            None => {
                let i: usize = self.0.len();
                let ghost before = *self;
                self.0.push((mode.clone(), KeyMap::default()));
                proof {
                    assert forall|m: ModeView| self.has(m) == (before.has(m) || m == mode@) by {
                        if before.has(m) {
                            assert(self.0@[before.place(m)].0@ == m);
                        }
                        if m == mode@ {
                            assert(self.0@[i as int].0@ == m);
                        }
                        if self.has(m) && m != mode@ {
                            assert(before.0@[self.place(m)].0@ == m);
                        }
                    }
                    assert forall|m: ModeView| before.has(m) implies self@[m] == before@[m] by {
                        assert(self.0@[before.place(m)].0@ == m);
                        assert(self.place(m) == before.place(m));
                    }
                    assert(self.0@[i as int].0@ == mode@);
                    assert(self.place(mode@) == i);
                    assert(self@ =~= before@.insert(mode@, Map::empty()));
                }
                i
            },
        }
    }

    proof fn lemma_updated(self, after: KeyMaps, i: int)
        requires
            self.wf(),
            0 <= i < self.0@.len(),
            after.0@.len() == self.0@.len(),
            after.0@[i].0@ == self.0@[i].0@,
            forall|j: int| 0 <= j < self.0@.len() && j != i ==> after.0@[j] == self.0@[j],
            after.0@[i].1.wf(),
        ensures
            after.wf(),
            after@ == self@.insert(self.0@[i].0@, after.0@[i].1@),
    {
        assert forall|a: int, b: int| 0 <= a < b < after.0@.len() implies (#[trigger] after.0@[a]).0@
            != (#[trigger] after.0@[b]).0@ by {
            assert(self.0@[a].0@ != self.0@[b].0@);
        }
        assert forall|j: int| 0 <= j < after.0@.len() implies (#[trigger] after.0@[j]).1.wf() by {
            assert(self.0@[j].1.wf());
        }
        assert forall|m: ModeView| after.has(m) == self.has(m) by {
            if self.has(m) {
                assert(after.0@[self.place(m)].0@ == m);
            }
            if after.has(m) {
                assert(self.0@[after.place(m)].0@ == m);
            }
        }
        let mode = self.0@[i].0@;
        assert(self.0@[i].0@ == mode);
        assert(after.0@[i].0@ == mode);
        assert(after.place(mode) == i);
        assert forall|m: ModeView| self.has(m) && m != mode implies after@[m] == self@[m] by {
            assert(after.0@[self.place(m)].0@ == m);
            assert(after.place(m) == self.place(m));
        }
        assert(after@ =~= self@.insert(mode, after.0@[i].1@));
    }

    /// Looks a key sequence up in the bindings of a mode.
    pub fn find_action(&self, mode: &Mode, keys: &Keys) -> (res: KeyMapFunctionResult)
        requires
            self.wf(),
            keys@.len() > 0 || !self@.contains_key(mode@) || exists|k: Seq<Key>|
                self@[mode@].contains_key(k),
        ensures
            finds(self.bindings(mode@), keys@, res@),
    {
        match self.index_of(mode) {
            Some(i) => self.0[i].1.find(keys),
            None => KeyMapFunctionResult::NotFound,
        }
    }

    /// The bindings of a mode.
    pub open spec fn bindings(&self, mode: ModeView) -> Map<Seq<Key>, Action> {
        if self@.contains_key(mode) {
            self@[mode]
        } else {
            Map::empty()
        }
    }

    /// Binds keys to an action in a mode.
    pub fn bind(&mut self, mode: &Mode, keys: Keys, f: Action) -> (res: Result<(), String>)
        requires
            old(self).wf(),
            keys@.len() > 0 || exists|k: Seq<Key>| old(self).bindings(mode@).contains_key(k),
        ensures
            final(self).wf(),
            match res {
                Ok(_) => finds(old(self).bindings(mode@), keys@, FindView::NotFound) && final(self)@ == old(self)@.insert(mode@, old(self).bindings(mode@).insert(keys@, f)),
                Err(m) => final(self)@ == old(self)@.insert(mode@, old(self).bindings(mode@))
                    && exists|found: FindView|
                    !(found is NotFound) && #[trigger] finds(
                        old(self).bindings(mode@),
                        keys@,
                        found,
                    ) && m@ == conflict_text(keys@, found),
            },
    {
        let i: usize = self.entry(mode);
        let ghost before = *self;
        proof {
            assert(before@[mode@] =~= old(self).bindings(mode@));
        }
        let res = self.0[i].1.add_binding(keys, f);
        proof {
            before.lemma_updated(*self, i as int);
            assert(self@ =~= old(self)@.insert(mode@, self.0@[i as int].1@));
        }
        res
    }

    /// Takes a binding of a mode away, if there is one, and tells whether there was.
    pub fn unbind(&mut self, mode: &Mode, keys: &Keys) -> (res: bool)
        requires
            old(self).wf(),
            keys@.len() > 0 || exists|k: Seq<Key>| old(self).bindings(mode@).contains_key(k),
        ensures
            final(self).wf(),
            res == old(self).bindings(mode@).contains_key(keys@),
            final(self)@ == old(self)@.insert(mode@, old(self).bindings(mode@).remove(keys@)),
    {
        let i: usize = self.entry(mode);
        let ghost before = *self;
        proof {
            assert(before@[mode@] =~= old(self).bindings(mode@));
        }
        let found = self.0[i].1.find(keys);
        proof {
            let bindings = before@[mode@];
            if bindings.contains_key(keys@) {
                assert(before.0@[i as int].1.wf());
                law_find_is_unique(bindings, keys@, found@, FindView::Found(bindings[keys@]));
            }
        }
        if let KeyMapFunctionResult::Found(_) = found {
            self.0[i].1.remove(keys);
            proof {
                before.lemma_updated(*self, i as int);
                assert(self@ =~= old(self)@.insert(
                    mode@,
                    old(self).bindings(mode@).remove(keys@),
                ));
            }
            true
        } else {
            proof {
                let bindings = old(self).bindings(mode@);
                assert(bindings.remove(keys@) =~= bindings);
                assert(self@ =~= old(self)@.insert(mode@, bindings.remove(keys@)));
            }
            false
        }
    }

    /// Takes every binding of every mode away.
    pub fn clear_bindings(&mut self)
        requires
            old(self).wf(),
        ensures
            final(self).wf(),
            final(self)@ == old(self)@.map_values(
                |m: Map<Seq<Key>, Action>| Map::<Seq<Key>, Action>::empty(),
            ),
    {
        let mut i: usize = 0;
        let len: usize = self.0.len();
        while i < len
            invariant
                i <= len,
                len == self.0@.len(),
                self.wf(),
                self@.dom() == old(self)@.dom(),
                forall|j: int|
                    0 <= j < i ==> (#[trigger] self.0@[j]).1@ == Map::<
                        Seq<Key>,
                        Action,
                    >::empty(),
            decreases len - i,
        {
            let ghost before = *self;
            self.0[i].1 = KeyMap::default();
            proof {
                before.lemma_updated(*self, i as int);
                assert(before.0@[i as int].0@ == before.0@[i as int].0@);
                assert(before@.contains_key(before.0@[i as int].0@));
                assert(self@.dom() =~= before@.dom());
            }
            i = i + 1;
        }
        proof {
            assert(self@ =~= old(self)@.map_values(
                |m: Map<Seq<Key>, Action>| Map::<Seq<Key>, Action>::empty(),
            ));
        }
    }
}

/// Whatever was bound and taken away, no binding of a mode is the beginning of another one of that
/// mode.
pub proof fn law_bindings_are_prefix_free(keymaps: KeyMaps, mode: ModeView)
    requires
        keymaps.wf(),
    ensures
        prefix_free(keymaps.bindings(mode)),
{
    if keymaps@.contains_key(mode) {
        let i = keymaps.place(mode);
        assert(keymaps.0@[i].1.wf());
    }
}

/// Keys are the beginning of others exactly where at least one key is missing behind them.
pub proof fn law_beginning_lacks_its_end(a: Seq<Key>, b: Seq<Key>)
    ensures
        begins(a, b) <==> exists|rest: Seq<Key>| rest.len() > 0 && b == #[trigger] (a + rest),
{
    if begins(a, b) {
        assert(b =~= a + b.skip(a.len() as int));
    }
    if exists|rest: Seq<Key>| rest.len() > 0 && b == #[trigger] (a + rest) {
        let rest = choose|rest: Seq<Key>| rest.len() > 0 && b == #[trigger] (a + rest);
        assert(b.take(a.len() as int) =~= a);
    }
}

/// A lookup tells apart whether keys are bound, whether more keys are needed, whether there were too
/// many, and whether they are bound in no way.
pub proof fn law_lookup_tells_what_is_missing(
    bindings: Map<Seq<Key>, Action>,
    keys: Seq<Key>,
    rest: Seq<Key>,
    found: FindView,
)
    requires
        prefix_free(bindings),
        finds(bindings, keys, found),
        rest.len() > 0,
    ensures
        bindings.contains_key(keys) ==> found == FindView::Found(bindings[keys]),
        bindings.contains_key(keys + rest) ==> found is IsPrefix,
        forall|start: Seq<Key>|
            bindings.contains_key(start) && #[trigger] begins(start, keys) ==> found
                == FindView::FoundPrefix(start),
        found is NotFound ==> !bindings.contains_key(keys) && !bindings.contains_key(keys + rest),
{
    law_beginning_lacks_its_end(keys, keys + rest);
    if bindings.contains_key(keys) {
        law_find_is_unique(bindings, keys, found, FindView::Found(bindings[keys]));
    }
    if bindings.contains_key(keys + rest) {
        law_find_is_unique(bindings, keys, found, FindView::IsPrefix(keys + rest));
    }
    assert forall|start: Seq<Key>|
        bindings.contains_key(start) && #[trigger] begins(start, keys) implies found
        == FindView::FoundPrefix(start) by {
        law_find_is_unique(bindings, keys, found, FindView::FoundPrefix(start));
    }
}

} // verus!
