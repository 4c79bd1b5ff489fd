//! Keys of the keyboard, and the notation for sequences of them.

use vstd::prelude::*;
use vstd::string::*;

use crate::text::{
    chars_of, decimal, joined, law_decimal_stands_for_the_number, occurs_at, stands_at,
    text_of_decimal, value_of,
};

verus! {

/// A key press.
#[derive(Clone, Copy, Debug, PartialEq, Eq, Structural)]
pub enum Key {
    Backspace,
    Left,
    Right,
    Up,
    Down,
    Home,
    End,
    PageUp,
    PageDown,
    BackTab,
    Delete,
    Insert,
    F(u8),
    Char(char),
    Alt(char),
    Ctrl(char),
    Null,
    Esc,
    /// A key that has no name here.
    Unknown,
}

/// A sequence of key presses.
#[derive(Debug)]
pub struct Keys(pub Vec<Key>);

impl View for Keys {
    type V = Seq<Key>;

    open spec fn view(&self) -> Seq<Key> {
        self.0@
    }
}

impl Clone for Keys {
    fn clone(&self) -> (res: Self)
        ensures
            res@ == self@,
    {
        let mut keys: Vec<Key> = Vec::new();
        let mut i: usize = 0;
        while i < self.0.len()
            invariant
                i <= self.0@.len(),
                keys@ == self.0@.take(i as int),
            decreases self.0@.len() - i,
        {
            keys.push(self.0[i]);
            i = i + 1;
        }
        proof {
            assert(self.0@.take(i as int) =~= self.0@);
        }
        Keys(keys)
    }
}

/// How a key is written out.
pub open spec fn key_text(k: Key) -> Seq<char> {
    match k {
        Key::Backspace => "<Backspace>"@,
        Key::Left => "<Left>"@,
        Key::Right => "<Right>"@,
        Key::Up => "<Up>"@,
        Key::Down => "<Down>"@,
        Key::Home => "<Home>"@,
        Key::End => "<End>"@,
        Key::PageUp => "<PageUp>"@,
        Key::PageDown => "<PageDown>"@,
        Key::BackTab => "<BackTab>"@,
        Key::Delete => "<Delete>"@,
        Key::Insert => "<Insert>"@,
        Key::F(n) => "<F"@ + decimal(n as nat) + ">"@,
        Key::Char(c) => if c == ' ' {
            "<Space>"@
        } else if c == '\n' {
            "<Return>"@
        } else if c == '\t' {
            "<Tab>"@
        } else {
            seq![c]
        },
        Key::Alt(c) => "<A-"@ + seq![c] + ">"@,
        Key::Ctrl(c) => "<C-"@ + seq![c] + ">"@,
        Key::Null => "<Null>"@,
        Key::Esc => "<Esc>"@,
        Key::Unknown => "<UnknownKey>"@,
    }
}

/// How a sequence of keys is written out.
pub open spec fn keys_text(keys: Seq<Key>) -> Seq<char>
    decreases keys.len(),
{
    if keys.len() == 0 {
        Seq::empty()
    } else {
        keys_text(keys.drop_last()) + key_text(keys.last())
    }
}

/// One character between two pieces of text.
fn around(before: &str, c: char, after: &str) -> (res: String)
    ensures
        res@ == before@ + seq![c] + after@,
{
    let mut s = before.to_owned();
    s.push(c);
    s.append(after);
    proof {
        assert(s@ =~= before@ + seq![c] + after@);
    }
    s
}

impl Key {
    /// How the key is written out.
    pub fn to_string(&self) -> (res: String)
        ensures
            res@ == key_text(*self),
    {
        match *self {
            Key::Backspace => "<Backspace>".to_owned(),
            Key::Left => "<Left>".to_owned(),
            Key::Right => "<Right>".to_owned(),
            Key::Up => "<Up>".to_owned(),
            Key::Down => "<Down>".to_owned(),
            Key::Home => "<Home>".to_owned(),
            Key::End => "<End>".to_owned(),
            Key::PageUp => "<PageUp>".to_owned(),
            Key::PageDown => "<PageDown>".to_owned(),
            Key::BackTab => "<BackTab>".to_owned(),
            Key::Delete => "<Delete>".to_owned(),
            Key::Insert => "<Insert>".to_owned(),
            Key::F(n) => {
                let mut s = joined("<F", text_of_decimal(n as u64).as_str());
                s.append(">");
                s
            },
            Key::Char(c) => {
                if c == ' ' {
                    "<Space>".to_owned()
                } else if c == '\n' {
                    "<Return>".to_owned()
                } else if c == '\t' {
                    "<Tab>".to_owned()
                } else {
                    let mut s = String::new();
                    s.push(c);
                    proof {
                        assert(s@ =~= seq![c]);
                    }
                    s
                }
            },
            Key::Alt(c) => around("<A-", c, ">"),
            Key::Ctrl(c) => around("<C-", c, ">"),
            Key::Null => "<Null>".to_owned(),
            Key::Esc => "<Esc>".to_owned(),
            Key::Unknown => "<UnknownKey>".to_owned(),
        }
    }
}

impl Keys {
    /// How the sequence is written out.
    pub fn to_string(&self) -> (res: String)
        ensures
            res@ == keys_text(self@),
    {
        let mut s = String::new();
        let mut i: usize = 0;
        while i < self.0.len()
            invariant
                i <= self.0@.len(),
                s@ == keys_text(self.0@.take(i as int)),
            decreases self.0@.len() - i,
        {
            proof {
                assert(self.0@.take(i + 1).drop_last() =~= self.0@.take(i as int));
            }
            s.append(self.0[i].to_string().as_str());
            i = i + 1;
        }
        proof {
            assert(self.0@.take(i as int) =~= self.0@);
        }
        s
    }
}

/// The named keys of the notation, in the order in which they are tried: the notation, and the
/// key that it stands for.
pub open spec fn named_keys() -> Seq<(Seq<char>, Key)> {
    seq![
        ("<Return>"@, Key::Char('\n')),
        ("<C-m>"@, Key::Char('\n')),
        ("<C-M>"@, Key::Char('\n')),
        ("<Space>"@, Key::Char(' ')),
        ("<Tab>"@, Key::Char('\t')),
        ("<C-i>"@, Key::Char('\t')),
        ("<C-I>"@, Key::Char('\t')),
        ("<Esc>"@, Key::Esc),
        ("<C-[>"@, Key::Esc),
        ("<End>"@, Key::End),
        ("<Home>"@, Key::Home),
        ("<PgUp>"@, Key::PageUp),
        ("<PgDown>"@, Key::PageDown),
        ("<Left>"@, Key::Left),
        ("<Right>"@, Key::Right),
        ("<Up>"@, Key::Up),
        ("<Down>"@, Key::Down),
        ("<Backspace>"@, Key::Backspace),
        ("<Delete>"@, Key::Delete),
    ]
}

/// Whether a character stands for itself in the notation.
pub open spec fn is_plain(c: char) -> bool {
    '!' <= c && c <= '~'
}

/// The first of the named keys from `from` on that is written at position `at`.
pub open spec fn named_at(s: Seq<char>, at: int, from: int) -> Option<(Key, int)>
    decreases named_keys().len() - from,
{
    if from >= named_keys().len() {
        None
    } else if occurs_at(s, named_keys()[from].0, at) {
        Some((named_keys()[from].1, at + named_keys()[from].0.len()))
    } else {
        named_at(s, at, from + 1)
    }
}

/// The key that is written at position `at`, and the position behind it.
pub open spec fn key_at(s: Seq<char>, at: int) -> Option<(Key, int)> {
    match named_at(s, at, 0) {
        Some(found) => Some(found),
        None => if at + 5 <= s.len() && s[at] == '<' && (s[at + 1] == 'C' || s[at + 1] == 'c')
            && s[at + 2] == '-' && is_plain(s[at + 3]) && s[at + 4] == '>' {
            Some((Key::Ctrl(s[at + 3]), at + 5))
        } else if at < s.len() && is_plain(s[at]) {
            Some((Key::Char(s[at]), at + 1))
        } else {
            None
        },
    }
}

/// The keys that are written from position `at` on, if all of the rest is keys.
pub open spec fn keys_from(s: Seq<char>, at: int) -> Option<Seq<Key>>
    decreases s.len() - at,
{
    if at >= s.len() {
        Some(Seq::empty())
    } else {
        match key_at(s, at) {
            Some((k, next)) => if next <= at || next > s.len() {
                None
            } else {
                match keys_from(s, next) {
                    Some(rest) => Some(seq![k] + rest),
                    None => None,
                }
            },
            None => None,
        }
    }
}

/// The characters of every named key, spelt out.
proof fn lemma_names()
    ensures
        named_keys().len() == 19,
        forall|i: int| 0 <= i < 19 ==> (#[trigger] named_keys()[i]).0.len() >= 4,
        forall|i: int| 0 <= i < 19 ==> (#[trigger] named_keys()[i]).0[0] == '<',
{
    reveal_strlit("<Return>");
    reveal_strlit("<C-m>");
    reveal_strlit("<C-M>");
    reveal_strlit("<Space>");
    reveal_strlit("<Tab>");
    reveal_strlit("<C-i>");
    reveal_strlit("<C-I>");
    reveal_strlit("<Esc>");
    reveal_strlit("<C-[>");
    reveal_strlit("<End>");
    reveal_strlit("<Home>");
    reveal_strlit("<PgUp>");
    reveal_strlit("<PgDown>");
    reveal_strlit("<Left>");
    reveal_strlit("<Right>");
    reveal_strlit("<Up>");
    reveal_strlit("<Down>");
    reveal_strlit("<Backspace>");
    reveal_strlit("<Delete>");
}

proof fn lemma_named_at(s: Seq<char>, at: int, from: int)
    requires
        0 <= from,
    ensures
        named_at(s, at, from) matches Some((_, next)) ==> at < next <= s.len(),
    decreases named_keys().len() - from,
{
    lemma_names();
    if from < named_keys().len() && !occurs_at(s, named_keys()[from].0, at) {
        lemma_named_at(s, at, from + 1);
    }
}

/// The named keys, in the order in which they are tried.
fn key_names() -> (res: Vec<(&'static str, Key)>)
    ensures
        res@.len() == named_keys().len(),
        forall|i: int|
            0 <= i < res@.len() ==> (#[trigger] res@[i]).0@ == named_keys()[i].0 && res@[i].1
                == named_keys()[i].1,
{
    vec![
        ("<Return>", Key::Char('\n')),
        ("<C-m>", Key::Char('\n')),
        ("<C-M>", Key::Char('\n')),
        ("<Space>", Key::Char(' ')),
        ("<Tab>", Key::Char('\t')),
        ("<C-i>", Key::Char('\t')),
        ("<C-I>", Key::Char('\t')),
        ("<Esc>", Key::Esc),
        ("<C-[>", Key::Esc),
        ("<End>", Key::End),
        ("<Home>", Key::Home),
        ("<PgUp>", Key::PageUp),
        ("<PgDown>", Key::PageDown),
        ("<Left>", Key::Left),
        ("<Right>", Key::Right),
        ("<Up>", Key::Up),
        ("<Down>", Key::Down),
        ("<Backspace>", Key::Backspace),
        ("<Delete>", Key::Delete),
    ]
}

/// The named key that is written at position `at`, and the position behind it.
fn find_named(
    names: &Vec<(&'static str, Key)>,
    chars: &Vec<char>,
    at: usize,
) -> (res: Option<(Key, usize)>)
    requires
        names@.len() == named_keys().len(),
        forall|i: int|
            0 <= i < names@.len() ==> (#[trigger] names@[i]).0@ == named_keys()[i].0 && names@[i].1
                == named_keys()[i].1,
    ensures
        match res {
            Some((k, next)) => named_at(chars@, at as int, 0) == Some((k, next as int)),
            None => named_at(chars@, at as int, 0) is None,
        },
{
    let mut i: usize = 0;
    while i < names.len()
        invariant
            i <= names@.len(),
            names@.len() == named_keys().len(),
            forall|j: int|
                0 <= j < names@.len() ==> (#[trigger] names@[j]).0@ == named_keys()[j].0
                    && names@[j].1 == named_keys()[j].1,
            named_at(chars@, at as int, 0) == named_at(chars@, at as int, i as int),
        decreases names@.len() - i,
    {
        let len: usize = chars.len();
        let name = chars_of(names[i].0);
        if stands_at(chars, &name, at) {
            return Some((names[i].1, at + name.len()));
        }
        i = i + 1;
    }
    None
}

/// The key that is written at position `at`, and the position behind it.
fn read_key(
    names: &Vec<(&'static str, Key)>,
    chars: &Vec<char>,
    at: usize,
) -> (res: Option<(Key, usize)>)
    requires
        names@.len() == named_keys().len(),
        forall|i: int|
            0 <= i < names@.len() ==> (#[trigger] names@[i]).0@ == named_keys()[i].0 && names@[i].1
                == named_keys()[i].1,
        at < chars@.len(),
    ensures
        match res {
            Some((k, next)) => key_at(chars@, at as int) == Some((k, next as int)),
            None => key_at(chars@, at as int) is None,
        },
{
    let len: usize = chars.len();
    if let Some(found) = find_named(names, chars, at) {
        return Some(found);
    }
    if len >= 5 && at <= len - 5 && chars[at] == '<' && (chars[at + 1] == 'C' || chars[at + 1]
        == 'c') && chars[at + 2] == '-' && '!' <= chars[at + 3] && chars[at + 3] <= '~' && chars[at
        + 4] == '>' {
        return Some((Key::Ctrl(chars[at + 3]), at + 5));
    }
    if '!' <= chars[at] && chars[at] <= '~' {
        return Some((Key::Char(chars[at]), at + 1));
    }
    None
}

/// The message for a text that is not a sequence of keys.
pub open spec fn invalid_keys(s: Seq<char>) -> Seq<char> {
    "'"@ + s + "' is not a valid key sequence"@
}

/// Reads a sequence of keys.
pub fn parse_keys(s: &str) -> (res: Result<Vec<Key>, String>)
    ensures
        match keys_from(s@, 0) {
            Some(keys) => res matches Ok(k) && k@ == keys,
            None => res matches Err(m) && m@ == invalid_keys(s@),
        },
{
    let names = key_names();
    let chars = chars_of(s);
    let mut keys: Vec<Key> = Vec::new();
    let mut at: usize = 0;
    while at < chars.len()
        invariant
            chars@ == s@,
            at <= chars@.len(),
            names@.len() == named_keys().len(),
            forall|i: int|
                0 <= i < names@.len() ==> (#[trigger] names@[i]).0@ == named_keys()[i].0
                    && names@[i].1 == named_keys()[i].1,
            match keys_from(s@, at as int) {
                Some(rest) => keys_from(s@, 0) == Some(keys@ + rest),
                None => keys_from(s@, 0) is None,
            },
        decreases chars@.len() - at,
    {
        proof {
            lemma_named_at(s@, at as int, 0);
        }
        match read_key(&names, &chars, at) {
            Some((key, next)) => {
                proof {
                    if let Some(rest) = keys_from(s@, next as int) {
                        assert(keys@ + (seq![key] + rest) =~= keys@.push(key) + rest);
                    }
                }
                keys.push(key);
                at = next;
            },
            None => {
                let mut m = joined("'", s);
                m.append("' is not a valid key sequence");
                return Err(m);
            },
        }
    }
    proof {
        assert(keys@ + Seq::<Key>::empty() =~= keys@);
    }
    Ok(keys)
}

/// Whether the notation of a key is read back as that key. Page keys, function keys and keys with
/// the alt modifier are written in ways that the notation does not know, and some control keys
/// share their notation with a named key.
pub open spec fn is_read_back(k: Key) -> bool {
    match k {
        Key::Backspace | Key::Left | Key::Right | Key::Up | Key::Down | Key::Home | Key::End
        | Key::Delete | Key::Esc => true,
        Key::Char(c) => c == ' ' || c == '\n' || c == '\t' || (is_plain(c) && c != '<'),
        Key::Ctrl(c) => is_plain(c) && c != 'm' && c != 'M' && c != 'i' && c != 'I' && c != '[',
        _ => false,
    }
}

proof fn lemma_occurs(s: Seq<char>, name: Seq<char>, at: int)
    ensures
        occurs_at(s, name, at) ==> forall|j: int|
            0 <= j < name.len() ==> s[at + j] == #[trigger] name[j],
{
    if occurs_at(s, name, at) {
        assert forall|j: int| 0 <= j < name.len() implies s[at + j] == #[trigger] name[j] by {
            assert(s.subrange(at, at + name.len())[j] == s[at + j]);
        }
    }
}

/// The first named key that is written at a position, where it is known which one is and which
/// ones before it are not.
proof fn lemma_first_named(s: Seq<char>, at: int, n: int, from: int)
    requires
        0 <= from <= n <= named_keys().len(),
        forall|i: int| from <= i < n ==> !occurs_at(s, (#[trigger] named_keys()[i]).0, at),
        n < named_keys().len() ==> occurs_at(s, named_keys()[n].0, at),
    ensures
        named_at(s, at, from) == (if n < named_keys().len() {
            Some((named_keys()[n].1, at + named_keys()[n].0.len()))
        } else {
            None
        }),
    decreases n - from,
{
    if from < n {
        assert(!occurs_at(s, named_keys()[from].0, at));
        lemma_first_named(s, at, n, from + 1);
    }
}

/// The place of a key in the list of named keys, or the length of the list.
spec fn name_index(k: Key) -> int {
    match k {
        Key::Char(c) => if c == '\n' {
            0
        } else if c == ' ' {
            3
        } else if c == '\t' {
            4
        } else {
            19
        },
        Key::Esc => 7,
        Key::End => 9,
        Key::Home => 10,
        Key::Left => 13,
        Key::Right => 14,
        Key::Up => 15,
        Key::Down => 16,
        Key::Backspace => 17,
        Key::Delete => 18,
        _ => 19,
    }
}

#[verifier::rlimit(40)]
proof fn lemma_key_read_back(pre: Seq<char>, k: Key, post: Seq<char>)
    requires
        is_read_back(k),
    ensures
        key_at(pre + key_text(k) + post, pre.len() as int) == Some(
            (k, (pre.len() + key_text(k).len()) as int),
        ),
        key_text(k).len() > 0,
{
    reveal_strlit("<Return>");
    reveal_strlit("<C-m>");
    reveal_strlit("<C-M>");
    reveal_strlit("<Space>");
    reveal_strlit("<Tab>");
    reveal_strlit("<C-i>");
    reveal_strlit("<C-I>");
    reveal_strlit("<Esc>");
    reveal_strlit("<C-[>");
    reveal_strlit("<End>");
    reveal_strlit("<Home>");
    reveal_strlit("<PgUp>");
    reveal_strlit("<PgDown>");
    reveal_strlit("<Left>");
    reveal_strlit("<Right>");
    reveal_strlit("<Up>");
    reveal_strlit("<Down>");
    reveal_strlit("<Backspace>");
    reveal_strlit("<Delete>");
    reveal_strlit("<C-");
    reveal_strlit(">");
    let s = pre + key_text(k) + post;
    let at = pre.len() as int;
    let t = key_text(k);
    let n = name_index(k);
    assert forall|j: int| 0 <= j < t.len() implies s[at + j] == #[trigger] t[j] by {}
    assert(s.subrange(at, at + t.len()) =~= t);
    assert(t[0] == s[at + 0]);
    if let Key::Ctrl(c) = k {
        assert(t =~= seq!['<', 'C', '-', c, '>']);
        assert(s[at + 1] == t[1]);
        assert(s[at + 2] == t[2]);
        assert(s[at + 3] == t[3]);
        assert(s[at + 4] == t[4]);
    }
    assert forall|i: int| 0 <= i < n implies !occurs_at(s, (#[trigger] named_keys()[i]).0, at) by {
        let name = named_keys()[i].0;
        lemma_occurs(s, name, at);
        if occurs_at(s, name, at) {
            assert(s[at + 0] == name[0]);
            assert(s[at + 1] == name[1]);
            assert(s[at + 2] == name[2]);
            assert(s[at + 3] == name[3]);
            if t.len() > 1 {
                assert(t[1] == s[at + 1]);
                assert(t[2] == s[at + 2]);
                assert(t[3] == s[at + 3]);
            }
        }
    }
    lemma_first_named(s, at, n, 0);
}

proof fn lemma_keys_text_split(keys: Seq<Key>, i: int)
    requires
        0 <= i <= keys.len(),
    ensures
        keys_text(keys) == keys_text(keys.take(i)) + keys_text(keys.skip(i)),
    decreases keys.len() - i,
{
    if i == keys.len() {
        assert(keys.take(i) =~= keys);
        assert(keys_text(keys.skip(i)) =~= Seq::<char>::empty());
    } else {
        let front = keys.drop_last();
        lemma_keys_text_split(front, i);
        assert(front.take(i) =~= keys.take(i));
        assert(front.skip(i) =~= keys.skip(i).drop_last());
        assert(keys.skip(i).last() == keys.last());
        assert(keys_text(keys) =~= keys_text(keys.take(i)) + keys_text(keys.skip(i)));
    }
}

proof fn lemma_rest_read_back(keys: Seq<Key>, i: int)
    requires
        forall|j: int| 0 <= j < keys.len() ==> is_read_back(#[trigger] keys[j]),
        0 <= i <= keys.len(),
    ensures
        keys_from(keys_text(keys), keys_text(keys.take(i)).len() as int) == Some(keys.skip(i)),
    decreases keys.len() - i,
{
    let s = keys_text(keys);
    if i == keys.len() {
        assert(keys.take(i) =~= keys);
        assert(keys.skip(i) =~= Seq::<Key>::empty());
    } else {
        let pre = keys_text(keys.take(i));
        let post = keys_text(keys.skip(i + 1));
        lemma_keys_text_split(keys, i + 1);
        assert(keys.take(i + 1).drop_last() =~= keys.take(i));
        assert(keys_text(keys.take(i + 1)) == pre + key_text(keys[i]));
        assert(s == pre + key_text(keys[i]) + post);
        lemma_key_read_back(pre, keys[i], post);
        lemma_rest_read_back(keys, i + 1);
        assert(seq![keys[i]] + keys.skip(i + 1) =~= keys.skip(i));
    }
}

/// What a sequence of keys is written as is read back as that sequence.
pub proof fn law_keys_read_back(keys: Seq<Key>)
    requires
        forall|i: int| 0 <= i < keys.len() ==> is_read_back(#[trigger] keys[i]),
    ensures
        keys_from(keys_text(keys), 0) == Some(keys),
{
    lemma_rest_read_back(keys, 0);
    assert(keys.take(0) =~= Seq::<Key>::empty());
    assert(keys.skip(0) =~= keys);
}

/// What a named key can be.
proof fn lemma_named_key(s: Seq<char>, at: int, from: int)
    requires
        0 <= from,
    ensures
        named_at(s, at, from) matches Some((k, _)) ==> match k {
            Key::Char(c) => c == '\n' || c == ' ' || c == '\t',
            Key::Esc | Key::End | Key::Home | Key::PageUp | Key::PageDown | Key::Left | Key::Right
            | Key::Up | Key::Down | Key::Backspace | Key::Delete => true,
            _ => false,
        },
    decreases named_keys().len() - from,
{
    if from < named_keys().len() && !occurs_at(s, named_keys()[from].0, at) {
        lemma_named_key(s, at, from + 1);
    }
}

/// Where a named key is written, one is found.
proof fn lemma_named_found(s: Seq<char>, at: int, i: int, from: int)
    requires
        0 <= from <= i < named_keys().len(),
        occurs_at(s, named_keys()[i].0, at),
    ensures
        named_at(s, at, from) is Some,
    decreases i - from,
{
    if from < i && !occurs_at(s, named_keys()[from].0, at) {
        lemma_named_found(s, at, i, from + 1);
    }
}

/// Whether a piece of text can stand behind the `<` of a notation: after its first character, a
/// further `<` has its `>` next to it.
spec fn is_inner(p: Seq<char>) -> bool {
    forall|j: int|
        #![trigger p[j]]
        0 <= j < p.len() ==> is_plain(p[j]) && (p[j] == '<' ==> j + 1 < p.len() && p[j + 1] == '>')
}

/// The characters behind the `<` of every named key.
proof fn lemma_names_inner(i: int)
    requires
        0 <= i < named_keys().len(),
    ensures
        named_keys()[i].0.len() > 0,
        named_keys()[i].0[0] == '<',
        is_inner(named_keys()[i].0.skip(1)),
{
    reveal_strlit("<Return>");
    reveal_strlit("<C-m>");
    reveal_strlit("<C-M>");
    reveal_strlit("<Space>");
    reveal_strlit("<Tab>");
    reveal_strlit("<C-i>");
    reveal_strlit("<C-I>");
    reveal_strlit("<Esc>");
    reveal_strlit("<C-[>");
    reveal_strlit("<End>");
    reveal_strlit("<Home>");
    reveal_strlit("<PgUp>");
    reveal_strlit("<PgDown>");
    reveal_strlit("<Left>");
    reveal_strlit("<Right>");
    reveal_strlit("<Up>");
    reveal_strlit("<Down>");
    reveal_strlit("<Backspace>");
    reveal_strlit("<Delete>");
}

/// The start of how a key is written out: a plain character stands for itself, and any other key
/// has an angle bracket with no closing one next to it.
proof fn lemma_key_text_start(k: Key)
    requires
        is_read_back(k) || k == Key::Char('<'),
    ensures
        key_text(k).len() > 0,
        k matches Key::Char(c) ==> is_plain(c) ==> key_text(k) == seq![c],
        !(k matches Key::Char(c) && is_plain(c)) ==> key_text(k).len() > 1 && key_text(k)[0] == '<'
            && key_text(k)[1] != '>',
{
    reveal_strlit("<Return>");
    reveal_strlit("<Space>");
    reveal_strlit("<Tab>");
    reveal_strlit("<Esc>");
    reveal_strlit("<End>");
    reveal_strlit("<Home>");
    reveal_strlit("<Left>");
    reveal_strlit("<Right>");
    reveal_strlit("<Up>");
    reveal_strlit("<Down>");
    reveal_strlit("<Backspace>");
    reveal_strlit("<Delete>");
    reveal_strlit("<C-");
    reveal_strlit(">");
}

/// Whether reading a key gave it in a way in which it is also written out. Page keys are written
/// otherwise than they are read, and some control keys share their notation with a named key.
pub open spec fn is_written_as_read(k: Key) -> bool {
    match k {
        Key::PageUp | Key::PageDown => false,
        Key::Ctrl(c) => c != 'm' && c != 'M' && c != 'i' && c != 'I' && c != '[',
        _ => true,
    }
}

proof fn lemma_first_key(s: Seq<char>, at: int)
    requires
        0 <= at < s.len(),
        keys_from(s, at) is Some,
    ensures
        ({
            let keys = keys_from(s, at)->0;
            &&& keys.len() > 0
            &&& key_at(s, at) matches Some((k, next)) && k == keys[0] && at < next <= s.len()
                && keys_from(s, next) == Some(keys.skip(1))
            &&& is_written_as_read(keys[0]) ==> is_read_back(keys[0]) || keys[0] == Key::Char('<')
            &&& keys[0] matches Key::Char(c) ==> is_plain(c) ==> s[at] == c && keys_from(s, at + 1)
                == Some(keys.skip(1))
        }),
{
    lemma_named_at(s, at, 0);
    lemma_named_key(s, at, 0);
    if let Some((k, next)) = key_at(s, at) {
        let rest = keys_from(s, next)->0;
        assert((seq![k] + rest).skip(1) =~= rest);
    }
}

proof fn lemma_keys_text_first(keys: Seq<Key>)
    requires
        keys.len() > 0,
    ensures
        keys_text(keys) == key_text(keys[0]) + keys_text(keys.skip(1)),
{
    lemma_keys_text_split(keys, 1);
    let one = keys.take(1);
    assert(one.drop_last() =~= Seq::<Key>::empty());
    assert(keys_text(one.drop_last()) =~= Seq::<char>::empty());
    assert(keys_text(one) =~= key_text(keys[0]));
}

/// The inside of a notation that keys are written out as was also in the text that they were read
/// from.
proof fn lemma_inner_was_read(s: Seq<char>, at: int, p: Seq<char>)
    requires
        0 <= at <= s.len(),
        keys_from(s, at) is Some,
        forall|i: int|
            0 <= i < keys_from(s, at)->0.len() ==> is_written_as_read(
                #[trigger] keys_from(s, at)->0[i],
            ),
        is_inner(p),
        occurs_at(keys_text(keys_from(s, at)->0), p, 0),
    ensures
        occurs_at(s, p, at),
    decreases p.len(),
{
    let keys = keys_from(s, at)->0;
    let text = keys_text(keys);
    if p.len() == 0 {
        assert(s.subrange(at, at) =~= p);
    } else {
        lemma_occurs(text, p, 0);
        assert(text[0int + 0] == p[0]);
        if at >= s.len() {
            assert(keys =~= Seq::<Key>::empty());
            assert(false);
        }
        lemma_first_key(s, at);
        lemma_keys_text_first(keys);
        let k = keys[0];
        assert(is_written_as_read(keys[0]));
        lemma_key_text_start(k);
        let rest = keys.skip(1);
        assert(text[0] == key_text(k)[0]);
        if !(k matches Key::Char(c) && is_plain(c)) {
            assert(text[1] == key_text(k)[1]);
            assert(p[0] == '<');
            assert(text[0int + 1] == p[1]);
            assert(false);
        }
        assert(text.skip(1) =~= keys_text(rest));
        let q = p.skip(1);
        assert(is_inner(q)) by {
            assert forall|j: int|
                #![trigger q[j]]
                0 <= j < q.len() implies is_plain(q[j]) && (q[j] == '<' ==> j + 1 < q.len() && q[j + 1]
                == '>') by {
                assert(q[j] == p[j + 1]);
            }
        }
        assert(keys_text(rest).subrange(0, q.len() as int) =~= text.subrange(0, p.len() as int).skip(1));
        assert forall|i: int| 0 <= i < rest.len() implies is_written_as_read(#[trigger] rest[i]) by {
            assert(rest[i] == keys[i + 1]);
        }
        lemma_inner_was_read(s, at + 1, q);
        assert(s.subrange(at, at + p.len()) =~= seq![s[at]] + s.subrange(at + 1, at + 1 + q.len()));
        assert(p =~= seq![p[0]] + q);
    }
}

/// Where a `<` was read as itself, it is also read as itself from what the keys are written out as.
proof fn lemma_bracket_read_back(pre: Seq<char>, s: Seq<char>, at: int)
    requires
        0 <= at < s.len(),
        keys_from(s, at) is Some,
        forall|i: int|
            0 <= i < keys_from(s, at)->0.len() ==> is_written_as_read(
                #[trigger] keys_from(s, at)->0[i],
            ),
        keys_from(s, at)->0[0] == Key::Char('<'),
    ensures
        key_at(pre + keys_text(keys_from(s, at)->0), pre.len() as int) == Some(
            (Key::Char('<'), (pre.len() + 1) as int),
        ),
{
    let keys = keys_from(s, at)->0;
    let rest = keys.skip(1);
    let text = keys_text(keys);
    let w = pre + text;
    let here = pre.len() as int;
    lemma_first_key(s, at);
    lemma_named_key(s, at, 0);
    lemma_keys_text_first(keys);
    assert(text == seq!['<'] + keys_text(rest));
    assert(w[here] == '<');
    assert(w.skip(here + 1) =~= keys_text(rest));
    assert forall|i: int| 0 <= i < rest.len() implies is_written_as_read(#[trigger] rest[i]) by {
        assert(rest[i] == keys[i + 1]);
    }
    assert forall|i: int| 0 <= i < named_keys().len() implies !occurs_at(
        w,
        (#[trigger] named_keys()[i]).0,
        here,
    ) by {
        let name = named_keys()[i].0;
        if occurs_at(w, name, here) {
            lemma_names_inner(i);
            let p = name.skip(1);
            assert(keys_text(rest).subrange(0, p.len() as int) =~= w.subrange(
                here,
                here + name.len(),
            ).skip(1));
            lemma_inner_was_read(s, at + 1, p);
            assert(s.subrange(at, at + name.len()) =~= seq![s[at]] + s.subrange(
                at + 1,
                at + 1 + p.len(),
            ));
            assert(name =~= seq![name[0]] + p);
            lemma_named_found(s, at, i, 0);
        }
    }
    lemma_first_named(w, here, named_keys().len() as int, 0);
    if here + 5 <= w.len() && (w[here + 1] == 'C' || w[here + 1] == 'c') && w[here + 2] == '-'
        && is_plain(w[here + 3]) && w[here + 4] == '>' {
        let p = seq![w[here + 1], w[here + 2], w[here + 3], w[here + 4]];
        assert(is_inner(p));
        assert(keys_text(rest).subrange(0, 4) =~= p);
        lemma_inner_was_read(s, at + 1, p);
        lemma_occurs(s, p, at + 1);
        assert(s[at + 1 + 0] == p[0]);
        assert(s[at + 1 + 1] == p[1]);
        assert(s[at + 1 + 2] == p[2]);
        assert(s[at + 1 + 3] == p[3]);
    }
}

proof fn lemma_read_keys_read_back(pre: Seq<char>, s: Seq<char>, at: int)
    requires
        0 <= at <= s.len(),
        keys_from(s, at) is Some,
        forall|i: int|
            0 <= i < keys_from(s, at)->0.len() ==> is_written_as_read(
                #[trigger] keys_from(s, at)->0[i],
            ),
    ensures
        keys_from(pre + keys_text(keys_from(s, at)->0), pre.len() as int) == keys_from(s, at),
    decreases s.len() - at,
{
    let keys = keys_from(s, at)->0;
    if at >= s.len() {
        assert(keys =~= Seq::<Key>::empty());
        assert(pre + keys_text(keys) =~= pre);
    } else {
        lemma_first_key(s, at);
        lemma_keys_text_first(keys);
        let k = keys[0];
        let rest = keys.skip(1);
        let (_, next) = key_at(s, at)->0;
        assert(is_written_as_read(keys[0]));
        lemma_key_text_start(k);
        let w = pre + keys_text(keys);
        let further = pre + key_text(k);
        assert(w =~= further + keys_text(rest));
        if k == Key::Char('<') {
            lemma_bracket_read_back(pre, s, at);
        } else {
            lemma_key_read_back(pre, k, keys_text(rest));
        }
        assert forall|i: int| 0 <= i < rest.len() implies is_written_as_read(#[trigger] rest[i]) by {
            assert(rest[i] == keys[i + 1]);
        }
        lemma_read_keys_read_back(further, s, next);
        assert(seq![k] + rest =~= keys);
    }
}

/// The keys that a text is read as are written out as a text that is read as the same keys. Only
/// page keys, and control keys that share their notation with a named key, are left out.
pub proof fn law_read_keys_are_read_back(s: Seq<char>)
    requires
        keys_from(s, 0) is Some,
        forall|i: int|
            0 <= i < keys_from(s, 0)->0.len() ==> is_written_as_read(
                #[trigger] keys_from(s, 0)->0[i],
            ),
    ensures
        keys_from(keys_text(keys_from(s, 0)->0), 0) == keys_from(s, 0),
{
    let none = Seq::<char>::empty();
    lemma_read_keys_read_back(none, s, 0);
    assert(none + keys_text(keys_from(s, 0)->0) =~= keys_text(keys_from(s, 0)->0));
}

/// Which key a named key is, by the length of its notation and two of its characters.
spec fn marked_key(len: nat, second: char, fourth: char) -> Key {
    if len == 8 && second == 'R' && fourth == 't' {
        Key::Char('\n')
    } else if len == 5 && second == 'C' && fourth == 'm' {
        Key::Char('\n')
    } else if len == 5 && second == 'C' && fourth == 'M' {
        Key::Char('\n')
    } else if len == 7 && second == 'S' && fourth == 'a' {
        Key::Char(' ')
    } else if len == 5 && second == 'T' && fourth == 'b' {
        Key::Char('\t')
    } else if len == 5 && second == 'C' && fourth == 'i' {
        Key::Char('\t')
    } else if len == 5 && second == 'C' && fourth == 'I' {
        Key::Char('\t')
    } else if len == 5 && second == 'E' && fourth == 'c' {
        Key::Esc
    } else if len == 5 && second == 'C' && fourth == '[' {
        Key::Esc
    } else if len == 5 && second == 'E' && fourth == 'd' {
        Key::End
    } else if len == 6 && second == 'H' && fourth == 'm' {
        Key::Home
    } else if len == 6 && second == 'P' && fourth == 'U' {
        Key::PageUp
    } else if len == 8 && second == 'P' && fourth == 'D' {
        Key::PageDown
    } else if len == 6 && second == 'L' && fourth == 'f' {
        Key::Left
    } else if len == 7 && second == 'R' && fourth == 'g' {
        Key::Right
    } else if len == 4 && second == 'U' && fourth == '>' {
        Key::Up
    } else if len == 6 && second == 'D' && fourth == 'w' {
        Key::Down
    } else if len == 11 && second == 'B' && fourth == 'c' {
        Key::Backspace
    } else if len == 8 && second == 'D' && fourth == 'l' {
        Key::Delete
    } else {
        Key::Unknown
    }
}

proof fn lemma_name_mark(i: int)
    requires
        0 <= i < named_keys().len(),
    ensures
        ({
            let name = named_keys()[i].0;
            &&& name.len() >= 4
            &&& marked_key(name.len(), name[1], name[3]) == named_keys()[i].1
            &&& name.last() == '>'
            &&& forall|j: int| 0 <= j < name.len() - 1 ==> #[trigger] name[j] != '>'
        }),
{
    lemma_names();
    if i == 0 {
        reveal_strlit("<Return>");
    } else if i == 1 {
        reveal_strlit("<C-m>");
    } else if i == 2 {
        reveal_strlit("<C-M>");
    } else if i == 3 {
        reveal_strlit("<Space>");
    } else if i == 4 {
        reveal_strlit("<Tab>");
    } else if i == 5 {
        reveal_strlit("<C-i>");
    } else if i == 6 {
        reveal_strlit("<C-I>");
    } else if i == 7 {
        reveal_strlit("<Esc>");
    } else if i == 8 {
        reveal_strlit("<C-[>");
    } else if i == 9 {
        reveal_strlit("<End>");
    } else if i == 10 {
        reveal_strlit("<Home>");
    } else if i == 11 {
        reveal_strlit("<PgUp>");
    } else if i == 12 {
        reveal_strlit("<PgDown>");
    } else if i == 13 {
        reveal_strlit("<Left>");
    } else if i == 14 {
        reveal_strlit("<Right>");
    } else if i == 15 {
        reveal_strlit("<Up>");
    } else if i == 16 {
        reveal_strlit("<Down>");
    } else if i == 17 {
        reveal_strlit("<Backspace>");
    } else if i == 18 {
        reveal_strlit("<Delete>");
    }
}

proof fn lemma_same_name(s: Seq<char>, at: int, i: int, j: int)
    requires
        0 <= i < named_keys().len(),
        0 <= j < named_keys().len(),
        occurs_at(s, named_keys()[i].0, at),
        occurs_at(s, named_keys()[j].0, at),
    ensures
        named_keys()[i] == named_keys()[j],
{
    let a = named_keys()[i].0;
    let b = named_keys()[j].0;
    lemma_name_mark(i);
    lemma_name_mark(j);
    lemma_occurs(s, a, at);
    lemma_occurs(s, b, at);
    if a.len() < b.len() {
        assert(s[at + (a.len() - 1)] == a[a.len() - 1]);
        assert(s[at + (a.len() - 1)] == b[a.len() - 1]);
    }
    if b.len() < a.len() {
        assert(s[at + (b.len() - 1)] == a[b.len() - 1]);
        assert(s[at + (b.len() - 1)] == b[b.len() - 1]);
    }
    assert(a =~= b) by {
        assert forall|k: int| 0 <= k < a.len() implies a[k] == b[k] by {
            assert(s[at + k] == a[k]);
            assert(s[at + k] == b[k]);
        }
    }
}

proof fn lemma_found_name(s: Seq<char>, at: int, n: int, from: int)
    requires
        0 <= from <= n < named_keys().len(),
        occurs_at(s, named_keys()[n].0, at),
    ensures
        named_at(s, at, from) == Some((named_keys()[n].1, at + named_keys()[n].0.len())),
    decreases n - from,
{
    if occurs_at(s, named_keys()[from].0, at) {
        lemma_same_name(s, at, from, n);
    } else {
        lemma_found_name(s, at, n, from + 1);
    }
}

/// Whether a notation is one of a key with a name.
pub open spec fn stands_for(name: Seq<char>, k: Key) -> bool {
    match k {
        Key::Char(c) => {
            ||| c == '\n' && (name == "<Return>"@ || name == "<C-m>"@ || name == "<C-M>"@)
            ||| c == '\t' && (name == "<Tab>"@ || name == "<C-i>"@ || name == "<C-I>"@)
            ||| c == ' ' && name == "<Space>"@
        },
        Key::Esc => name == "<Esc>"@ || name == "<C-[>"@,
        Key::Home => name == "<Home>"@,
        Key::End => name == "<End>"@,
        Key::PageUp => name == "<PgUp>"@,
        Key::PageDown => name == "<PgDown>"@,
        Key::Left => name == "<Left>"@,
        Key::Right => name == "<Right>"@,
        Key::Up => name == "<Up>"@,
        Key::Down => name == "<Down>"@,
        Key::Backspace => name == "<Backspace>"@,
        Key::Delete => name == "<Delete>"@,
        _ => false,
    }
}

/// Wherever the name of a key stands among keys, it is read as that key, and the keys behind it are
/// read on from its end.
pub proof fn law_names_stand_for_their_keys(
    before: Seq<char>,
    name: Seq<char>,
    after: Seq<char>,
    k: Key,
)
    requires
        stands_for(name, k),
    ensures
        keys_from(before + name + after, before.len() as int) == (match keys_from(
            before + name + after,
            (before.len() + name.len()) as int,
        ) {
            Some(rest) => Some(seq![k] + rest),
            None => None,
        }),
{
    let s = before + name + after;
    let at = before.len() as int;
    lemma_names();
    let n = name_place(name);
    assert(named_keys()[n] == (name, k)) by {
        lemma_name_place(name, k);
    }
    assert(s.subrange(at, at + name.len()) =~= name);
    assert(occurs_at(s, name, at));
    lemma_found_name(s, at, n, 0);
}

/// The place of a notation among those of the named keys.
spec fn name_place(name: Seq<char>) -> int {
    if name == "<Return>"@ {
        0
    } else if name == "<C-m>"@ {
        1
    } else if name == "<C-M>"@ {
        2
    } else if name == "<Space>"@ {
        3
    } else if name == "<Tab>"@ {
        4
    } else if name == "<C-i>"@ {
        5
    } else if name == "<C-I>"@ {
        6
    } else if name == "<Esc>"@ {
        7
    } else if name == "<C-[>"@ {
        8
    } else if name == "<End>"@ {
        9
    } else if name == "<Home>"@ {
        10
    } else if name == "<PgUp>"@ {
        11
    } else if name == "<PgDown>"@ {
        12
    } else if name == "<Left>"@ {
        13
    } else if name == "<Right>"@ {
        14
    } else if name == "<Up>"@ {
        15
    } else if name == "<Down>"@ {
        16
    } else if name == "<Backspace>"@ {
        17
    } else if name == "<Delete>"@ {
        18
    } else {
        0
    }
}

proof fn lemma_name_place(name: Seq<char>, k: Key)
    requires
        stands_for(name, k),
    ensures
        0 <= name_place(name) < named_keys().len(),
        named_keys()[name_place(name)] == (name, k),
{
    lemma_names();
    let n = name_place(name);
    lemma_name_mark(n);
    match k {
        Key::Char(c) => {
            if c == '\n' && name == "<Return>"@ {
                lemma_name_mark(0);
            }
            if c == '\n' && name == "<C-m>"@ {
                lemma_name_mark(1);
            }
            if c == '\n' && name == "<C-M>"@ {
                lemma_name_mark(2);
            }
            if c == ' ' && name == "<Space>"@ {
                lemma_name_mark(3);
            }
            if c == '\t' && name == "<Tab>"@ {
                lemma_name_mark(4);
            }
            if c == '\t' && name == "<C-i>"@ {
                lemma_name_mark(5);
            }
            if c == '\t' && name == "<C-I>"@ {
                lemma_name_mark(6);
            }
        },
        Key::Esc => {
            if name == "<Esc>"@ {
                lemma_name_mark(7);
            }
            if name == "<C-[>"@ {
                lemma_name_mark(8);
            }
        },
        Key::End => {
            if name == "<End>"@ {
                lemma_name_mark(9);
            }
        },
        Key::Home => {
            if name == "<Home>"@ {
                lemma_name_mark(10);
            }
        },
        Key::PageUp => {
            if name == "<PgUp>"@ {
                lemma_name_mark(11);
            }
        },
        Key::PageDown => {
            if name == "<PgDown>"@ {
                lemma_name_mark(12);
            }
        },
        Key::Left => {
            if name == "<Left>"@ {
                lemma_name_mark(13);
            }
        },
        Key::Right => {
            if name == "<Right>"@ {
                lemma_name_mark(14);
            }
        },
        Key::Up => {
            if name == "<Up>"@ {
                lemma_name_mark(15);
            }
        },
        Key::Down => {
            if name == "<Down>"@ {
                lemma_name_mark(16);
            }
        },
        Key::Backspace => {
            if name == "<Backspace>"@ {
                lemma_name_mark(17);
            }
        },
        Key::Delete => {
            if name == "<Delete>"@ {
                lemma_name_mark(18);
            }
        },
        _ => {},
    }
}

/// A key that has a name is written by it, a character of its own by itself, and a function key by
/// its number.
pub proof fn law_keys_are_written_by_name(k: Key, keys: Seq<Key>, more: Seq<Key>)
    ensures
        is_read_back(k) && !(k is Char) && !(k is Ctrl) ==> stands_for(key_text(k), k),
        k == Key::Char(' ') || k == Key::Char('\n') || k == Key::Char('\t') ==> stands_for(
            key_text(k),
            k,
        ),
        k matches Key::Char(c) ==> c != ' ' && c != '\n' && c != '\t' ==> key_text(k) == seq![c],
        k matches Key::F(n) ==> exists|digits: Seq<char>|
            value_of(digits) == n && key_text(k) == #[trigger] ("<F"@ + digits + ">"@),
        keys_text(keys + more) == keys_text(keys) + keys_text(more),
    decreases more.len(),
{
    if let Key::F(n) = k {
        law_decimal_stands_for_the_number(n as nat);
        assert(value_of(decimal(n as nat)) == n && key_text(k) == "<F"@ + decimal(n as nat) + ">"@);
    }
    if more.len() == 0 {
        assert(keys + more =~= keys);
        assert(keys_text(keys) + keys_text(more) =~= keys_text(keys));
    } else {
        law_keys_are_written_by_name(k, keys, more.drop_last());
        assert((keys + more).drop_last() =~= keys + more.drop_last());
        assert((keys + more).last() == more.last());
        assert(keys_text(keys + more) =~= keys_text(keys) + keys_text(more));
    }
}

} // verus!
