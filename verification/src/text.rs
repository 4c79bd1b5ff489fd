//! Character-level operations on strings, and the standard library calls they rest on.

use vstd::arithmetic::power::{lemma_pow1, pow};
use vstd::prelude::*;
use vstd::string::*;
use vstd::utf8::{encode_scalar, encode_utf8};

verus! {

/// `String::push` appends one character at the end.
pub assume_specification[ String::push ](s: &mut String, c: char)
    ensures
        final(s)@ == old(s)@.push(c),
;

/// `String::clear` removes every character.
pub assume_specification[ String::clear ](s: &mut String)
    ensures
        final(s)@ == Seq::<char>::empty(),
;

/// What `str::to_lowercase` returns for a text.
pub uninterp spec fn lowercase(s: Seq<char>) -> Seq<char>;

/// Calls `str::to_lowercase`. The claim is only that the result depends on the characters of the
/// argument and nothing else; the Unicode case mapping itself is not written out.
#[verifier::external_body]
pub(crate) fn to_lowercase(s: &str) -> (res: String)
    ensures
        res@ == lowercase(s@),
{
    s.to_lowercase()
}

/// What the standard library prints for a text under `{:?}`.
pub uninterp spec fn debug_text(s: Seq<char>) -> Seq<char>;

/// Formats a `str` with `{:?}`. The claim is only that the result depends on the characters of the
/// argument and nothing else; the escaping rules are not written out.
#[verifier::external_body]
pub(crate) fn format_debug_text(s: &str) -> (res: String)
    ensures
        res@ == debug_text(s@),
{
    format!("{:?}", s)
}

/// What the standard library prints for a character under `{:?}`.
pub uninterp spec fn debug_char(c: char) -> Seq<char>;

/// Formats a `char` with `{:?}`. The claim is only that the result depends on the character and
/// nothing else; the escaping rules are not written out.
#[verifier::external_body]
pub(crate) fn format_debug_char(c: char) -> (res: String)
    ensures
        res@ == debug_char(c),
{
    format!("{:?}", c)
}

/// Whether a character is whitespace: the characters to which Unicode gives the property
/// `White_Space`.
pub open spec fn is_white(c: char) -> bool {
    ||| 0x9 <= c as u32 <= 0xd
    ||| c as u32 == 0x20
    ||| c as u32 == 0x85
    ||| c as u32 == 0xa0
    ||| c as u32 == 0x1680
    ||| 0x2000 <= c as u32 <= 0x200a
    ||| c as u32 == 0x2028
    ||| c as u32 == 0x2029
    ||| c as u32 == 0x202f
    ||| c as u32 == 0x205f
    ||| c as u32 == 0x3000
}

/// Whether a character is whitespace.
fn is_whitespace(c: char) -> (res: bool)
    ensures
        res == is_white(c),
{
    match c as u32 {
        0x9..=0xd | 0x20 | 0x85 | 0xa0 | 0x1680 | 0x2000..=0x200a | 0x2028 | 0x2029 | 0x202f
        | 0x205f | 0x3000 => true,
        _ => false,
    }
}

/// A text without the whitespace at its start.
pub open spec fn trimmed_start(s: Seq<char>) -> Seq<char>
    decreases s.len(),
{
    if s.len() > 0 && is_white(s[0]) {
        trimmed_start(s.skip(1))
    } else {
        s
    }
}

/// A text without the whitespace at its end.
pub open spec fn trimmed_end(s: Seq<char>) -> Seq<char>
    decreases s.len(),
{
    if s.len() > 0 && is_white(s.last()) {
        trimmed_end(s.drop_last())
    } else {
        s
    }
}

/// A text without the whitespace at its start and at its end.
pub fn trim(s: &str) -> (res: String)
    ensures
        res@ == trimmed_end(trimmed_start(s@)),
{
    let chars = chars_of(s);
    let mut from: usize = 0;
    proof {
        assert(s@.skip(0) =~= s@);
    }
    while from < chars.len() && is_whitespace(chars[from])
        invariant
            chars@ == s@,
            from <= s@.len(),
            trimmed_start(s@) == trimmed_start(s@.skip(from as int)),
        decreases s@.len() - from,
    {
        proof {
            assert(s@.skip(from as int).skip(1) =~= s@.skip(from + 1));
        }
        from = from + 1;
    }
    let ghost rest = s@.skip(from as int);
    let mut to: usize = chars.len();
    proof {
        assert(s@.subrange(from as int, to as int) =~= rest);
    }
    while to > from && is_whitespace(chars[to - 1])
        invariant
            chars@ == s@,
            from <= to <= s@.len(),
            trimmed_end(rest) == trimmed_end(s@.subrange(from as int, to as int)),
        decreases to - from,
    {
        proof {
            assert(s@.subrange(from as int, to as int).drop_last() =~= s@.subrange(
                from as int,
                to - 1,
            ));
        }
        to = to - 1;
    }
    string_of(&chars, from, to)
}

/// The characters of a string, in order.
pub fn chars_of(s: &str) -> (res: Vec<char>)
    ensures
        res@ == s@,
{
    let mut out: Vec<char> = Vec::new();
    for c in it: s.chars()
        invariant
            it.seq() == s@,
            out@ == s@.take(it.index() as int),
    {
        out.push(c);
    }
    proof {
        assert(s@.take(s@.len() as int) =~= s@);
    }
    out
}

/// The string made of the characters of `chars` from position `from` up to position `to`.
pub fn string_of(chars: &Vec<char>, from: usize, to: usize) -> (res: String)
    requires
        from <= to <= chars@.len(),
    ensures
        res@ == chars@.subrange(from as int, to as int),
{
    let mut out = String::new();
    let mut i: usize = from;
    while i < to
        invariant
            from <= i <= to <= chars@.len(),
            out@ == chars@.subrange(from as int, i as int),
        decreases to - i,
    {
        out.push(chars[i]);
        i = i + 1;
    }
    out
}

/// The number of bytes that a character takes in UTF-8.
pub open spec fn char_bytes(c: char) -> int {
    if (c as u32) < 0x80 {
        1
    } else if (c as u32) < 0x800 {
        2
    } else if (c as u32) < 0x1_0000 {
        3
    } else {
        4
    }
}

/// The byte at which the character with position `i` starts: the number of bytes that the
/// characters before it take in UTF-8.
pub open spec fn byte_at(s: Seq<char>, i: int) -> int
    decreases i,
{
    if i <= 0 {
        0
    } else {
        byte_at(s, i - 1) + char_bytes(s[i - 1])
    }
}

/// The position of the first character, at or after `from`, that does not start before a byte; the
/// length where there is none.
pub open spec fn char_at(s: Seq<char>, byte: int, from: int) -> int
    decreases s.len() - from,
{
    if from >= s.len() || byte_at(s, from) >= byte {
        from
    } else {
        char_at(s, byte, from + 1)
    }
}

/// Characters further back start at higher bytes.
pub proof fn lemma_byte_at_grows(s: Seq<char>, i: int, j: int)
    requires
        0 <= i <= j,
    ensures
        0 <= byte_at(s, i) <= byte_at(s, j),
        i < j ==> byte_at(s, i) < byte_at(s, j),
    decreases j,
{
    if i < j {
        lemma_byte_at_grows(s, i, j - 1);
    } else if 0 < i {
        lemma_byte_at_grows(s, i - 1, i - 1);
    }
}

/// The byte at which a character starts leads back to the character.
pub proof fn law_byte_leads_back_to_its_character(s: Seq<char>, i: int, from: int)
    requires
        0 <= from <= i <= s.len(),
    ensures
        char_at(s, byte_at(s, i), from) == i,
    decreases i - from,
{
    if from < i {
        lemma_byte_at_grows(s, from, i);
        law_byte_leads_back_to_its_character(s, i, from + 1);
    }
}

proof fn lemma_byte_at_skip(s: Seq<char>, i: int)
    requires
        0 < i <= s.len(),
    ensures
        byte_at(s, i) == char_bytes(s[0]) + byte_at(s.drop_first(), i - 1),
    decreases i,
{
    if i > 1 {
        lemma_byte_at_skip(s, i - 1);
    } else {
        assert(byte_at(s, 0) == 0);
        assert(byte_at(s.drop_first(), 0) == 0);
    }
}

proof fn lemma_char_bytes(c: char)
    ensures
        encode_scalar(c as u32).len() == char_bytes(c),
{
}

/// Behind the last character is the end of the text's UTF-8 encoding.
pub proof fn lemma_byte_at_end(s: Seq<char>)
    ensures
        byte_at(s, s.len() as int) == encode_utf8(s).len(),
    decreases s.len(),
{
    if s.len() > 0 {
        lemma_byte_at_skip(s, s.len() as int);
        lemma_byte_at_end(s.drop_first());
        lemma_char_bytes(s[0]);
    }
}

/// The number of bytes that a character takes in UTF-8.
fn bytes_of(c: char) -> (res: usize)
    ensures
        res == char_bytes(c),
{
    let n: u32 = c as u32;
    if n < 0x80 {
        1
    } else if n < 0x800 {
        2
    } else if n < 0x1_0000 {
        3
    } else {
        4
    }
}

/// The byte at which the character with a position starts.
pub fn byte_position(chars: &Vec<char>, i: usize) -> (res: usize)
    requires
        i <= chars@.len(),
        byte_at(chars@, chars@.len() as int) <= usize::MAX,
    ensures
        res == byte_at(chars@, i as int),
{
    let mut at: usize = 0;
    let mut byte: usize = 0;
    while at < i
        invariant
            at <= i <= chars@.len(),
            byte == byte_at(chars@, at as int),
            byte_at(chars@, chars@.len() as int) <= usize::MAX,
        decreases i - at,
    {
        proof {
            lemma_byte_at_grows(chars@, at + 1, chars@.len() as int);
        }
        byte = byte + bytes_of(chars[at]);
        at = at + 1;
    }
    byte
}

/// The position of the first character that does not start before a byte.
pub fn char_position(chars: &Vec<char>, byte: usize) -> (res: usize)
    ensures
        res == char_at(chars@, byte as int, 0),
        res <= chars@.len(),
{
    let mut at: usize = 0;
    let mut left: usize = byte;
    while at < chars.len() && left > 0
        invariant
            at <= chars@.len(),
            0 < left ==> left == byte - byte_at(chars@, at as int),
            left == 0 ==> byte <= byte_at(chars@, at as int),
            char_at(chars@, byte as int, 0) == char_at(chars@, byte as int, at as int),
        decreases chars@.len() - at,
    {
        let n: usize = bytes_of(chars[at]);
        left = if n < left {
            left - n
        } else {
            0
        };
        at = at + 1;
    }
    at
}

/// A higher byte does not lead to an earlier character.
pub proof fn lemma_char_at_grows(s: Seq<char>, a: int, b: int, from: int)
    requires
        a <= b,
        0 <= from <= s.len(),
    ensures
        from <= char_at(s, a, from) <= char_at(s, b, from) <= s.len(),
    decreases s.len() - from,
{
    if from < s.len() {
        lemma_char_at_grows(s, a, b, from + 1);
    }
}

/// Whether two strings hold the same characters.
pub fn same(a: &str, b: &str) -> (res: bool)
    ensures
        res == (a@ == b@),
{
    let x: String = a.to_owned();
    let y: String = b.to_owned();
    x == y
}

/// The first string followed by the second.
pub fn joined(a: &str, b: &str) -> (res: String)
    ensures
        res@ == a@ + b@,
{
    let mut out: String = a.to_owned();
    out.append(b);
    out
}

/// A text between two others.
pub fn embedded(before: &str, text: &str, after: &str) -> (res: String)
    ensures
        res@ == before@ + text@ + after@,
{
    let mut s = joined(before, text);
    s.append(after);
    s
}

/// Whether `part` occurs in `whole` at position `at`.
pub open spec fn occurs_at(whole: Seq<char>, part: Seq<char>, at: int) -> bool {
    0 <= at && at + part.len() <= whole.len() && whole.subrange(at, at + part.len()) == part
}

/// Whether `part` occurs anywhere in `whole`.
pub open spec fn contains_text(whole: Seq<char>, part: Seq<char>) -> bool {
    exists|at: int| occurs_at(whole, part, at)
}

/// Whether `part` stands in `whole` starting at position `at`.
pub fn stands_at(whole: &Vec<char>, part: &Vec<char>, at: usize) -> (res: bool)
    ensures
        res == occurs_at(whole@, part@, at as int),
{
    if part.len() > whole.len() || at > whole.len() - part.len() {
        return false;
    }
    let end: usize = at + part.len();
    let mut i: usize = 0;
    while i < part.len()
        invariant
            i <= part@.len(),
            end == at + part@.len(),
            end <= whole@.len(),
            forall|j: int| 0 <= j < i ==> whole@[at + j] == part@[j],
        decreases part@.len() - i,
    {
        if whole[at + i] != part[i] {
            proof {
                assert(whole@.subrange(at as int, at + part@.len())[i as int] == whole@[at + i]);
            }
            return false;
        }
        i = i + 1;
    }
    proof {
        assert(whole@.subrange(at as int, at + part@.len()) =~= part@);
    }
    true
}

/// Whether `part` occurs anywhere in `whole`.
pub fn contains(whole: &str, part: &str) -> (res: bool)
    ensures
        res == contains_text(whole@, part@),
{
    let w = chars_of(whole);
    let p = chars_of(part);
    let mut at: usize = 0;
    while at < w.len()
        invariant
            w@ == whole@,
            p@ == part@,
            at <= w@.len(),
            forall|k: int| 0 <= k < at ==> !occurs_at(w@, p@, k),
        decreases w@.len() - at,
    {
        if stands_at(&w, &p, at) {
            return true;
        }
        at = at + 1;
    }
    stands_at(&w, &p, at)
}

/// The position of the first character equal to `c` at or after `from`, or the length.
pub open spec fn first_at(s: Seq<char>, c: char, from: int) -> int
    decreases s.len() - from,
{
    if from >= s.len() {
        s.len() as int
    } else if s[from] == c {
        from
    } else {
        first_at(s, c, from + 1)
    }
}

/// Lexicographic order by code point, which is also the order of the UTF-8 bytes.
pub open spec fn text_before(a: Seq<char>, b: Seq<char>) -> bool
    decreases a.len(),
{
    if b.len() == 0 {
        false
    } else if a.len() == 0 {
        true
    } else if a[0] != b[0] {
        (a[0] as int) < (b[0] as int)
    } else {
        text_before(a.skip(1), b.skip(1))
    }
}

/// Whether `a` comes strictly before `b` in lexicographic order by code point.
pub fn comes_before(a: &str, b: &str) -> (res: bool)
    ensures
        res == text_before(a@, b@),
{
    let x = chars_of(a);
    let y = chars_of(b);
    let mut i: usize = 0;
    proof {
        assert(x@.skip(0) =~= x@);
        assert(y@.skip(0) =~= y@);
    }
    while i < x.len() && i < y.len()
        invariant
            x@ == a@,
            y@ == b@,
            i <= x@.len(),
            i <= y@.len(),
            text_before(a@, b@) == text_before(x@.skip(i as int), y@.skip(i as int)),
        decreases x@.len() - i,
    {
        if x[i] != y[i] {
            return x[i] < y[i];
        }
        proof {
            assert(x@.skip(i as int).skip(1) =~= x@.skip(i + 1));
            assert(y@.skip(i as int).skip(1) =~= y@.skip(i + 1));
        }
        i = i + 1;
    }
    i < y.len()
}

/// No text comes before itself.
pub proof fn lemma_before_irreflexive(a: Seq<char>)
    ensures
        !text_before(a, a),
    decreases a.len(),
{
    if a.len() > 0 {
        lemma_before_irreflexive(a.skip(1));
    }
}

/// The order is transitive.
pub proof fn lemma_before_transitive(a: Seq<char>, b: Seq<char>, c: Seq<char>)
    requires
        text_before(a, b),
        text_before(b, c),
    ensures
        text_before(a, c),
    decreases a.len(),
{
    if a.len() > 0 && a[0] == b[0] && b[0] == c[0] {
        lemma_before_transitive(a.skip(1), b.skip(1), c.skip(1));
    }
}

/// Two different texts are ordered one way or the other.
pub proof fn lemma_before_total(a: Seq<char>, b: Seq<char>)
    ensures
        a == b || text_before(a, b) || text_before(b, a),
    decreases a.len(),
{
    if a.len() == 0 || b.len() == 0 {
        if a.len() == 0 && b.len() == 0 {
            assert(a =~= b);
        }
    } else if a[0] == b[0] {
        lemma_before_total(a.skip(1), b.skip(1));
        if a.skip(1) == b.skip(1) {
            assert(a =~= seq![a[0]] + a.skip(1));
            assert(b =~= seq![b[0]] + b.skip(1));
        }
    }
}

/// The decimal digits of a number.
pub open spec fn decimal(n: nat) -> Seq<char>
    decreases n,
{
    if n < 10 {
        seq![digit(n)]
    } else {
        decimal(n / 10).push(digit(n % 10))
    }
}

/// The character of a number below ten.
pub open spec fn digit(n: nat) -> char {
    (('0' as int) + n) as char
}

/// The character of a number below ten.
fn digit_of(n: u64) -> (res: char)
    requires
        n < 10,
    ensures
        res == digit(n as nat),
{
    if n == 0 {
        '0'
    } else if n == 1 {
        '1'
    } else if n == 2 {
        '2'
    } else if n == 3 {
        '3'
    } else if n == 4 {
        '4'
    } else if n == 5 {
        '5'
    } else if n == 6 {
        '6'
    } else if n == 7 {
        '7'
    } else if n == 8 {
        '8'
    } else {
        '9'
    }
}

/// The decimal digits of a number.
pub fn text_of_decimal(n: u64) -> (res: String)
    ensures
        res@ == decimal(n as nat),
    decreases n,
{
    if n < 10 {
        let mut s = String::new();
        s.push(digit_of(n));
        proof {
            assert(s@ =~= seq![digit(n as nat)]);
        }
        s
    } else {
        let mut s = text_of_decimal(n / 10);
        s.push(digit_of(n % 10));
        s
    }
}

/// A number below a power of ten has no more digits than that power.
proof fn lemma_decimal_len(n: nat, digits: nat)
    requires
        digits > 0,
        n < pow(10, digits),
    ensures
        0 < decimal(n).len() <= digits,
    decreases digits,
{
    lemma_pow1(10);
    if n >= 10 {
        assert(digits > 1);
        reveal(pow);
        lemma_decimal_len(n / 10, (digits - 1) as nat);
    }
}

/// No number of 64 bits has more than 20 digits.
pub proof fn lemma_u64_digits(n: u64)
    ensures
        0 < decimal(n as nat).len() <= 20,
{
    reveal_with_fuel(pow, 21);
    assert(pow(10, 20) == 100_000_000_000_000_000_000);
    lemma_decimal_len(n as nat, 20);
}

/// Whether all characters of a text are whitespace.
pub open spec fn all_white(s: Seq<char>) -> bool {
    forall|i: int| 0 <= i < s.len() ==> is_white(#[trigger] s[i])
}

proof fn lemma_trimmed_start(before: Seq<char>, s: Seq<char>)
    requires
        all_white(before),
        s.len() > 0 ==> !is_white(s[0]),
    ensures
        trimmed_start(before + s) == s,
    decreases before.len(),
{
    if before.len() == 0 {
        assert(before + s =~= s);
    } else {
        let rest = before.skip(1);
        assert((before + s)[0] == before[0]);
        assert((before + s).skip(1) =~= rest + s);
        assert forall|i: int| 0 <= i < rest.len() implies is_white(#[trigger] rest[i]) by {
            assert(rest[i] == before[i + 1]);
        }
        lemma_trimmed_start(rest, s);
    }
}

proof fn lemma_trimmed_end(s: Seq<char>, after: Seq<char>)
    requires
        all_white(after),
        s.len() > 0 ==> !is_white(s.last()),
    ensures
        trimmed_end(s + after) == s,
    decreases after.len(),
{
    if after.len() == 0 {
        assert(s + after =~= s);
    } else {
        let rest = after.drop_last();
        assert((s + after).last() == after.last());
        assert(is_white(after[after.len() - 1]));
        assert((s + after).drop_last() =~= s + rest);
        assert forall|i: int| 0 <= i < rest.len() implies is_white(#[trigger] rest[i]) by {
            assert(rest[i] == after[i]);
        }
        lemma_trimmed_end(s, rest);
    }
}

/// A text without the whitespace around it is what stands between the whitespace. Nothing is left
/// of whitespace alone.
pub proof fn law_trimming_takes_whitespace_away(before: Seq<char>, s: Seq<char>, after: Seq<char>)
    requires
        all_white(before),
        all_white(after),
        s.len() > 0 ==> !is_white(s[0]) && !is_white(s.last()),
    ensures
        trimmed_end(trimmed_start(before + s + after)) == s,
{
    if s.len() == 0 {
        assert(before + s + after =~= (before + after) + s);
        let white = before + after;
        assert forall|i: int| 0 <= i < white.len() implies is_white(#[trigger] white[i]) by {
            if i < before.len() {
                assert(white[i] == before[i]);
            } else {
                assert(white[i] == after[i - before.len()]);
            }
        }
        lemma_trimmed_start(white, s);
    } else {
        let rest = s + after;
        assert(before + s + after =~= before + rest);
        assert(rest[0] == s[0]);
        lemma_trimmed_start(before, rest);
        lemma_trimmed_end(s, after);
    }
}

/// A blank, a tab and the ends of lines are whitespace. No other character of printed text in ASCII
/// is.
pub proof fn law_printed_characters_are_not_white(c: char)
    ensures
        is_white(' '),
        is_white('\t'),
        is_white('\n'),
        is_white('\r'),
        0x21 <= c as u32 <= 0x7e ==> !is_white(c),
{
}

/// Texts are in order by the first character in which they differ. One that goes on where another
/// one ends comes behind it.
pub proof fn law_texts_are_in_order(
    common: Seq<char>,
    x: char,
    a: Seq<char>,
    y: char,
    b: Seq<char>,
)
    requires
        x != y,
    ensures
        text_before(common + seq![x] + a, common + seq![y] + b) <==> (x as u32) < (y as u32),
        text_before(common, common + seq![y] + b),
        !text_before(common + a, common),
    decreases common.len(),
{
    let p = common + seq![x] + a;
    let q = common + seq![y] + b;
    if common.len() == 0 {
        assert(p[0] == x);
        assert(q[0] == y);
    } else {
        let rest = common.skip(1);
        law_texts_are_in_order(rest, x, a, y, b);
        assert(p[0] == common[0] && q[0] == common[0]);
        assert(p.skip(1) =~= rest + seq![x] + a);
        assert(q.skip(1) =~= rest + seq![y] + b);
        assert((common + a)[0] == common[0]);
        assert((common + a).skip(1) =~= rest + a);
    }
}

/// The number that digits stand for.
pub open spec fn value_of(digits: Seq<char>) -> int
    decreases digits.len(),
{
    if digits.len() == 0 {
        0
    } else {
        10 * value_of(digits.drop_last()) + (digits.last() as int - '0' as int)
    }
}

/// The decimal form of a number is made of digits that stand for the number, without a zero in front
/// of it.
pub proof fn law_decimal_stands_for_the_number(n: nat)
    ensures
        value_of(decimal(n)) == n,
        decimal(n).len() > 0,
        forall|i: int| 0 <= i < decimal(n).len() ==> '0' <= #[trigger] decimal(n)[i] <= '9',
        decimal(n).len() > 1 ==> decimal(n)[0] != '0',
    decreases n,
{
    reveal_with_fuel(value_of, 2);
    if n < 10 {
        let one = seq![digit(n)];
        assert(one.drop_last().len() == 0);
        assert(one.last() == digit(n));
    } else {
        law_decimal_stands_for_the_number(n / 10);
        let front = decimal(n / 10);
        let all = front.push(digit(n % 10));
        assert(all.drop_last() =~= front);
        assert(all.last() == digit(n % 10));
        assert(all[0] == front[0]);
        assert forall|i: int| 0 <= i < all.len() implies '0' <= #[trigger] all[i] <= '9' by {
            if i < front.len() {
                assert(all[i] == front[i]);
            }
        }
        if front.len() == 1 {
            assert(n / 10 > 0);
            assert(value_of(front) == front[0] as int - '0' as int) by {
                assert(front.drop_last().len() == 0);
            }
        }
    }
}

} // verus!
