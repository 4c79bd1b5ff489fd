//! Message filters: their tokens, their grammar, and which events they select.

use vstd::prelude::*;
use vstd::string::*;

use crate::event::Event;
use crate::event::EventContent;
use crate::event::RoomMessage;
use crate::pattern::regex_error;
use crate::pattern::regex_is_match;
use crate::pattern::Pattern;
use crate::text::byte_at;
use crate::text::byte_position;
use crate::text::char_at;
use crate::text::char_position;
use crate::text::chars_of;
use crate::text::debug_char;
use crate::text::debug_text;
use crate::text::format_debug_char;
use crate::text::format_debug_text;
use crate::text::law_byte_leads_back_to_its_character;
use crate::text::lemma_byte_at_end;
use crate::text::lemma_byte_at_grows;
use crate::text::lemma_char_at_grows;
use crate::text::string_of;
use crate::tui_app::tui::messages::law_answer_is_shown_without_quotation;
use crate::tui_app::tui::messages::quotation;
use crate::tui_app::tui::messages::strip_body;
use crate::tui_app::tui::messages::stripped;

verus! {

/// The tokens of a filter.
#[derive(Debug, PartialEq)]
pub enum Token {
    LParen,
    RParen,
    Bar,
    Exclamation,
    Type(char),
    Text(String),
    Whitespace(String),
}

/// The tokens of a filter, with texts as sequences of characters.
pub enum TokenView {
    LParen,
    RParen,
    Bar,
    Exclamation,
    Type(char),
    Text(Seq<char>),
    Whitespace(Seq<char>),
}

impl View for Token {
    type V = TokenView;

    open spec fn view(&self) -> TokenView {
        match *self {
            Token::LParen => TokenView::LParen,
            Token::RParen => TokenView::RParen,
            Token::Bar => TokenView::Bar,
            Token::Exclamation => TokenView::Exclamation,
            Token::Type(c) => TokenView::Type(c),
            Token::Text(s) => TokenView::Text(s@),
            Token::Whitespace(s) => TokenView::Whitespace(s@),
        }
    }
}

/// The views of a sequence of tokens.
pub open spec fn token_views(tokens: Seq<Token>) -> Seq<TokenView> {
    Seq::new(tokens.len(), |i: int| tokens[i]@)
}

/// Why a filter has no tokens. Positions count the bytes of the text in UTF-8.
#[derive(Debug, PartialEq, Eq, Structural, Clone, Copy)]
pub enum TokenizeError {
    /// A `~` at the end; its position.
    UnfinishedType(usize),
    /// A string that is not closed; the position of its opening quote.
    UnfinishedString(usize),
    /// An unknown escape; the position of its backslash, and of what follows the escaped
    /// character, if anything does.
    InvalidEscape(usize, Option<usize>),
}

/// The characters that separate words.
pub open spec fn is_space(c: char) -> bool {
    c == ' ' || c == '\t' || c == '\n'
}

/// The characters that end an unquoted word.
pub open spec fn ends_word(c: char) -> bool {
    c == '~' || c == '(' || c == ')' || c == '"' || is_space(c)
}

/// The end of the longest run of spaces that starts at `from`.
pub open spec fn space_end(s: Seq<char>, from: int) -> int
    decreases s.len() - from,
{
    if 0 <= from < s.len() && is_space(s[from]) {
        space_end(s, from + 1)
    } else {
        from
    }
}

/// The end of the longest run of word characters that starts at `from`.
pub open spec fn word_end(s: Seq<char>, from: int) -> int
    decreases s.len() - from,
{
    if 0 <= from < s.len() && !ends_word(s[from]) {
        word_end(s, from + 1)
    } else {
        from
    }
}

/// The character that a backslash and `c` stand for inside a string.
pub open spec fn unescaped(c: char) -> Option<char> {
    if c == 'n' {
        Some('\n')
    } else if c == 't' {
        Some('\t')
    } else if c == '\\' {
        Some('\\')
    } else if c == '"' {
        Some('"')
    } else {
        None
    }
}

/// The rest of a string that was opened at `begin`, read from `at`: its text, and the position
/// behind its closing quote.
pub open spec fn string_rest(s: Seq<char>, begin: int, at: int) -> Result<(Seq<char>, int), TokenizeError>
    decreases s.len() - at,
{
    if at < 0 || at >= s.len() {
        Err(TokenizeError::UnfinishedString(byte_at(s, begin) as usize))
    } else if s[at] == '"' {
        Ok((Seq::empty(), at + 1))
    } else if s[at] == '\\' {
        if at + 1 >= s.len() {
            Err(TokenizeError::UnfinishedString(byte_at(s, begin) as usize))
        } else {
            match unescaped(s[at + 1]) {
                Some(c) => match string_rest(s, begin, at + 2) {
                    Ok((rest, end)) => Ok((seq![c] + rest, end)),
                    Err(e) => Err(e),
                },
                None => Err(
                    TokenizeError::InvalidEscape(
                        byte_at(s, at) as usize,
                        if at + 2 < s.len() {
                            Some(byte_at(s, at + 2) as usize)
                        } else {
                            None
                        },
                    ),
                ),
            }
        }
    } else {
        match string_rest(s, begin, at + 1) {
            Ok((rest, end)) => Ok((seq![s[at]] + rest, end)),
            Err(e) => Err(e),
        }
    }
}

/// The token that starts at `at`, and the position behind it.
pub open spec fn token_at(s: Seq<char>, at: int) -> Result<(TokenView, int), TokenizeError>
    recommends
        0 <= at < s.len(),
{
    let c = s[at];
    if c == '(' {
        Ok((TokenView::LParen, at + 1))
    } else if c == ')' {
        Ok((TokenView::RParen, at + 1))
    } else if c == '|' {
        Ok((TokenView::Bar, at + 1))
    } else if c == '!' {
        Ok((TokenView::Exclamation, at + 1))
    } else if c == '~' {
        if at + 1 < s.len() {
            Ok((TokenView::Type(s[at + 1]), at + 2))
        } else {
            Err(TokenizeError::UnfinishedType(byte_at(s, at) as usize))
        }
    } else if c == '"' {
        match string_rest(s, at, at + 1) {
            Ok((text, end)) => Ok((TokenView::Text(text), end)),
            Err(e) => Err(e),
        }
    } else if is_space(c) {
        let end = space_end(s, at);
        Ok((TokenView::Whitespace(s.subrange(at, end)), end))
    } else {
        let end = word_end(s, at);
        Ok((TokenView::Text(s.subrange(at, end)), end))
    }
}

/// The position up to which a text was read when an error came up: behind the character that
/// follows an invalid escape, if one does, else the end.
pub open spec fn read_until(s: Seq<char>, e: TokenizeError) -> int {
    match e {
        TokenizeError::InvalidEscape(_, Some(next)) => char_at(s, next as int, 0) + 1,
        _ => s.len() as int,
    }
}

/// The tokens of `s` from `at` on.
pub open spec fn tokens_from(s: Seq<char>, at: int) -> Result<Seq<TokenView>, TokenizeError>
    decreases s.len() - at,
{
    if at < 0 || at >= s.len() {
        Ok(Seq::empty())
    } else {
        match token_at(s, at) {
            Ok((token, end)) => {
                if at < end <= s.len() {
                    match tokens_from(s, end) {
                        Ok(rest) => Ok(seq![token] + rest),
                        Err(e) => Err(e),
                    }
                } else {
                    Ok(Seq::empty())
                }
            },
            Err(e) => Err(e),
        }
    }
}

/// Runs of spaces stay inside the text.
pub proof fn lemma_space_end(s: Seq<char>, from: int)
    requires
        0 <= from <= s.len(),
    ensures
        from <= space_end(s, from) <= s.len(),
        from < s.len() && is_space(s[from]) ==> from < space_end(s, from),
    decreases s.len() - from,
{
    if from < s.len() && is_space(s[from]) {
        lemma_space_end(s, from + 1);
    }
}

/// Words stay inside the text.
pub proof fn lemma_word_end(s: Seq<char>, from: int)
    requires
        0 <= from <= s.len(),
    ensures
        from <= word_end(s, from) <= s.len(),
        from < s.len() && !ends_word(s[from]) ==> from < word_end(s, from),
    decreases s.len() - from,
{
    if from < s.len() && !ends_word(s[from]) {
        lemma_word_end(s, from + 1);
    }
}

/// Strings end inside the text.
pub proof fn lemma_string_rest(s: Seq<char>, begin: int, at: int)
    requires
        0 <= at,
    ensures
        string_rest(s, begin, at) matches Ok((_, end)) ==> at < end <= s.len(),
    decreases s.len() - at,
{
    if at < s.len() && s[at] != '"' {
        if s[at] == '\\' {
            if at + 1 < s.len() {
                lemma_string_rest(s, begin, at + 2);
            }
        } else {
            lemma_string_rest(s, begin, at + 1);
        }
    }
}

/// Every token takes at least one character, and no token reaches behind the text.
pub proof fn lemma_token_at(s: Seq<char>, at: int)
    requires
        0 <= at < s.len(),
    ensures
        token_at(s, at) matches Ok((_, end)) ==> at < end <= s.len(),
{
    lemma_space_end(s, at);
    lemma_word_end(s, at);
    lemma_string_rest(s, at, at + 1);
}

/// Reads a string whose opening quote stands at `*at`.
pub fn tok_string(chars: &Vec<char>, at: &mut usize) -> (res: Result<Token, TokenizeError>)
    requires
        *old(at) < chars@.len(),
        chars@[*old(at) as int] == '"',
        byte_at(chars@, chars@.len() as int) <= usize::MAX,
    ensures
        match (res, string_rest(chars@, *old(at) as int, *old(at) + 1)) {
            (Ok(token), Ok((text, end))) => token@ == TokenView::Text(text) && *final(at) == end,
            (Err(e), Err(f)) => e == f && *final(at) == read_until(chars@, e),
            _ => false,
        },
{
    let len: usize = chars.len();
    let begin: usize = *at;
    let mut out = String::new();
    let mut i: usize = begin + 1;
    proof {
        if let Ok((all, _)) = string_rest(chars@, begin as int, i as int) {
            assert(out@ + all =~= all);
        }
    }
    while i < len
        invariant
            begin < i <= len,
            len == chars@.len(),
            byte_at(chars@, len as int) <= usize::MAX,
            *at == begin,
            begin == *old(at),
            match (string_rest(chars@, begin as int, begin + 1), string_rest(
                chars@,
                begin as int,
                i as int,
            )) {
                (Ok((whole, end)), Ok((rest, end2))) => end == end2 && whole == out@ + rest,
                (Err(e), Err(f)) => e == f,
                _ => false,
            },
        decreases len - i,
    {
        let c: char = chars[i];
        if c == '"' {
            *at = i + 1;
            proof {
                assert(out@ + Seq::<char>::empty() =~= out@);
            }
            return Ok(Token::Text(out));
        } else if c == '\\' {
            if i + 1 < len {
                let e: char = chars[i + 1];
                let ghost before = out@;
                if e == 'n' {
                    out.push('\n');
                } else if e == 't' {
                    out.push('\t');
                } else if e == '\\' {
                    out.push('\\');
                } else if e == '"' {
                    out.push('"');
                } else {
                    let end: Option<usize> = if i + 2 < len {
                        proof {
                            law_byte_leads_back_to_its_character(chars@, i + 2, 0);
                        }
                        *at = i + 3;
                        Some(byte_position(chars, i + 2))
                    } else {
                        *at = len;
                        None
                    };
                    return Err(TokenizeError::InvalidEscape(byte_position(chars, i), end));
                }
                proof {
                    let rest = string_rest(chars@, begin as int, i + 2);
                    if let Ok((r, _)) = rest {
                        let escaped = unescaped(e)->0;
                        assert(before + (seq![escaped] + r) =~= before.push(escaped) + r);
                    }
                }
                i = i + 2;
            } else {
                *at = len;
                return Err(TokenizeError::UnfinishedString(byte_position(chars, begin)));
            }
        } else {
            proof {
                if let Ok((r, _)) = string_rest(chars@, begin as int, i + 1) {
                    assert(out@ + (seq![c] + r) =~= out@.push(c) + r);
                }
            }
            out.push(c);
            i = i + 1;
        }
    }
    *at = len;
    Err(TokenizeError::UnfinishedString(byte_position(chars, begin)))
}

/// Reads an unquoted word.
pub fn tok_text(chars: &Vec<char>, at: &mut usize) -> (res: Token)
    requires
        *old(at) <= chars@.len(),
    ensures
        *final(at) == word_end(chars@, *old(at) as int),
        *old(at) <= *final(at) <= chars@.len(),
        res@ == TokenView::Text(chars@.subrange(*old(at) as int, *final(at) as int)),
{
    let begin: usize = *at;
    while *at < chars.len() && !(chars[*at] == '~' || chars[*at] == '(' || chars[*at] == ')'
        || chars[*at] == ' ' || chars[*at] == '\t' || chars[*at] == '\n' || chars[*at] == '"')
        invariant
            begin <= *at <= chars@.len(),
            word_end(chars@, begin as int) == word_end(chars@, *at as int),
        decreases chars@.len() - *at,
    {
        *at = *at + 1;
    }
    Token::Text(string_of(chars, begin, *at))
}

/// Reads a run of spaces.
pub fn tok_whitespace(chars: &Vec<char>, at: &mut usize) -> (res: Token)
    requires
        *old(at) <= chars@.len(),
    ensures
        *final(at) == space_end(chars@, *old(at) as int),
        *old(at) <= *final(at) <= chars@.len(),
        res@ == TokenView::Whitespace(chars@.subrange(*old(at) as int, *final(at) as int)),
{
    let begin: usize = *at;
    while *at < chars.len() && (chars[*at] == ' ' || chars[*at] == '\t' || chars[*at] == '\n')
        invariant
            begin <= *at <= chars@.len(),
            space_end(chars@, begin as int) == space_end(chars@, *at as int),
        decreases chars@.len() - *at,
    {
        *at = *at + 1;
    }
    Token::Whitespace(string_of(chars, begin, *at))
}

/// Reads the token that starts at `*at`.
fn tok_next(chars: &Vec<char>, at: &mut usize) -> (res: Result<Token, TokenizeError>)
    requires
        *old(at) < chars@.len(),
        byte_at(chars@, chars@.len() as int) <= usize::MAX,
    ensures
        match (res, token_at(chars@, *old(at) as int)) {
            (Ok(token), Ok((view, end))) => token@ == view && *final(at) == end,
            (Err(e), Err(f)) => e == f && *final(at) == read_until(chars@, e),
            _ => false,
        },
{
    let len: usize = chars.len();
    let i: usize = *at;
    let c: char = chars[i];
    if c == '(' {
        *at = i + 1;
        Ok(Token::LParen)
    } else if c == ')' {
        *at = i + 1;
        Ok(Token::RParen)
    } else if c == '|' {
        *at = i + 1;
        Ok(Token::Bar)
    } else if c == '!' {
        *at = i + 1;
        Ok(Token::Exclamation)
    } else if c == '~' {
        if i + 1 < len {
            *at = i + 2;
            Ok(Token::Type(chars[i + 1]))
        } else {
            *at = len;
            Err(TokenizeError::UnfinishedType(byte_position(chars, i)))
        }
    } else if c == '"' {
        tok_string(chars, at)
    } else if c == ' ' || c == '\t' || c == '\n' {
        Ok(tok_whitespace(chars, at))
    } else {
        Ok(tok_text(chars, at))
    }
}

/// The tokens of a filter.
pub fn tokenize(s: &str) -> (res: Result<Vec<Token>, TokenizeError>)
    ensures
        match (res, tokens_from(s@, 0)) {
            (Ok(tokens), Ok(views)) => token_views(tokens@) == views,
            (Err(e), Err(f)) => e == f,
            _ => false,
        },
{
    let chars = chars_of(s);
    let _bytes: usize = s.as_bytes().len();
    let mut tokens: Vec<Token> = Vec::new();
    let mut at: usize = 0;
    proof {
        lemma_byte_at_end(s@);
        if let Ok(all) = tokens_from(s@, 0) {
            assert(token_views(tokens@) + all =~= all);
        }
    }
    while at < chars.len()
        invariant
            at <= chars@.len(),
            chars@ == s@,
            byte_at(s@, s@.len() as int) <= usize::MAX,
            match (tokens_from(s@, 0), tokens_from(s@, at as int)) {
                (Ok(all), Ok(rest)) => all == token_views(tokens@) + rest,
                (Err(e), Err(f)) => e == f,
                _ => false,
            },
        decreases chars@.len() - at,
    {
        let ghost begin = at as int;
        let ghost before = tokens@;
        proof {
            lemma_token_at(s@, begin);
        }
        match tok_next(&chars, &mut at) {
            Ok(token) => {
                tokens.push(token);
                proof {
                    if let Ok(rest) = tokens_from(s@, at as int) {
                        assert(token_views(before) + (seq![token@] + rest) =~= token_views(tokens@)
                            + rest);
                    }
                }
            },
            Err(e) => {
                return Err(e);
            },
        }
    }
    proof {
        assert(token_views(tokens@) + Seq::<TokenView>::empty() =~= token_views(tokens@));
    }
    Ok(tokens)
}

/// A filter with its patterns as texts.
pub enum ExprView {
    Sender(Seq<char>),
    Body(Seq<char>),
    Not(Box<ExprView>),
    And(Seq<ExprView>),
    Or(Seq<ExprView>),
}

/// The debug form of one token.
pub open spec fn token_text(t: TokenView) -> Seq<char> {
    match t {
        TokenView::LParen => "LParen"@,
        TokenView::RParen => "RParen"@,
        TokenView::Bar => "Bar"@,
        TokenView::Exclamation => "Exclamation"@,
        TokenView::Type(c) => "Type("@ + debug_char(c) + ")"@,
        TokenView::Text(s) => "Text("@ + debug_text(s) + ")"@,
        TokenView::Whitespace(s) => "Whitespace("@ + debug_text(s) + ")"@,
    }
}

/// The debug forms of several tokens, separated by commas.
pub open spec fn token_texts(t: Seq<TokenView>) -> Seq<char>
    decreases t.len(),
{
    if t.len() == 0 {
        Seq::empty()
    } else if t.len() == 1 {
        token_text(t[0])
    } else {
        token_text(t[0]) + ", "@ + token_texts(t.skip(1))
    }
}

/// The tokens behind the leading spaces.
pub open spec fn after_spaces(t: Seq<TokenView>) -> Seq<TokenView>
    decreases t.len(),
{
    if t.len() > 0 && t[0] is Whitespace {
        after_spaces(t.skip(1))
    } else {
        t
    }
}

/// The words at the start of `t`, appended to `text` with the spaces between them. Spaces that
/// no word follows are dropped; `gap` holds those read so far.
pub open spec fn words(text: Seq<char>, gap: Seq<char>, t: Seq<TokenView>) -> (
    Seq<char>,
    Seq<TokenView>,
)
    decreases t.len(),
{
    if t.len() == 0 {
        (text, t)
    } else {
        match t[0] {
            TokenView::Whitespace(s) => words(text, gap + s, t.skip(1)),
            TokenView::Text(s) => words(text + gap + s, Seq::empty(), t.skip(1)),
            _ => (text, t),
        }
    }
}

/// Why no filter was read, and the tokens that were not read yet.
#[verifier::ext_equal]
pub struct Failure {
    pub message: Seq<char>,
    pub rest: Seq<TokenView>,
}

/// One filter: an optional type, then words.
pub open spec fn item_at(t: Seq<TokenView>) -> Result<(ExprView, Seq<TokenView>), Failure> {
    let typed = t.len() > 0 && t[0] is Type;
    let u = after_spaces(
        if typed {
            t.skip(1)
        } else {
            t
        },
    );
    if u.len() == 0 || !(u[0] is Text) {
        Err(Failure { message: "Missing filter ["@ + token_texts(u) + "]"@, rest: u })
    } else {
        let (text, rest) = words(u[0]->Text_0, Seq::empty(), u.skip(1));
        if !typed || t[0]->Type_0 == 'b' {
            Ok((ExprView::Body(text), rest))
        } else if t[0]->Type_0 == 'f' {
            Ok((ExprView::Sender(text), rest))
        } else {
            Err(Failure { message: "Invalid filter type '"@ + seq![t[0]->Type_0] + "'"@, rest })
        }
    }
}

/// Puts a filter in front of the filters that were read behind it.
pub open spec fn prepended(
    first: ExprView,
    others: Result<(Seq<ExprView>, Seq<TokenView>), Failure>,
) -> Result<(Seq<ExprView>, Seq<TokenView>), Failure> {
    match others {
        Ok((items, rest)) => Ok((seq![first] + items, rest)),
        Err(e) => Err(e),
    }
}

/// The message where no filter was found.
pub open spec fn none_found() -> Seq<char> {
    "Need at least one filter"@
}

/// The filters that must hold together, up to the first token that belongs to none of them.
pub open spec fn conjuncts_at(t: Seq<TokenView>) -> Result<
    (Seq<ExprView>, Seq<TokenView>),
    Failure,
>
    decreases t.len(), 1nat,
{
    proof {
        lemma_after_spaces(t);
    }
    let u = after_spaces(t);
    if u.len() == 0 {
        Ok((Seq::empty(), u))
    } else {
        match u[0] {
            TokenView::Type(_) | TokenView::Text(_) => match item_at(u) {
                Ok((e, rest)) => if rest.len() < t.len() {
                    prepended(e, conjuncts_at(rest))
                } else {
                    Err(Failure { message: Seq::empty(), rest })
                },
                Err(e) => Err(e),
            },
            TokenView::LParen => match group_at(u) {
                Ok((e, rest)) => if rest.len() < t.len() {
                    prepended(e, conjuncts_at(rest))
                } else {
                    Err(Failure { message: Seq::empty(), rest })
                },
                Err(e) => Err(e),
            },
            TokenView::Exclamation => match filter_at(u.skip(1)) {
                Ok((e, rest)) => if rest.len() < t.len() {
                    prepended(ExprView::Not(Box::new(e)), conjuncts_at(rest))
                } else {
                    Err(Failure { message: Seq::empty(), rest })
                },
                Err(e) => Err(e),
            },
            _ => Ok((Seq::empty(), u)),
        }
    }
}

/// Filters that must hold together; a single one stands for itself.
pub open spec fn conjunction_at(t: Seq<TokenView>) -> Result<(ExprView, Seq<TokenView>), Failure>
    decreases t.len(), 2nat,
{
    match conjuncts_at(t) {
        Ok((items, rest)) => if items.len() == 0 {
            Err(Failure { message: none_found(), rest })
        } else if items.len() == 1 {
            Ok((items[0], rest))
        } else {
            Ok((ExprView::And(items), rest))
        },
        Err(e) => Err(e),
    }
}

/// Alternatives separated by bars.
pub open spec fn disjuncts_at(t: Seq<TokenView>) -> Result<
    (Seq<ExprView>, Seq<TokenView>),
    Failure,
>
    decreases t.len(), 3nat,
{
    match conjunction_at(t) {
        Ok((e, rest)) => if rest.len() > 0 && rest[0] is Bar && rest.len() <= t.len() {
            prepended(e, disjuncts_at(rest.skip(1)))
        } else {
            Ok((seq![e], rest))
        },
        Err(e) => Err(e),
    }
}

/// A filter in parentheses.
pub open spec fn group_at(t: Seq<TokenView>) -> Result<(ExprView, Seq<TokenView>), Failure>
    decreases t.len(), 0nat,
{
    if t.len() == 0 {
        Err(Failure { message: Seq::empty(), rest: t })
    } else {
        match filter_at(t.skip(1)) {
            Ok((e, rest)) => if rest.len() > 0 && rest[0] is RParen {
                Ok((e, rest.skip(1)))
            } else {
                Err(Failure { message: "Parenthesis not closed"@, rest })
            },
            Err(e) => Err(e),
        }
    }
}

/// The filter at the start of `t`: one in parentheses, or alternatives; a single alternative
/// stands for itself.
pub open spec fn filter_at(t: Seq<TokenView>) -> Result<(ExprView, Seq<TokenView>), Failure>
    decreases t.len(), 4nat,
{
    if t.len() > 0 && t[0] is LParen {
        group_at(t)
    } else {
        match disjuncts_at(t) {
            Ok((items, rest)) => if items.len() == 1 {
                Ok((items[0], rest))
            } else {
                Ok((ExprView::Or(items), rest))
            },
            Err(e) => Err(e),
        }
    }
}

/// Skipping spaces never adds tokens.
pub proof fn lemma_after_spaces(t: Seq<TokenView>)
    ensures
        after_spaces(t).len() <= t.len(),
        after_spaces(t) == t.skip(t.len() - after_spaces(t).len()),
    decreases t.len(),
{
    if t.len() > 0 && t[0] is Whitespace {
        lemma_after_spaces(t.skip(1));
        assert(t.skip(1).skip(t.len() - 1 - after_spaces(t).len()) =~= t.skip(
            t.len() - after_spaces(t).len(),
        ));
    } else {
        assert(t.skip(0) =~= t);
    }
}

/// A filter expression whose patterns are not compiled yet.
#[derive(Debug, PartialEq, Eq)]
pub enum FilterExpression {
    Sender(String),
    Body(String),
    Not(Box<FilterExpression>),
    And(Vec<FilterExpression>),
    Or(Vec<FilterExpression>),
}

impl FilterExpression {
    /// The expression with its patterns as texts.
    pub open spec fn expr(self) -> ExprView
        decreases self,
    {
        match self {
            FilterExpression::Sender(s) => ExprView::Sender(s@),
            FilterExpression::Body(s) => ExprView::Body(s@),
            FilterExpression::Not(e) => ExprView::Not(Box::new((*e).expr())),
            FilterExpression::And(v) => ExprView::And(Self::exprs(v@)),
            FilterExpression::Or(v) => ExprView::Or(Self::exprs(v@)),
        }
    }

    /// Several expressions with their patterns as texts.
    pub open spec fn exprs(v: Seq<FilterExpression>) -> Seq<ExprView>
        decreases v,
    {
        Seq::new(
            v.len(),
            |i: int|
                if 0 <= i < v.len() {
                    v[i].expr()
                } else {
                    arbitrary()
                },
        )
    }
}

impl View for FilterExpression {
    type V = ExprView;

    open spec fn view(&self) -> ExprView {
        self.expr()
    }
}

/// The debug form of one token.
fn format_token(t: &Token) -> (res: String)
    ensures
        res@ == token_text(t@),
{
    match t {
        Token::LParen => "LParen".to_owned(),
        Token::RParen => "RParen".to_owned(),
        Token::Bar => "Bar".to_owned(),
        Token::Exclamation => "Exclamation".to_owned(),
        Token::Type(c) => {
            let mut out = "Type(".to_owned();
            out.append(format_debug_char(*c).as_str());
            out.append(")");
            out
        },
        Token::Text(s) => {
            let mut out = "Text(".to_owned();
            out.append(format_debug_text(s.as_str()).as_str());
            out.append(")");
            out
        },
        Token::Whitespace(s) => {
            let mut out = "Whitespace(".to_owned();
            out.append(format_debug_text(s.as_str()).as_str());
            out.append(")");
            out
        },
    }
}

/// The debug forms of the tokens from `at` on, separated by commas.
fn format_tokens(tokens: &Vec<Token>, at: usize) -> (res: String)
    requires
        at <= tokens@.len(),
    ensures
        res@ == token_texts(token_views(tokens@).skip(at as int)),
{
    let ghost all = token_views(tokens@).skip(at as int);
    let len: usize = tokens.len();
    let mut out = String::new();
    let mut i: usize = at;
    while i < len
        invariant
            at <= i <= len,
            len == tokens@.len(),
            all == token_views(tokens@).skip(at as int),
            token_texts(all) == out@ + token_texts(token_views(tokens@).skip(i as int)),
        decreases len - i,
    {
        let ghost rest = token_views(tokens@).skip(i as int);
        let ghost before = out@;
        out.append(format_token(&tokens[i]).as_str());
        if i + 1 < len {
            out.append(", ");
        }
        proof {
            assert(rest.skip(1) =~= token_views(tokens@).skip(i + 1));
            let tail = token_texts(token_views(tokens@).skip(i + 1));
            if i + 1 < len {
                assert(before + (token_text(rest[0]) + ", "@ + tail) =~= out@ + tail);
            } else {
                assert(before + token_text(rest[0]) =~= out@ + tail);
            }
        }
        i = i + 1;
    }
    proof {
        assert(out@ + Seq::<char>::empty() =~= out@);
    }
    out
}

/// Steps over spaces.
pub fn skip_whitespace(tokens: &Vec<Token>, at: &mut usize)
    requires
        *old(at) <= tokens@.len(),
    ensures
        *old(at) <= *final(at) <= tokens@.len(),
        token_views(tokens@).skip(*final(at) as int) == after_spaces(
            token_views(tokens@).skip(*old(at) as int),
        ),
{
    let ghost all = token_views(tokens@);
    let ghost begin = *at as int;
    while *at < tokens.len()
        invariant
            begin == *old(at),
            begin <= *at <= tokens@.len(),
            all == token_views(tokens@),
            after_spaces(all.skip(begin)) == after_spaces(all.skip(*at as int)),
        decreases tokens@.len() - *at,
    {
        match &tokens[*at] {
            Token::Whitespace(_) => {
                proof {
                    assert(all.skip(*at as int).skip(1) =~= all.skip(*at + 1));
                }
                *at = *at + 1;
            },
            _ => {
                return;
            },
        }
    }
}

/// Reads one filter: an optional type, then words.
pub fn parse_filter_item(tokens: &Vec<Token>, at: &mut usize) -> (res: Result<
    FilterExpression,
    String,
>)
    requires
        *old(at) <= tokens@.len(),
    ensures
        *old(at) <= *final(at) <= tokens@.len(),
        match (res, item_at(token_views(tokens@).skip(*old(at) as int))) {
            (Ok(e), Ok((view, rest))) => e@ == view && rest == token_views(tokens@).skip(
                *final(at) as int,
            ) && *old(at) < *final(at),
            (Err(m), Err(f)) => m@ == f.message && f.rest == token_views(tokens@).skip(
                *final(at) as int,
            ),
            _ => false,
        },
{
    let ghost all = token_views(tokens@);
    let ghost begin = *at as int;
    let len: usize = tokens.len();
    let mut kind: Option<char> = None;
    if *at < len {
        match &tokens[*at] {
            Token::Type(c) => {
                kind = Some(*c);
                proof {
                    assert(all.skip(begin).skip(1) =~= all.skip(begin + 1));
                }
                *at = *at + 1;
            },
            _ => {},
        }
    }
    skip_whitespace(tokens, at);
    let ghost u = all.skip(*at as int);
    let mut output: String = if *at < len {
        match &tokens[*at] {
            Token::Text(s) => s.clone(),
            _ => {
                let mut m = "Missing filter [".to_owned();
                m.append(format_tokens(tokens, *at).as_str());
                m.append("]");
                return Err(m);
            },
        }
    } else {
        let mut m = "Missing filter [".to_owned();
        m.append(format_tokens(tokens, *at).as_str());
        m.append("]");
        return Err(m);
    };
    *at = *at + 1;
    proof {
        assert(u.skip(1) =~= all.skip(*at as int));
    }
    let ghost first = output@;
    let mut whitespace = String::new();
    let mut more: bool = true;
    while more && *at < len
        invariant
            begin < *at <= len,
            len == tokens@.len(),
            begin == *old(at),
            all == token_views(tokens@),
            words(first, Seq::empty(), u.skip(1)) == words(output@, whitespace@, all.skip(*at as int)),
            !more ==> words(output@, whitespace@, all.skip(*at as int)) == (
                output@,
                all.skip(*at as int),
            ),
        decreases len - *at, (if more { 1int } else { 0int }),
    {
        let ghost here = all.skip(*at as int);
        proof {
            assert(here.skip(1) =~= all.skip(*at + 1));
        }
        match &tokens[*at] {
            Token::Whitespace(s) => {
                whitespace.append(s.as_str());
                *at = *at + 1;
            },
            Token::Text(s) => {
                output.append(whitespace.as_str());
                whitespace.clear();
                output.append(s.as_str());
                *at = *at + 1;
            },
            _ => {
                more = false;
            },
        }
    }
    match kind {
        None => Ok(FilterExpression::Body(output)),
        Some(c) => if c == 'f' {
            Ok(FilterExpression::Sender(output))
        } else if c == 'b' {
            Ok(FilterExpression::Body(output))
        } else {
            let mut m = "Invalid filter type '".to_owned();
            m.push(c);
            m.append("'");
            proof {
                assert(m@ =~= "Invalid filter type '"@ + seq![c] + "'"@);
            }
            Err(m)
        },
    }
}

/// Whether the filters read so far, followed by those still to be read, are those of the whole.
spec fn continues(
    whole: Result<(Seq<ExprView>, Seq<TokenView>), Failure>,
    read: Seq<FilterExpression>,
    others: Result<(Seq<ExprView>, Seq<TokenView>), Failure>,
) -> bool {
    match (whole, others) {
        (Ok((w, r)), Ok((o, q))) => w == FilterExpression::exprs(read) + o && r == q,
        (Err(e), Err(f)) => e == f,
        _ => false,
    }
}

/// Reading one more filter keeps the relation.
proof fn lemma_continues(
    whole: Result<(Seq<ExprView>, Seq<TokenView>), Failure>,
    read: Seq<FilterExpression>,
    item: FilterExpression,
    others: Result<(Seq<ExprView>, Seq<TokenView>), Failure>,
)
    requires
        continues(whole, read, prepended(item@, others)),
    ensures
        continues(whole, read.push(item), others),
{
    if let Ok((o, _)) = others {
        assert(FilterExpression::exprs(read) + (seq![item@] + o) =~= FilterExpression::exprs(
            read.push(item),
        ) + o);
    }
}

/// Reads filters that must hold together.
pub fn parse_and(tokens: &Vec<Token>, at: &mut usize) -> (res: Result<FilterExpression, String>)
    requires
        *old(at) <= tokens@.len(),
    ensures
        *old(at) <= *final(at) <= tokens@.len(),
        match (res, conjunction_at(token_views(tokens@).skip(*old(at) as int))) {
            (Ok(e), Ok((view, rest))) => e@ == view && rest == token_views(tokens@).skip(
                *final(at) as int,
            ),
            (Err(m), Err(f)) => m@ == f.message && f.rest == token_views(tokens@).skip(
                *final(at) as int,
            ),
            _ => false,
        },
    decreases tokens@.len() - *old(at), 2nat,
{
    let ghost all = token_views(tokens@);
    let ghost begin = *at as int;
    let ghost whole = conjuncts_at(all.skip(begin));
    let len: usize = tokens.len();
    let mut items: Vec<FilterExpression> = Vec::new();
    let mut more: bool = true;
    proof {
        if let Ok((w, _)) = whole {
            assert(FilterExpression::exprs(items@) + w =~= w);
        }
    }
    while more
        invariant
            begin == *old(at),
            begin <= *at <= len,
            len == tokens@.len(),
            all == token_views(tokens@),
            whole == conjuncts_at(all.skip(begin)),
            more ==> continues(whole, items@, conjuncts_at(all.skip(*at as int))),
            !more ==> continues(whole, items@, Ok((Seq::empty(), all.skip(*at as int)))),
        decreases len - *at, (if more { 1int } else { 0int }),
    {
        let ghost here = all.skip(*at as int);
        proof {
            lemma_after_spaces(here);
        }
        skip_whitespace(tokens, at);
        let ghost u = all.skip(*at as int);
        if *at < len {
            match &tokens[*at] {
                Token::Type(_) | Token::Text(_) => {
                    match parse_filter_item(tokens, at) {
                        Ok(item) => {
                            proof {
                                lemma_continues(
                                    whole,
                                    items@,
                                    item,
                                    conjuncts_at(all.skip(*at as int)),
                                );
                            }
                            items.push(item);
                        },
                        Err(e) => {
                            return Err(e);
                        },
                    }
                },
                Token::LParen => {
                    match parse_group(tokens, at) {
                        Ok(item) => {
                            proof {
                                lemma_continues(
                                    whole,
                                    items@,
                                    item,
                                    conjuncts_at(all.skip(*at as int)),
                                );
                            }
                            items.push(item);
                        },
                        Err(e) => {
                            return Err(e);
                        },
                    }
                },
                Token::Exclamation => {
                    *at = *at + 1;
                    proof {
                        assert(u.skip(1) =~= all.skip(*at as int));
                    }
                    match parse_from_tokens(tokens, at) {
                        Ok(item) => {
                            let negated = FilterExpression::Not(Box::new(item));
                            proof {
                                lemma_continues(
                                    whole,
                                    items@,
                                    negated,
                                    conjuncts_at(all.skip(*at as int)),
                                );
                            }
                            items.push(negated);
                        },
                        Err(e) => {
                            return Err(e);
                        },
                    }
                },
                _ => {
                    more = false;
                },
            }
        } else {
            more = false;
        }
    }
    proof {
        if let Ok((w, _)) = whole {
            assert(w =~= FilterExpression::exprs(items@));
        }
    }
    if items.len() == 0 {
        Err("Need at least one filter".to_owned())
    } else if items.len() == 1 {
        let only: Option<FilterExpression> = items.pop();
        Ok(only.unwrap())
    } else {
        Ok(FilterExpression::And(items))
    }
}

/// Reads a filter in parentheses.
fn parse_group(tokens: &Vec<Token>, at: &mut usize) -> (res: Result<FilterExpression, String>)
    requires
        *old(at) < tokens@.len(),
        tokens@[*old(at) as int] is LParen,
    ensures
        *old(at) <= *final(at) <= tokens@.len(),
        match (res, group_at(token_views(tokens@).skip(*old(at) as int))) {
            (Ok(e), Ok((view, rest))) => e@ == view && rest == token_views(tokens@).skip(
                *final(at) as int,
            ) && *old(at) < *final(at),
            (Err(m), Err(f)) => m@ == f.message && f.rest == token_views(tokens@).skip(
                *final(at) as int,
            ),
            _ => false,
        },
    decreases tokens@.len() - *old(at), 0nat,
{
    let ghost all = token_views(tokens@);
    let ghost begin = *at as int;
    let len: usize = tokens.len();
    *at = *at + 1;
    proof {
        assert(all.skip(begin).skip(1) =~= all.skip(*at as int));
    }
    match parse_from_tokens(tokens, at) {
        Ok(e) => {
            if *at < len {
                match &tokens[*at] {
                    Token::RParen => {
                        proof {
                            assert(all.skip(*at as int).skip(1) =~= all.skip(*at + 1));
                        }
                        *at = *at + 1;
                        return Ok(e);
                    },
                    _ => {},
                }
            }
            Err("Parenthesis not closed".to_owned())
        },
        Err(e) => Err(e),
    }
}

/// Reads the filter that starts at `*at`.
pub fn parse_from_tokens(tokens: &Vec<Token>, at: &mut usize) -> (res: Result<
    FilterExpression,
    String,
>)
    requires
        *old(at) <= tokens@.len(),
    ensures
        *old(at) <= *final(at) <= tokens@.len(),
        match (res, filter_at(token_views(tokens@).skip(*old(at) as int))) {
            (Ok(e), Ok((view, rest))) => e@ == view && rest == token_views(tokens@).skip(
                *final(at) as int,
            ),
            (Err(m), Err(f)) => m@ == f.message && f.rest == token_views(tokens@).skip(
                *final(at) as int,
            ),
            _ => false,
        },
    decreases tokens@.len() - *old(at), 4nat,
{
    let ghost all = token_views(tokens@);
    let ghost begin = *at as int;
    let len: usize = tokens.len();
    if *at < len {
        match &tokens[*at] {
            Token::LParen => {
                return parse_group(tokens, at);
            },
            _ => {},
        }
    }
    let ghost whole = disjuncts_at(all.skip(begin));
    let mut items: Vec<FilterExpression> = Vec::new();
    let mut more: bool = true;
    proof {
        if let Ok((w, _)) = whole {
            assert(FilterExpression::exprs(items@) + w =~= w);
        }
    }
    while more
        invariant
            begin == *old(at),
            begin <= *at <= len,
            len == tokens@.len(),
            all == token_views(tokens@),
            whole == disjuncts_at(all.skip(begin)),
            !(all.skip(begin).len() > 0 && all.skip(begin)[0] is LParen),
            more ==> continues(whole, items@, disjuncts_at(all.skip(*at as int))),
            !more ==> continues(whole, items@, Ok((Seq::empty(), all.skip(*at as int)))),
            !more ==> items@.len() > 0,
        decreases len - *at, (if more { 1int } else { 0int }),
    {
        match parse_and(tokens, at) {
            Ok(item) => {
                let ghost here = all.skip(*at as int);
                let mut bar: bool = false;
                if *at < len {
                    match &tokens[*at] {
                        Token::Bar => {
                            bar = true;
                        },
                        _ => {},
                    }
                }
                if bar {
                    proof {
                        assert(here.skip(1) =~= all.skip(*at + 1));
                        lemma_continues(
                            whole,
                            items@,
                            item,
                            disjuncts_at(all.skip(*at + 1)),
                        );
                    }
                    *at = *at + 1;
                } else {
                    proof {
                        assert(seq![item@] + Seq::<ExprView>::empty() =~= seq![item@]);
                        lemma_continues(whole, items@, item, Ok((Seq::empty(), here)));
                    }
                    more = false;
                }
                items.push(item);
            },
            Err(e) => {
                return Err(e);
            },
        }
    }
    proof {
        if let Ok((w, _)) = whole {
            assert(w =~= FilterExpression::exprs(items@));
        }
    }
    if items.len() == 1 {
        let only: Option<FilterExpression> = items.pop();
        Ok(only.unwrap())
    } else {
        Ok(FilterExpression::Or(items))
    }
}

/// What a filter text stands for, or the message that tells why it stands for nothing.
pub open spec fn parsed(s: Seq<char>) -> Result<ExprView, Seq<char>> {
    match tokens_from(s, 0) {
        Ok(t) => match filter_at(t) {
            Ok((e, _)) => Ok(e),
            Err(f) => Err(f.message),
        },
        Err(TokenizeError::InvalidEscape(b, Some(e))) => Err(
            "Invalid escape expression: "@ + s.subrange(
                char_at(s, b as int, 0),
                char_at(s, e as int, 0),
            ),
        ),
        Err(TokenizeError::InvalidEscape(b, None)) => Err(
            "Invalid escape expression: "@ + s.skip(char_at(s, b as int, 0)),
        ),
        Err(TokenizeError::UnfinishedString(b)) => Err(
            "Unfinished string: "@ + s.skip(char_at(s, b as int, 0)),
        ),
        Err(TokenizeError::UnfinishedType(b)) => Err(
            "Unfinished filter type: "@ + s.skip(char_at(s, b as int, 0)),
        ),
    }
}

/// Whether the end that an error gives, if it gives one, is not before its start.
spec fn error_ordered(e: TokenizeError) -> bool {
    e matches TokenizeError::InvalidEscape(b, Some(e)) ==> b <= e
}

proof fn lemma_string_error_ordered(s: Seq<char>, begin: int, at: int)
    requires
        byte_at(s, s.len() as int) <= usize::MAX,
        0 <= at,
    ensures
        string_rest(s, begin, at) matches Err(e) ==> error_ordered(e),
    decreases s.len() - at,
{
    if at < s.len() && s[at] != '"' {
        if s[at] == '\\' {
            if at + 1 < s.len() {
                lemma_string_error_ordered(s, begin, at + 2);
                lemma_byte_at_grows(s, at, at + 2);
                lemma_byte_at_grows(s, at + 2, s.len() as int);
            }
        } else {
            lemma_string_error_ordered(s, begin, at + 1);
        }
    }
}

proof fn lemma_error_ordered(s: Seq<char>, at: int)
    requires
        byte_at(s, s.len() as int) <= usize::MAX,
        0 <= at <= s.len(),
    ensures
        tokens_from(s, at) matches Err(e) ==> error_ordered(e),
    decreases s.len() - at,
{
    if at < s.len() {
        lemma_token_at(s, at);
        lemma_string_error_ordered(s, at, at + 1);
        if let Ok((_, end)) = token_at(s, at) {
            lemma_error_ordered(s, end);
        }
    }
}

/// The message for a text without tokens.
fn tokenize_message(s: &str, error: TokenizeError) -> (res: String)
    requires
        error_ordered(error),
        tokens_from(s@, 0) == Err::<Seq<TokenView>, TokenizeError>(error),
    ensures
        parsed(s@) == Err::<ExprView, Seq<char>>(res@),
{
    let chars = chars_of(s);
    let len: usize = chars.len();
    match error {
        TokenizeError::InvalidEscape(b, e) => {
            let mut m = "Invalid escape expression: ".to_owned();
            let from: usize = char_position(&chars, b);
            let to: usize = match e {
                Some(e) => char_position(&chars, e),
                None => len,
            };
            proof {
                if let Some(e) = e {
                    lemma_char_at_grows(s@, b as int, e as int, 0);
                }
                assert(chars@.subrange(from as int, len as int) =~= s@.skip(from as int));
            }
            m.append(string_of(&chars, from, to).as_str());
            m
        },
        TokenizeError::UnfinishedString(b) => {
            let mut m = "Unfinished string: ".to_owned();
            let from: usize = char_position(&chars, b);
            m.append(string_of(&chars, from, len).as_str());
            proof {
                assert(chars@.subrange(from as int, len as int) =~= s@.skip(from as int));
            }
            m
        },
        TokenizeError::UnfinishedType(b) => {
            let mut m = "Unfinished filter type: ".to_owned();
            let from: usize = char_position(&chars, b);
            m.append(string_of(&chars, from, len).as_str());
            proof {
                assert(chars@.subrange(from as int, len as int) =~= s@.skip(from as int));
            }
            m
        },
    }
}

/// The message of the first pattern of `e` that does not compile, from left to right.
pub open spec fn pattern_error(e: ExprView) -> Option<Seq<char>>
    decreases e,
{
    match e {
        ExprView::Sender(p) => regex_error(p),
        ExprView::Body(p) => regex_error(p),
        ExprView::Not(e) => pattern_error(*e),
        ExprView::And(v) => first_pattern_error(v),
        ExprView::Or(v) => first_pattern_error(v),
    }
}

/// The message of the first pattern in `v` that does not compile, from left to right.
pub open spec fn first_pattern_error(v: Seq<ExprView>) -> Option<Seq<char>>
    decreases v,
{
    if v.len() == 0 {
        None
    } else {
        match pattern_error(v[0]) {
            Some(m) => Some(m),
            None => first_pattern_error(v.subrange(1, v.len() as int)),
        }
    }
}

/// Whether a filter selects an event.
pub open spec fn selects(e: ExprView, event: Event) -> bool
    decreases e,
{
    match e {
        ExprView::Sender(p) => regex_is_match(p, event.sender@),
        ExprView::Body(p) => match event.spec_body() {
            Some(b) => regex_is_match(p, stripped(b)),
            None => false,
        },
        ExprView::Not(e) => !selects(*e, event),
        ExprView::And(v) => forall|i: int| 0 <= i < v.len() ==> selects(#[trigger] v[i], event),
        ExprView::Or(v) => exists|i: int| 0 <= i < v.len() && selects(#[trigger] v[i], event),
    }
}

proof fn lemma_selects_and(v: Seq<ExprView>, event: Event)
    ensures
        selects(ExprView::And(v), event) == (forall|i: int|
            0 <= i < v.len() ==> selects(#[trigger] v[i], event)),
{
    let e = ExprView::And(v);
    if selects(e, event) {
        assert forall|i: int| 0 <= i < v.len() implies selects(#[trigger] v[i], event) by {
            let w = e->And_0;
            assert(w == v);
            assert(selects(w[i], event));
        }
    }
}

proof fn lemma_selects_or(v: Seq<ExprView>, event: Event)
    ensures
        selects(ExprView::Or(v), event) == (exists|i: int|
            0 <= i < v.len() && selects(#[trigger] v[i], event)),
{
    let e = ExprView::Or(v);
    if exists|i: int| 0 <= i < v.len() && selects(#[trigger] v[i], event) {
        let i = choose|i: int| 0 <= i < v.len() && selects(#[trigger] v[i], event);
        let w = e->Or_0;
        assert(w == v);
        assert(selects(w[i], event));
    }
}

impl FilterExpression {
    /// Reads a filter.
    pub fn parse(s: &str) -> (res: Result<FilterExpression, String>)
        ensures
            match (res, parsed(s@)) {
                (Ok(e), Ok(view)) => e@ == view,
                (Err(m), Err(n)) => m@ == n,
                _ => false,
            },
    {
        match tokenize(s) {
            Ok(tokens) => {
                let mut at: usize = 0;
                proof {
                    assert(token_views(tokens@).skip(0) =~= token_views(tokens@));
                }
                parse_from_tokens(&tokens, &mut at)
            },
            Err(e) => {
                let _bytes: usize = s.as_bytes().len();
                proof {
                    lemma_byte_at_end(s@);
                    lemma_error_ordered(s@, 0);
                }
                Err(tokenize_message(s, e))
            },
        }
    }

    /// Compiles the patterns of a filter.
    pub fn build(&self) -> (res: Result<Filter, String>)
        ensures
            match res {
                Ok(f) => pattern_error(self@) is None && f@ == self@,
                Err(m) => pattern_error(self@) == Some(m@),
            },
        decreases self,
    {
        match self {
            FilterExpression::Sender(p) => match Pattern::new(p.as_str()) {
                Ok(p) => Ok(Filter::Sender(p)),
                Err(m) => Err(m),
            },
            FilterExpression::Body(p) => match Pattern::new(p.as_str()) {
                Ok(p) => Ok(Filter::Body(p)),
                Err(m) => Err(m),
            },
            FilterExpression::Not(e) => match e.build() {
                Ok(f) => Ok(Filter::Not(Box::new(f))),
                Err(m) => Err(m),
            },
            FilterExpression::And(v) => match Self::build_all(v) {
                Ok(fs) => Ok(Filter::And(fs)),
                Err(m) => Err(m),
            },
            FilterExpression::Or(v) => match Self::build_all(v) {
                Ok(fs) => Ok(Filter::Or(fs)),
                Err(m) => Err(m),
            },
        }
    }

    /// Compiles the patterns of several filters.
    fn build_all(v: &Vec<FilterExpression>) -> (res: Result<Vec<Filter>, String>)
        ensures
            match res {
                Ok(fs) => first_pattern_error(Self::exprs(v@)) is None && Filter::exprs(fs@)
                    == Self::exprs(v@),
                Err(m) => first_pattern_error(Self::exprs(v@)) == Some(m@),
            },
        decreases v,
    {
        let ghost all = Self::exprs(v@);
        let mut out: Vec<Filter> = Vec::new();
        let mut i: usize = 0;
        proof {
            assert(all.subrange(0, all.len() as int) =~= all);
        }
        while i < v.len()
            invariant
                i <= v@.len(),
                all == Self::exprs(v@),
                out@.len() == i,
                forall|j: int| 0 <= j < i ==> (#[trigger] out@[j]).expr() == all[j],
                first_pattern_error(all) == first_pattern_error(
                    all.subrange(i as int, all.len() as int),
                ),
            decreases v@.len() - i,
        {
            let ghost rest = all.subrange(i as int, all.len() as int);
            proof {
                assert(rest.subrange(1, rest.len() as int) =~= all.subrange(
                    i + 1,
                    all.len() as int,
                ));
            }
            match v[i].build() {
                Ok(f) => {
                    out.push(f);
                },
                Err(m) => {
                    return Err(m);
                },
            }
            i = i + 1;
        }
        proof {
            assert(Filter::exprs(out@) =~= all);
        }
        Ok(out)
    }
}

/// A message filter.
pub enum Filter {
    Sender(Pattern),
    Body(Pattern),
    Not(Box<Filter>),
    And(Vec<Filter>),
    Or(Vec<Filter>),
}

impl Filter {
    /// The filter with its patterns as texts.
    pub open spec fn expr(self) -> ExprView
        decreases self,
    {
        match self {
            Filter::Sender(p) => ExprView::Sender(p.source()),
            Filter::Body(p) => ExprView::Body(p.source()),
            Filter::Not(f) => ExprView::Not(Box::new((*f).expr())),
            Filter::And(v) => ExprView::And(Self::exprs(v@)),
            Filter::Or(v) => ExprView::Or(Self::exprs(v@)),
        }
    }

    /// Several filters with their patterns as texts.
    pub open spec fn exprs(v: Seq<Filter>) -> Seq<ExprView>
        decreases v,
    {
        Seq::new(
            v.len(),
            |i: int|
                if 0 <= i < v.len() {
                    v[i].expr()
                } else {
                    arbitrary()
                },
        )
    }

    /// Whether the filter selects an event.
    pub fn matches(&self, event: &Event) -> (res: bool)
        ensures
            res == selects(self@, *event),
        decreases self,
    {
        match self {
            Filter::Sender(p) => p.is_match(event.sender.as_str()),
            Filter::Body(p) => match event.body() {
                Some(b) => p.is_match(strip_body(b)),
                None => false,
            },
            Filter::Not(f) => !f.matches(event),
            Filter::And(v) => Self::all_match(v, event),
            Filter::Or(v) => Self::any_matches(v, event),
        }
    }

    /// Whether every one of the filters selects an event.
    fn all_match(v: &Vec<Filter>, event: &Event) -> (res: bool)
        ensures
            res == selects(ExprView::And(Self::exprs(v@)), *event),
        decreases v,
    {
        let ghost all = Self::exprs(v@);
        let mut i: usize = 0;
        while i < v.len()
            invariant
                i <= v@.len(),
                all == Self::exprs(v@),
                forall|j: int| 0 <= j < i ==> selects(#[trigger] all[j], *event),
            decreases v@.len() - i,
        {
            if !v[i].matches(event) {
                proof {
                    lemma_selects_and(all, *event);
                    assert(!selects(all[i as int], *event));
                }
                return false;
            }
            i = i + 1;
        }
        true
    }

    /// Whether one of the filters selects an event.
    fn any_matches(v: &Vec<Filter>, event: &Event) -> (res: bool)
        ensures
            res == selects(ExprView::Or(Self::exprs(v@)), *event),
        decreases v,
    {
        let ghost all = Self::exprs(v@);
        let mut i: usize = 0;
        while i < v.len()
            invariant
                i <= v@.len(),
                all == Self::exprs(v@),
                forall|j: int| 0 <= j < i ==> !selects(#[trigger] all[j], *event),
            decreases v@.len() - i,
        {
            if v[i].matches(event) {
                proof {
                    lemma_selects_or(all, *event);
                    assert(selects(all[i as int], *event));
                }
                return true;
            }
            i = i + 1;
        }
        false
    }

    /// Reads a filter and compiles its patterns.
    pub fn parse(s: &str) -> (res: Result<Filter, String>)
        ensures
            match parsed(s@) {
                Ok(e) => match pattern_error(e) {
                    None => res matches Ok(f) && f@ == e,
                    Some(m) => res matches Err(n) && n@ == m,
                },
                Err(m) => res matches Err(n) && n@ == m,
            },
    {
        match FilterExpression::parse(s) {
            Ok(e) => e.build(),
            Err(m) => Err(m),
        }
    }
}

impl View for Filter {
    type V = ExprView;

    open spec fn view(&self) -> ExprView {
        self.expr()
    }
}

/// Whether every conjunction and every alternative in a filter joins at least two filters.
pub open spec fn is_normal(e: ExprView) -> bool
    decreases e,
{
    match e {
        ExprView::Sender(_) => true,
        ExprView::Body(_) => true,
        ExprView::Not(e) => is_normal(*e),
        ExprView::And(v) => v.len() >= 2 && all_normal(v),
        ExprView::Or(v) => v.len() >= 2 && all_normal(v),
    }
}

/// Whether every filter in `v` is normal.
pub open spec fn all_normal(v: Seq<ExprView>) -> bool
    decreases v,
{
    if v.len() == 0 {
        true
    } else {
        is_normal(v[0]) && all_normal(v.subrange(1, v.len() as int))
    }
}

proof fn lemma_prepended_normal(e: ExprView, v: Seq<ExprView>)
    requires
        is_normal(e),
        all_normal(v),
    ensures
        all_normal(seq![e] + v),
{
    let w = seq![e] + v;
    assert(w.subrange(1, w.len() as int) =~= v);
}

proof fn lemma_single_normal(v: Seq<ExprView>)
    requires
        v.len() > 0,
        all_normal(v),
    ensures
        is_normal(v[0]),
{
}

proof fn lemma_words(text: Seq<char>, gap: Seq<char>, t: Seq<TokenView>)
    ensures
        words(text, gap, t).1.len() <= t.len(),
    decreases t.len(),
{
    if t.len() > 0 {
        match t[0] {
            TokenView::Whitespace(s) => {
                lemma_words(text, gap + s, t.skip(1));
            },
            TokenView::Text(s) => {
                lemma_words(text + gap + s, Seq::empty(), t.skip(1));
            },
            _ => {},
        }
    }
}

proof fn lemma_item_normal(t: Seq<TokenView>)
    ensures
        item_at(t) matches Ok((e, rest)) ==> is_normal(e) && rest.len() < t.len(),
{
    lemma_after_spaces(t);
    let typed = t.len() > 0 && t[0] is Type;
    let u = after_spaces(
        if typed {
            t.skip(1)
        } else {
            t
        },
    );
    if typed {
        lemma_after_spaces(t.skip(1));
    }
    if u.len() > 0 && u[0] is Text {
        lemma_words(u[0]->Text_0, Seq::empty(), u.skip(1));
    }
}

proof fn lemma_conjuncts_normal(t: Seq<TokenView>)
    ensures
        conjuncts_at(t) matches Ok((v, rest)) ==> all_normal(v) && rest.len() <= t.len(),
    decreases t.len(), 1nat,
{
    lemma_after_spaces(t);
    let u = after_spaces(t);
    if u.len() > 0 {
        match u[0] {
            TokenView::Type(_) | TokenView::Text(_) => {
                lemma_item_normal(u);
                if let Ok((e, rest)) = item_at(u) {
                    lemma_conjuncts_normal(rest);
                    if let Ok((v, _)) = conjuncts_at(rest) {
                        lemma_prepended_normal(e, v);
                    }
                }
            },
            TokenView::LParen => {
                lemma_group_normal(u);
                if let Ok((e, rest)) = group_at(u) {
                    lemma_conjuncts_normal(rest);
                    if let Ok((v, _)) = conjuncts_at(rest) {
                        lemma_prepended_normal(e, v);
                    }
                }
            },
            TokenView::Exclamation => {
                lemma_filter_normal(u.skip(1));
                if let Ok((e, rest)) = filter_at(u.skip(1)) {
                    lemma_conjuncts_normal(rest);
                    if let Ok((v, _)) = conjuncts_at(rest) {
                        lemma_prepended_normal(ExprView::Not(Box::new(e)), v);
                    }
                }
            },
            _ => {},
        }
    }
}

proof fn lemma_disjuncts_normal(t: Seq<TokenView>)
    ensures
        disjuncts_at(t) matches Ok((v, rest)) ==> all_normal(v) && v.len() >= 1 && rest.len()
            <= t.len(),
    decreases t.len(), 3nat,
{
    lemma_conjuncts_normal(t);
    if let Ok((items, _)) = conjuncts_at(t) {
        if items.len() > 0 {
            lemma_single_normal(items);
        }
    }
    if let Ok((e, rest)) = conjunction_at(t) {
        if let ExprView::And(items) = e {
            assert(all_normal(items));
        }
        assert(is_normal(e));
        let one = seq![e];
        assert(one.subrange(1, 1) =~= Seq::<ExprView>::empty());
        assert(all_normal(Seq::<ExprView>::empty()));
        assert(all_normal(one));
        if rest.len() > 0 && rest[0] is Bar {
            lemma_disjuncts_normal(rest.skip(1));
            if let Ok((v, _)) = disjuncts_at(rest.skip(1)) {
                lemma_prepended_normal(e, v);
            }
        }
    }
}

proof fn lemma_group_normal(t: Seq<TokenView>)
    ensures
        group_at(t) matches Ok((e, rest)) ==> is_normal(e) && rest.len() < t.len(),
    decreases t.len(), 0nat,
{
    if t.len() > 0 {
        lemma_filter_normal(t.skip(1));
    }
}

proof fn lemma_filter_normal(t: Seq<TokenView>)
    ensures
        filter_at(t) matches Ok((e, rest)) ==> is_normal(e) && rest.len() <= t.len(),
    decreases t.len(), 4nat,
{
    if t.len() > 0 && t[0] is LParen {
        lemma_group_normal(t);
    } else {
        lemma_disjuncts_normal(t);
        if let Ok((items, _)) = disjuncts_at(t) {
            lemma_single_normal(items);
        }
    }
}

/// Whatever a text is read as, no conjunction and no alternative in it joins fewer than two
/// filters: a single filter always stands for itself.
pub proof fn law_parsed_is_normal(s: Seq<char>)
    ensures
        parsed(s) matches Ok(e) ==> is_normal(e),
{
    if let Ok(t) = tokens_from(s, 0) {
        lemma_filter_normal(t);
    }
}

/// A text as it stands between quotes: a backslash precedes each quote and each backslash.
pub open spec fn escaped(t: Seq<char>) -> Seq<char>
    decreases t.len(),
{
    if t.len() == 0 {
        Seq::empty()
    } else if t[0] == '"' || t[0] == '\\' {
        seq!['\\', t[0]] + escaped(t.skip(1))
    } else {
        seq![t[0]] + escaped(t.skip(1))
    }
}

/// A text in quotes.
pub open spec fn quoted(t: Seq<char>) -> Seq<char> {
    seq!['"'] + escaped(t) + seq!['"']
}

proof fn lemma_escaped_rest(s: Seq<char>, begin: int, at: int, t: Seq<char>)
    requires
        0 <= at <= s.len(),
        s.skip(at) == escaped(t) + seq!['"'],
    ensures
        string_rest(s, begin, at) == Ok::<(Seq<char>, int), TokenizeError>((t, s.len() as int)),
    decreases t.len(),
{
    let rest = s.skip(at);
    assert(rest.len() == s.len() - at);
    assert(rest[0] == s[at]);
    if t.len() == 0 {
        assert(rest =~= seq!['"']);
        assert(t =~= Seq::<char>::empty());
    } else if t[0] == '"' || t[0] == '\\' {
        assert(rest =~= seq!['\\', t[0]] + (escaped(t.skip(1)) + seq!['"']));
        assert(rest[1] == s[at + 1]);
        assert(s.skip(at + 2) =~= rest.skip(2));
        assert(rest.skip(2) =~= escaped(t.skip(1)) + seq!['"']);
        lemma_escaped_rest(s, begin, at + 2, t.skip(1));
        assert(seq![t[0]] + t.skip(1) =~= t);
    } else {
        assert(rest =~= seq![t[0]] + (escaped(t.skip(1)) + seq!['"']));
        assert(s.skip(at + 1) =~= rest.skip(1));
        assert(rest.skip(1) =~= escaped(t.skip(1)) + seq!['"']);
        lemma_escaped_rest(s, begin, at + 1, t.skip(1));
        assert(seq![t[0]] + t.skip(1) =~= t);
    }
}

/// A single word is read as a filter on the body.
proof fn lemma_one_word(text: Seq<char>)
    ensures
        filter_at(seq![TokenView::Text(text)]) == Ok::<(ExprView, Seq<TokenView>), Failure>(
            (ExprView::Body(text), Seq::empty()),
        ),
{
    let none = Seq::<TokenView>::empty();
    let t = seq![TokenView::Text(text)];
    assert(t.skip(1) =~= none);
    assert(after_spaces(none) == none);
    assert(words(text, Seq::empty(), none) == (text, none));
    assert(item_at(t) == Ok::<(ExprView, Seq<TokenView>), Failure>((ExprView::Body(text), none)));
    let no_items = Seq::<ExprView>::empty();
    assert(conjuncts_at(none) == Ok::<(Seq<ExprView>, Seq<TokenView>), Failure>((no_items, none)));
    let one = seq![ExprView::Body(text)];
    assert(one + no_items =~= one);
    assert(conjuncts_at(t) == Ok::<(Seq<ExprView>, Seq<TokenView>), Failure>((one, none)));
    assert(conjunction_at(t) == Ok::<(ExprView, Seq<TokenView>), Failure>((one[0], none)));
    assert(disjuncts_at(t) == Ok::<(Seq<ExprView>, Seq<TokenView>), Failure>((one, none)));
}

/// Quoting makes any text a filter on the body with that text as its pattern.
pub proof fn law_quoted_text(t: Seq<char>)
    ensures
        parsed(quoted(t)) == Ok::<ExprView, Seq<char>>(ExprView::Body(t)),
{
    let s = quoted(t);
    let len = s.len() as int;
    assert(s.skip(1) =~= escaped(t) + seq!['"']);
    lemma_escaped_rest(s, 0, 1, t);
    assert(token_at(s, 0) == Ok::<(TokenView, int), TokenizeError>((TokenView::Text(t), len)));
    assert(tokens_from(s, len) == Ok::<Seq<TokenView>, TokenizeError>(Seq::empty()));
    let one = seq![TokenView::Text(t)];
    assert(one + Seq::<TokenView>::empty() =~= one);
    assert(tokens_from(s, 0) == Ok::<Seq<TokenView>, TokenizeError>(one));
    lemma_one_word(t);
}

proof fn lemma_word_to_end(s: Seq<char>, from: int)
    requires
        0 <= from <= s.len(),
        forall|i: int| 0 <= i < s.len() ==> !ends_word(#[trigger] s[i]),
    ensures
        word_end(s, from) == s.len(),
    decreases s.len() - from,
{
    if from < s.len() {
        lemma_word_to_end(s, from + 1);
    }
}

/// A word that needs no quotes is a filter on the body with that word as its pattern.
pub proof fn law_plain_word(w: Seq<char>)
    requires
        w.len() > 0,
        w[0] != '|',
        w[0] != '!',
        forall|i: int| 0 <= i < w.len() ==> !ends_word(#[trigger] w[i]),
    ensures
        parsed(w) == Ok::<ExprView, Seq<char>>(ExprView::Body(w)),
{
    let len = w.len() as int;
    lemma_word_to_end(w, 0);
    assert(!ends_word(w[0]));
    assert(w.subrange(0, len) =~= w);
    assert(token_at(w, 0) == Ok::<(TokenView, int), TokenizeError>((TokenView::Text(w), len)));
    assert(tokens_from(w, len) == Ok::<Seq<TokenView>, TokenizeError>(Seq::empty()));
    let one = seq![TokenView::Text(w)];
    assert(one + Seq::<TokenView>::empty() =~= one);
    assert(tokens_from(w, 0) == Ok::<Seq<TokenView>, TokenizeError>(one));
    lemma_one_word(w);
}

/// Behind the leading spaces there is no space.
proof fn lemma_after_spaces_stops(t: Seq<TokenView>)
    ensures
        after_spaces(t).len() > 0 ==> !(after_spaces(t)[0] is Whitespace),
        after_spaces(after_spaces(t)) == after_spaces(t),
    decreases t.len(),
{
    if t.len() > 0 && t[0] is Whitespace {
        lemma_after_spaces_stops(t.skip(1));
    }
}

/// Whether a conjunction ends in front of the given tokens.
pub open spec fn ends_conjunction(t: Seq<TokenView>) -> bool {
    t.len() == 0 || t[0] is RParen || t[0] is Bar
}

proof fn lemma_conjuncts_end(t: Seq<TokenView>)
    ensures
        conjuncts_at(t) matches Ok((v, rest)) ==> ends_conjunction(rest) && rest.len() <= t.len()
            && (v.len() > 0 ==> rest.len() < t.len()),
    decreases t.len(),
{
    lemma_after_spaces(t);
    lemma_after_spaces_stops(t);
    let u = after_spaces(t);
    if u.len() > 0 {
        match u[0] {
            TokenView::Type(_) | TokenView::Text(_) => {
                if let Ok((_, rest)) = item_at(u) {
                    if rest.len() < t.len() {
                        lemma_conjuncts_end(rest);
                    }
                }
            },
            TokenView::LParen => {
                if let Ok((_, rest)) = group_at(u) {
                    if rest.len() < t.len() {
                        lemma_conjuncts_end(rest);
                    }
                }
            },
            TokenView::Exclamation => {
                if let Ok((_, rest)) = filter_at(u.skip(1)) {
                    if rest.len() < t.len() {
                        lemma_conjuncts_end(rest);
                    }
                }
            },
            _ => {},
        }
    }
}

/// A conjunction takes at least one token and ends at the end, at a closing parenthesis or at a
/// bar. Where one of these follows the leading spaces there is no filter to read, and nothing but
/// the spaces is read.
pub proof fn law_conjunction_ends(t: Seq<TokenView>)
    ensures
        conjunction_at(t) matches Ok((_, rest)) ==> rest.len() < t.len() && ends_conjunction(rest),
        ends_conjunction(after_spaces(t)) ==> conjunction_at(t) == Err::<
            (ExprView, Seq<TokenView>),
            Failure,
        >(Failure { message: none_found(), rest: after_spaces(t) }),
{
    lemma_conjuncts_end(t);
}

/// The characters that an unquoted token is written with.
pub open spec fn token_source(t: TokenView) -> Seq<char> {
    match t {
        TokenView::LParen => seq!['('],
        TokenView::RParen => seq![')'],
        TokenView::Bar => seq!['|'],
        TokenView::Exclamation => seq!['!'],
        TokenView::Type(c) => seq!['~', c],
        TokenView::Text(s) => s,
        TokenView::Whitespace(s) => s,
    }
}

/// The characters that several unquoted tokens are written with.
pub open spec fn token_sources(t: Seq<TokenView>) -> Seq<char>
    decreases t.len(),
{
    if t.len() == 0 {
        Seq::empty()
    } else {
        token_source(t[0]) + token_sources(t.skip(1))
    }
}

/// Whether a token is not an empty word or run of spaces, and a run of spaces holds only spaces.
pub open spec fn is_formed(t: TokenView) -> bool {
    match t {
        TokenView::Text(s) => s.len() > 0,
        TokenView::Whitespace(s) => s.len() > 0 && forall|i: int|
            0 <= i < s.len() ==> is_space(#[trigger] s[i]),
        _ => true,
    }
}

/// Whether one token may follow another where nothing is quoted: words and runs of spaces are as
/// long as they can be.
pub open spec fn may_follow(t: TokenView, next: TokenView) -> bool {
    !(t is Text && next is Text) && !(t is Whitespace && next is Whitespace)
}

proof fn lemma_space_run(s: Seq<char>, from: int)
    requires
        0 <= from <= s.len(),
    ensures
        forall|i: int| from <= i < space_end(s, from) ==> is_space(#[trigger] s[i]),
        space_end(s, from) < s.len() ==> !is_space(s[space_end(s, from)]),
    decreases s.len() - from,
{
    if from < s.len() && is_space(s[from]) {
        lemma_space_run(s, from + 1);
    }
}

proof fn lemma_word_stops(s: Seq<char>, from: int)
    requires
        0 <= from <= s.len(),
    ensures
        word_end(s, from) < s.len() ==> ends_word(s[word_end(s, from)]),
    decreases s.len() - from,
{
    if from < s.len() && !ends_word(s[from]) {
        lemma_word_stops(s, from + 1);
    }
}

proof fn lemma_token_source(s: Seq<char>, at: int)
    requires
        0 <= at < s.len(),
        s[at] != '"',
    ensures
        token_at(s, at) matches Ok((token, end)) ==> token_source(token) == s.subrange(at, end)
            && is_formed(token),
{
    lemma_space_end(s, at);
    lemma_space_run(s, at);
    lemma_word_end(s, at);
    if let Ok((token, end)) = token_at(s, at) {
        assert(token_source(token) =~= s.subrange(at, end));
    }
}

proof fn lemma_next_token(s: Seq<char>, at: int)
    requires
        0 <= at < s.len(),
        forall|i: int| 0 <= i < s.len() ==> #[trigger] s[i] != '"',
    ensures
        token_at(s, at) matches Ok((token, end)) ==> end < s.len() ==> (token_at(s, end) matches Ok(
            (next, _),
        ) ==> may_follow(token, next)),
{
    lemma_token_at(s, at);
    lemma_space_run(s, at);
    lemma_word_stops(s, at);
}

proof fn lemma_tokens_join(s: Seq<char>, at: int)
    requires
        0 <= at <= s.len(),
        forall|i: int| 0 <= i < s.len() ==> #[trigger] s[i] != '"',
    ensures
        tokens_from(s, at) matches Ok(t) ==> {
            &&& token_sources(t) == s.skip(at)
            &&& forall|i: int| 0 <= i < t.len() ==> is_formed(#[trigger] t[i])
            &&& forall|i: int, j: int|
                0 <= i < t.len() && j == i + 1 && j < t.len() ==> may_follow(
                    #[trigger] t[i],
                    #[trigger] t[j],
                )
            &&& at < s.len() ==> t.len() > 0 && (token_at(s, at) matches Ok((first, _)) ==> t[0]
                == first)
        },
    decreases s.len() - at,
{
    if at < s.len() {
        lemma_token_at(s, at);
        lemma_token_source(s, at);
        lemma_next_token(s, at);
        if let Ok((token, end)) = token_at(s, at) {
            lemma_tokens_join(s, end);
            if let Ok(rest) = tokens_from(s, end) {
                let t = seq![token] + rest;
                assert(t.skip(1) =~= rest);
                assert(s.subrange(at, end) + s.skip(end) =~= s.skip(at));
                assert forall|i: int| 0 <= i < t.len() implies is_formed(#[trigger] t[i]) by {
                    if i > 0 {
                        assert(t[i] == rest[i - 1]);
                    }
                }
                assert forall|i: int, j: int|
                    0 <= i < t.len() && j == i + 1 && j < t.len() implies may_follow(
                    #[trigger] t[i],
                    #[trigger] t[j],
                ) by {
                    assert(t[j] == rest[i]);
                    if i > 0 {
                        assert(t[i] == rest[i - 1]);
                    }
                }
            }
        }
    } else {
        assert(s.skip(at) =~= Seq::<char>::empty());
    }
}

/// The tokens of a text without quotes, written one behind the other, give the text back. None of
/// them is empty, and no two words or two runs of spaces stand side by side.
pub proof fn law_tokens_join_to_the_text(s: Seq<char>)
    requires
        forall|i: int| 0 <= i < s.len() ==> #[trigger] s[i] != '"',
    ensures
        tokens_from(s, 0) matches Ok(t) ==> {
            &&& token_sources(t) == s
            &&& forall|i: int| 0 <= i < t.len() ==> is_formed(#[trigger] t[i])
            &&& forall|i: int, j: int|
                0 <= i < t.len() && j == i + 1 && j < t.len() ==> may_follow(
                    #[trigger] t[i],
                    #[trigger] t[j],
                )
        },
{
    lemma_tokens_join(s, 0);
    assert(s.skip(0) =~= s);
}

proof fn lemma_runs_shift(c: char, s: Seq<char>, at: int)
    requires
        0 <= at <= s.len(),
    ensures
        space_end(seq![c] + s, at + 1) == space_end(s, at) + 1,
        word_end(seq![c] + s, at + 1) == word_end(s, at) + 1,
    decreases s.len() - at,
{
    if at < s.len() {
        assert((seq![c] + s)[at + 1] == s[at]);
        lemma_runs_shift(c, s, at + 1);
    }
}

proof fn lemma_string_shifts(c: char, s: Seq<char>, begin: int, at: int)
    requires
        0 <= at,
    ensures
        string_rest(s, begin, at) matches Ok((text, end)) ==> string_rest(
            seq![c] + s,
            begin + 1,
            at + 1,
        ) == Ok::<(Seq<char>, int), TokenizeError>((text, end + 1)),
    decreases s.len() - at,
{
    let u = seq![c] + s;
    if at < s.len() {
        assert(u[at + 1] == s[at]);
        if s[at] == '\\' {
            if at + 1 < s.len() {
                assert(u[at + 2] == s[at + 1]);
                lemma_string_shifts(c, s, begin, at + 2);
            }
        } else if s[at] != '"' {
            lemma_string_shifts(c, s, begin, at + 1);
        }
    }
}

proof fn lemma_token_shifts(c: char, s: Seq<char>, at: int)
    requires
        0 <= at < s.len(),
    ensures
        token_at(s, at) matches Ok((token, end)) ==> token_at(seq![c] + s, at + 1) == Ok::<
            (TokenView, int),
            TokenizeError,
        >((token, end + 1)),
{
    let u = seq![c] + s;
    assert(u[at + 1] == s[at]);
    lemma_token_at(s, at);
    lemma_runs_shift(c, s, at);
    lemma_string_shifts(c, s, at, at + 1);
    if let Ok((_, end)) = token_at(s, at) {
        assert(u.subrange(at + 1, end + 1) =~= s.subrange(at, end));
        if at + 1 < s.len() {
            assert(u[at + 2] == s[at + 1]);
        }
    }
}

proof fn lemma_tokens_shift(c: char, s: Seq<char>, at: int)
    requires
        0 <= at <= s.len(),
    ensures
        tokens_from(s, at) matches Ok(t) ==> tokens_from(seq![c] + s, at + 1) == Ok::<
            Seq<TokenView>,
            TokenizeError,
        >(t),
    decreases s.len() - at,
{
    if at < s.len() {
        lemma_token_at(s, at);
        lemma_token_shifts(c, s, at);
        if let Ok((_, end)) = token_at(s, at) {
            lemma_tokens_shift(c, s, end);
        }
    }
}

proof fn lemma_exclamation_token(s: Seq<char>)
    ensures
        tokens_from(s, 0) matches Ok(t) ==> tokens_from(seq!['!'] + s, 0) == Ok::<
            Seq<TokenView>,
            TokenizeError,
        >(seq![TokenView::Exclamation] + t),
{
    let u = seq!['!'] + s;
    assert(u[0] == '!');
    assert(token_at(u, 0) == Ok::<(TokenView, int), TokenizeError>((TokenView::Exclamation, 1)));
    lemma_tokens_shift('!', s, 0);
}

/// Whether a filter that was read in front of the given tokens ends there also as a part of a
/// conjunction.
pub open spec fn ends_filter(rest: Seq<TokenView>) -> bool {
    after_spaces(rest).len() == 0 || after_spaces(rest)[0] is RParen
}

proof fn lemma_negated(t: Seq<TokenView>)
    ensures
        filter_at(t) matches Ok((e, rest)) ==> ends_filter(rest) ==> filter_at(
            seq![TokenView::Exclamation] + t,
        ) == Ok::<(ExprView, Seq<TokenView>), Failure>(
            (ExprView::Not(Box::new(e)), after_spaces(rest)),
        ),
{
    let u = seq![TokenView::Exclamation] + t;
    assert(u.skip(1) =~= t);
    assert(after_spaces(u) == u);
    lemma_filter_normal(t);
    if let Ok((e, rest)) = filter_at(t) {
        if ends_filter(rest) {
            let not = ExprView::Not(Box::new(e));
            let end = after_spaces(rest);
            let none = Seq::<ExprView>::empty();
            assert(conjuncts_at(rest) == Ok::<(Seq<ExprView>, Seq<TokenView>), Failure>((none, end)));
            let one = seq![not];
            assert(one + none =~= one);
            assert(conjuncts_at(u) == Ok::<(Seq<ExprView>, Seq<TokenView>), Failure>((one, end)));
            assert(conjunction_at(u) == Ok::<(ExprView, Seq<TokenView>), Failure>((not, end)));
            assert(disjuncts_at(u) == Ok::<(Seq<ExprView>, Seq<TokenView>), Failure>((one, end)));
        }
    }
}

/// An exclamation mark in front of a filter that is read to its end negates it, and two of them
/// change nothing about what it selects. A filter that more tokens follow is left out: in
/// `(a) b` the group alone is the filter, while the mark makes the words behind it count too.
pub proof fn law_exclamation_negates(s: Seq<char>, event: Event)
    requires
        tokens_from(s, 0) matches Ok(t) && filter_at(t) matches Ok((_, rest)) && ends_filter(rest),
    ensures
        parsed(s) matches Ok(e) && {
            let not = ExprView::Not(Box::new(e));
            let twice = ExprView::Not(Box::new(not));
            &&& parsed(seq!['!'] + s) == Ok::<ExprView, Seq<char>>(not)
            &&& parsed(seq!['!', '!'] + s) == Ok::<ExprView, Seq<char>>(twice)
            &&& pattern_error(not) == pattern_error(e)
            &&& pattern_error(twice) == pattern_error(e)
            &&& selects(not, event) == !selects(e, event)
            &&& selects(twice, event) == selects(e, event)
        },
{
    let t = tokens_from(s, 0)->Ok_0;
    lemma_exclamation_token(s);
    lemma_exclamation_token(seq!['!'] + s);
    assert(seq!['!'] + (seq!['!'] + s) =~= seq!['!', '!'] + s);
    lemma_negated(t);
    if let Ok((e, rest)) = filter_at(t) {
        lemma_after_spaces_stops(rest);
        lemma_negated(seq![TokenView::Exclamation] + t);
        let not = ExprView::Not(Box::new(e));
        let twice = ExprView::Not(Box::new(not));
        assert(pattern_error(twice) == pattern_error(not));
        assert(selects(twice, event) == !selects(not, event));
    }
}

/// Whether a character is one of the three that separate words.
pub open spec fn is_blank(c: char) -> bool {
    c == ' ' || c == '\t' || c == '\n'
}

/// Whether a text is nothing but blanks.
pub open spec fn all_blank(s: Seq<char>) -> bool {
    forall|i: int| 0 <= i < s.len() ==> is_blank(#[trigger] s[i])
}

/// Whether a text is words that need no quotes, with blanks between them: none of the characters
/// with a meaning of their own is in it, and no word starts with a bar or an exclamation mark.
pub open spec fn is_phrase(s: Seq<char>) -> bool {
    &&& s.len() > 0
    &&& !is_blank(s[0])
    &&& !is_blank(s.last())
    &&& forall|i: int|
        0 <= i < s.len() ==> (#[trigger] s[i]) != '~' && s[i] != '(' && s[i] != ')' && s[i] != '"'
    &&& forall|i: int|
        0 <= i < s.len() && #[trigger] opens_word(s, i) ==> s[i] != '|' && s[i] != '!'
}

/// Whether a position is the first of a text or behind a blank.
pub open spec fn opens_word(s: Seq<char>, i: int) -> bool {
    i == 0 || is_blank(s[i - 1])
}

proof fn lemma_word_run(s: Seq<char>, from: int)
    requires
        0 <= from <= s.len(),
    ensures
        forall|i: int| from <= i < word_end(s, from) ==> !ends_word(#[trigger] s[i]),
    decreases s.len() - from,
{
    if from < s.len() && !ends_word(s[from]) {
        lemma_word_run(s, from + 1);
    }
}

/// The tokens from one position on, where the first one and those behind it are known.
proof fn lemma_token_step(s: Seq<char>, at: int, token: TokenView, end: int)
    requires
        0 <= at < end <= s.len(),
        token_at(s, at) == Ok::<(TokenView, int), TokenizeError>((token, end)),
    ensures
        tokens_from(s, at) == (match tokens_from(s, end) {
            Ok(rest) => Ok(seq![token] + rest),
            Err(e) => Err(e),
        }),
{
}

/// The token for a run of blanks, where it is known where the run ends.
proof fn lemma_blanks_token(s: Seq<char>, at: int, end: int)
    requires
        0 <= at < end <= s.len(),
        forall|i: int| at <= i < end ==> is_blank(#[trigger] s[i]),
        end < s.len() ==> !is_blank(s[end]),
    ensures
        token_at(s, at) == Ok::<(TokenView, int), TokenizeError>(
            (TokenView::Whitespace(s.subrange(at, end)), end),
        ),
{
    lemma_space_end(s, at);
    lemma_space_run(s, at);
    let e = space_end(s, at);
    assert(is_blank(s[at]));
    if e < end {
        assert(is_blank(s[e]));
    }
    if e > end {
        assert(is_space(s[end]));
    }
}

/// Whether reading words from some tokens on is reading a text and going on with the rest.
spec fn reads_on(t: Seq<TokenView>, tail: Seq<char>, rest: Seq<TokenView>) -> bool {
    forall|text: Seq<char>, gap: Seq<char>| #[trigger]
        words(text, gap, t) == words(text + gap + tail, Seq::empty(), rest)
}

proof fn lemma_blanks_read_on(
    part: Seq<char>,
    later: Seq<TokenView>,
    tail: Seq<char>,
    rest: Seq<TokenView>,
)
    requires
        reads_on(later, tail, rest),
    ensures
        reads_on(seq![TokenView::Whitespace(part)] + later, part + tail, rest),
{
    let t = seq![TokenView::Whitespace(part)] + later;
    assert(t.skip(1) =~= later);
    assert forall|text: Seq<char>, gap: Seq<char>| #[trigger] words(text, gap, t) == words(
        text + gap + (part + tail),
        Seq::empty(),
        rest,
    ) by {
        assert(words(text, gap, t) == words(text, gap + part, later));
        assert(text + (gap + part) + tail =~= text + gap + (part + tail));
    }
}

proof fn lemma_word_reads_on(
    part: Seq<char>,
    later: Seq<TokenView>,
    tail: Seq<char>,
    rest: Seq<TokenView>,
)
    requires
        reads_on(later, tail, rest) || (later == rest && tail.len() == 0),
    ensures
        reads_on(seq![TokenView::Text(part)] + later, part + tail, rest),
{
    let t = seq![TokenView::Text(part)] + later;
    let none = Seq::<char>::empty();
    assert(t.skip(1) =~= later);
    assert forall|text: Seq<char>, gap: Seq<char>| #[trigger] words(text, gap, t) == words(
        text + gap + (part + tail),
        none,
        rest,
    ) by {
        assert(words(text, gap, t) == words(text + gap + part, none, later));
        if reads_on(later, tail, rest) {
            assert(text + gap + part + none + tail =~= text + gap + (part + tail));
        } else {
            assert(text + gap + part =~= text + gap + (part + tail));
        }
    }
}

/// Whether a word, or a run of blanks, starts at a position of a phrase.
spec fn is_start(s: Seq<char>, i: int) -> bool {
    &&& is_blank(s[i]) || i == 0 || is_blank(s[i - 1])
    &&& is_blank(s[i]) ==> i > 0 && !is_blank(s[i - 1])
}

/// Whether something can follow behind a phrase without a gap.
pub open spec fn ends_phrase(post: Seq<char>) -> bool {
    post.len() > 0 ==> is_blank(post[0]) || post[0] == '~' || post[0] == '(' || post[0] == ')'
}

/// The token of a phrase that starts at a position, and where it ends.
proof fn lemma_phrase_token(pre: Seq<char>, s: Seq<char>, post: Seq<char>, i: int) -> (j: int)
    requires
        is_phrase(s),
        ends_phrase(post),
        0 <= i < s.len(),
        is_start(s, i),
    ensures
        i < j <= s.len(),
        j < s.len() ==> is_start(s, j),
        is_blank(s[i]) ==> j < s.len(),
        token_at(pre + s + post, pre.len() + i) == Ok::<(TokenView, int), TokenizeError>(
            (
                if is_blank(s[i]) {
                    TokenView::Whitespace(s.subrange(i, j))
                } else {
                    TokenView::Text(s.subrange(i, j))
                },
                pre.len() + j,
            ),
        ),
{
    let w = pre + s + post;
    let off = pre.len() as int;
    let stop = (pre.len() + s.len()) as int;
    let at = off + i;
    assert forall|k: int| 0 <= k < s.len() implies #[trigger] w[off + k] == s[k] by {}
    if post.len() > 0 {
        assert(w[stop] == post[0]);
    }
    assert(w[at] == s[i]);
    if is_blank(s[i]) {
        lemma_space_end(w, at);
        lemma_space_run(w, at);
        let end = space_end(w, at);
        assert(w[off + (s.len() - 1)] == s.last());
        assert(end < stop) by {
            if end >= stop {
                assert(is_space(w[off + (s.len() - 1)]));
            }
        }
        let j = end - off;
        assert(w.subrange(at, end) =~= s.subrange(i, j));
        assert(w[off + j] == s[j]);
        assert(w[off + (j - 1)] == s[j - 1]);
        assert(is_space(w[end - 1]));
        j
    } else {
        assert(opens_word(s, i));
        lemma_word_end(w, at);
        lemma_word_run(w, at);
        lemma_word_stops(w, at);
        let end = word_end(w, at);
        assert(end <= stop) by {
            if end > stop {
                assert(!ends_word(w[stop]));
            }
        }
        let j = end - off;
        assert(w.subrange(at, end) =~= s.subrange(i, j));
        if j < s.len() {
            assert(w[off + j] == s[j]);
            assert(w[off + (j - 1)] == s[j - 1]);
            assert(ends_word(w[end]));
            assert(!ends_word(w[end - 1]));
        }
        j
    }
}

/// How the words of a phrase are read, from one of them on. What is read behind the phrase follows.
proof fn lemma_phrase_tokens(pre: Seq<char>, s: Seq<char>, post: Seq<char>, i: int)
    requires
        is_phrase(s),
        ends_phrase(post),
        0 <= i < s.len(),
        is_start(s, i),
    ensures
        match tokens_from(pre + s + post, (pre.len() + s.len()) as int) {
            Ok(rest) => tokens_from(pre + s + post, pre.len() + i) matches Ok(t) && t.len() > 0
                && (t[0] is Text) == !is_blank(s[i]) && reads_on(t, s.skip(i), rest),
            Err(e) => tokens_from(pre + s + post, pre.len() + i) == Err::<
                Seq<TokenView>,
                TokenizeError,
            >(e),
        },
    decreases s.len() - i,
{
    let w = pre + s + post;
    let off = pre.len() as int;
    let j = lemma_phrase_token(pre, s, post, i);
    let part = s.subrange(i, j);
    let token = if is_blank(s[i]) {
        TokenView::Whitespace(part)
    } else {
        TokenView::Text(part)
    };
    lemma_token_step(w, off + i, token, off + j);
    if j < s.len() {
        lemma_phrase_tokens(pre, s, post, j);
    }
    if let Ok(rest) = tokens_from(w, off + s.len()) {
        let later = tokens_from(w, off + j)->Ok_0;
        assert(part + s.skip(j) =~= s.skip(i));
        if is_blank(s[i]) {
            lemma_blanks_read_on(part, later, s.skip(j), rest);
        } else {
            lemma_word_reads_on(part, later, s.skip(j), rest);
        }
    }
}

/// The word that the rest of the words follows.
proof fn lemma_first_word(t: Seq<TokenView>)
    requires
        t.len() > 0,
        t[0] is Text,
    ensures
        words(t[0]->Text_0, Seq::empty(), t.skip(1)) == words(Seq::empty(), Seq::empty(), t),
{
    let none = Seq::<char>::empty();
    assert(none + none + t[0]->Text_0 =~= t[0]->Text_0);
}

/// A filter on words: on the sender behind `~f`, on the body behind `~b` and where nothing is said.
pub open spec fn on_words(kind: Option<char>, text: Seq<char>) -> ExprView {
    if kind == Some('f') {
        ExprView::Sender(text)
    } else {
        ExprView::Body(text)
    }
}

/// How a filter on words is written.
pub open spec fn written(kind: Option<char>, gap: Seq<char>, text: Seq<char>) -> Seq<char> {
    match kind {
        Some(c) => seq!['~', c] + gap + text,
        None => text,
    }
}

/// Whether a filter on words can be written that way: the kind is known, and blanks separate it
/// from the words.
pub open spec fn is_writable(kind: Option<char>, gap: Seq<char>, text: Seq<char>) -> bool {
    &&& is_phrase(text)
    &&& all_blank(gap)
    &&& kind matches Some(c) ==> c == 'f' || c == 'b'
}

/// The item that starts with the words of a phrase.
proof fn lemma_words_read(s: Seq<char>, r: Seq<TokenView>, rest: Seq<TokenView>)
    requires
        r.len() > 0,
        r[0] is Text,
        reads_on(r, s, rest),
    ensures
        words(r[0]->Text_0, Seq::empty(), r.skip(1)) == words(s, Seq::empty(), rest),
{
    let none = Seq::<char>::empty();
    lemma_first_word(r);
    assert(words(none, none, r) == words(none + none + s, none, rest));
    assert(none + none + s =~= s);
}

/// What a filter on words and the tokens behind it are read as.
spec fn words_item(kind: Option<char>, s: Seq<char>, rest: Seq<TokenView>) -> Result<
    (ExprView, Seq<TokenView>),
    Failure,
> {
    let (text, left) = words(s, Seq::empty(), rest);
    Ok((on_words(kind, text), left))
}

/// How the tokens of a filter on words with a kind are read, where those of the words are known.
proof fn lemma_typed_item(c: char, blanks: Seq<TokenView>, r: Seq<TokenView>, s: Seq<char>, rest: Seq<TokenView>)
    requires
        c == 'f' || c == 'b',
        blanks.len() <= 1,
        blanks.len() == 1 ==> blanks[0] is Whitespace,
        r.len() > 0,
        r[0] is Text,
        reads_on(r, s, rest),
    ensures
        item_at(seq![TokenView::Type(c)] + (blanks + r)) == words_item(Some(c), s, rest),
{
    let t = seq![TokenView::Type(c)] + (blanks + r);
    let behind = blanks + r;
    assert(t.skip(1) =~= behind);
    assert(after_spaces(r) == r);
    if blanks.len() == 1 {
        assert(behind[0] is Whitespace);
        assert(behind.skip(1) =~= r);
    } else {
        assert(behind =~= r);
    }
    assert(after_spaces(behind) == r);
    lemma_words_read(s, r, rest);
}

/// How a filter on words is read in front of other tokens.
proof fn lemma_words_item(
    pre: Seq<char>,
    kind: Option<char>,
    gap: Seq<char>,
    s: Seq<char>,
    post: Seq<char>,
)
    requires
        is_writable(kind, gap, s),
        ends_phrase(post),
    ensures
        ({
            let text = written(kind, gap, s);
            let w = pre + text + post;
            match tokens_from(w, (pre.len() + text.len()) as int) {
                Ok(rest) => tokens_from(w, pre.len() as int) matches Ok(t) && t.len() > 0 && (t[0]
                    is Text || t[0] is Type) && item_at(t) == words_item(kind, s, rest),
                Err(e) => tokens_from(w, pre.len() as int) == Err::<Seq<TokenView>, TokenizeError>(e),
            }
        }),
{
    let text = written(kind, gap, s);
    let w = pre + text + post;
    let off = pre.len() as int;
    match kind {
        None => {
            lemma_phrase_tokens(pre, s, post, 0);
            assert(s.skip(0) =~= s);
            if let Ok(rest) = tokens_from(w, off + s.len()) {
                let t = tokens_from(w, off)->Ok_0;
                assert(after_spaces(t) == t);
                lemma_words_read(s, t, rest);
            }
        },
        Some(c) => {
            let lead = pre + seq!['~', c] + gap;
            assert(w =~= lead + s + post);
            lemma_phrase_tokens(lead, s, post, 0);
            assert(s.skip(0) =~= s);
            assert(w[off] == '~');
            assert(w[off + 1] == c);
            lemma_token_step(w, off, TokenView::Type(c), off + 2);
            let first = off + 2 + gap.len();
            assert(w[first] == s[0]);
            let blanks = TokenView::Whitespace(w.subrange(off + 2, first));
            if gap.len() > 0 {
                assert forall|i: int| off + 2 <= i < first implies is_blank(#[trigger] w[i]) by {
                    assert(w[i] == gap[i - off - 2]);
                }
                lemma_blanks_token(w, off + 2, first);
                lemma_token_step(w, off + 2, blanks, first);
            }
            if let Ok(rest) = tokens_from(w, off + text.len()) {
                let r = tokens_from(w, first)->Ok_0;
                if gap.len() > 0 {
                    lemma_typed_item(c, seq![blanks], r, s, rest);
                } else {
                    assert(Seq::<TokenView>::empty() + r =~= r);
                    lemma_typed_item(c, Seq::empty(), r, s, rest);
                }
            }
        },
    }
}

/// How tokens that start with one filter on words are read.
proof fn lemma_item_first(t: Seq<TokenView>, e: ExprView, rest: Seq<TokenView>)
    requires
        after_spaces(t).len() > 0,
        after_spaces(t)[0] is Text || after_spaces(t)[0] is Type,
        item_at(after_spaces(t)) == Ok::<(ExprView, Seq<TokenView>), Failure>((e, rest)),
    ensures
        rest.len() < t.len(),
        conjuncts_at(t) == prepended(e, conjuncts_at(rest)),
{
    lemma_after_spaces(t);
    lemma_item_normal(after_spaces(t));
}

/// A phrase is a filter on the body with the phrase, just as it is typed, as its pattern. Behind
/// `~b` it is one too, and behind `~f` it is a filter on the sender. Blanks around it, and behind
/// the kind, do not matter.
pub proof fn law_phrase_is_a_filter(
    before: Seq<char>,
    kind: Option<char>,
    gap: Seq<char>,
    s: Seq<char>,
    after: Seq<char>,
)
    requires
        is_writable(kind, gap, s),
        all_blank(before),
        all_blank(after),
    ensures
        parsed(before + written(kind, gap, s) + after) == Ok::<ExprView, Seq<char>>(
            match kind {
                Some('f') => ExprView::Sender(s),
                _ => ExprView::Body(s),
            },
        ),
{
    let none = Seq::<TokenView>::empty();
    let text = written(kind, gap, s);
    let w = before + text + after;
    let off = before.len() as int;
    let stop = (before.len() + text.len()) as int;
    lemma_words_item(before, kind, gap, s, after);
    if after.len() > 0 {
        assert forall|i: int| stop <= i < w.len() implies is_blank(#[trigger] w[i]) by {
            assert(w[i] == after[i - stop]);
        }
        assert(is_blank(after[0]));
        lemma_blanks_token(w, stop, w.len() as int);
        let blanks = TokenView::Whitespace(w.subrange(stop, w.len() as int));
        lemma_token_step(w, stop, blanks, w.len() as int);
        assert(tokens_from(w, w.len() as int) == Ok::<Seq<TokenView>, TokenizeError>(none));
        let rest = seq![blanks] + none;
        assert(rest.skip(1) =~= none);
        assert(words(s, Seq::empty(), rest) == words(s, Seq::empty() + blanks->Whitespace_0, none));
    }
    let rest = tokens_from(w, stop)->Ok_0;
    assert(words(s, Seq::empty(), rest) == (s, none));
    let e = on_words(kind, s);
    let t = tokens_from(w, off)->Ok_0;
    let all = if before.len() > 0 {
        assert forall|i: int| 0 <= i < off implies is_blank(#[trigger] w[i]) by {
            assert(w[i] == before[i]);
        }
        assert(w[off] == text[0]);
        lemma_blanks_token(w, 0, off);
        let blanks = TokenView::Whitespace(w.subrange(0, off));
        lemma_token_step(w, 0, blanks, off);
        let all = seq![blanks] + t;
        assert(all.skip(1) =~= t);
        all
    } else {
        t
    };
    assert(tokens_from(w, 0) == Ok::<Seq<TokenView>, TokenizeError>(all));
    assert(after_spaces(t) == t);
    assert(after_spaces(all) == t);
    lemma_item_first(all, e, none);
    let no_items = Seq::<ExprView>::empty();
    assert(conjuncts_at(none) == Ok::<(Seq<ExprView>, Seq<TokenView>), Failure>((no_items, none)));
    assert(seq![e] + no_items =~= seq![e]);
    assert(conjunction_at(all) == Ok::<(ExprView, Seq<TokenView>), Failure>((e, none)));
    assert(disjuncts_at(all) == Ok::<(Seq<ExprView>, Seq<TokenView>), Failure>((seq![e], none)));
}

/// A filter on words as it is written: its kind, the blanks behind the kind, and the words.
pub struct Item {
    pub kind: Option<char>,
    pub gap: Seq<char>,
    pub text: Seq<char>,
}

impl Item {
    /// The filter that the item stands for.
    pub open spec fn expr(self) -> ExprView {
        match self.kind {
            Some('f') => ExprView::Sender(self.text),
            _ => ExprView::Body(self.text),
        }
    }
}

/// Whether items can be written one behind the other: each can be written, and all but the first
/// have a kind.
pub open spec fn are_items(items: Seq<Item>) -> bool {
    &&& items.len() > 0
    &&& forall|i: int|
        0 <= i < items.len() ==> is_writable(
            (#[trigger] items[i]).kind,
            items[i].gap,
            items[i].text,
        ) && (i > 0 ==> items[i].kind is Some)
}

/// Items written one behind the other.
pub open spec fn items_text(items: Seq<Item>) -> Seq<char>
    decreases items.len(),
{
    if items.len() == 0 {
        Seq::empty()
    } else {
        let first = written(items[0].kind, items[0].gap, items[0].text);
        if items.len() == 1 {
            first
        } else {
            first + seq![' '] + items_text(items.skip(1))
        }
    }
}

/// What items that are written one behind the other stand for: they hold together.
pub open spec fn items_expr(items: Seq<Item>) -> ExprView {
    if items.len() == 1 {
        items[0].expr()
    } else {
        ExprView::And(Seq::new(items.len(), |i: int| items[i].expr()))
    }
}

/// Alternatives with bars between them.
pub open spec fn alternatives_text(alts: Seq<Seq<Item>>) -> Seq<char>
    decreases alts.len(),
{
    if alts.len() == 0 {
        Seq::empty()
    } else if alts.len() == 1 {
        items_text(alts[0])
    } else {
        items_text(alts[0]) + seq![' ', '|', ' '] + alternatives_text(alts.skip(1))
    }
}

/// What alternatives stand for: one of them holds.
pub open spec fn alternatives_expr(alts: Seq<Seq<Item>>) -> ExprView {
    if alts.len() == 1 {
        items_expr(alts[0])
    } else {
        ExprView::Or(Seq::new(alts.len(), |i: int| items_expr(alts[i])))
    }
}

/// Behind words, the blanks in front of the end of a conjunction are skipped.
proof fn lemma_words_end(text: Seq<char>, gap: Seq<char>, rest: Seq<TokenView>)
    requires
        after_spaces(rest).len() == 0 || !(after_spaces(rest)[0] is Text),
    ensures
        words(text, gap, rest) == (text, after_spaces(rest)),
    decreases rest.len(),
{
    if rest.len() > 0 && rest[0] is Whitespace {
        lemma_words_end(text, gap + rest[0]->Whitespace_0, rest.skip(1));
    }
}

/// The text of items, without the first.
proof fn lemma_items_rest(items: Seq<Item>)
    requires
        are_items(items),
        items.len() > 1,
    ensures
        are_items(items.skip(1)),
        items.skip(1)[0].kind is Some,
{
    let rest = items.skip(1);
    assert forall|i: int| 0 <= i < rest.len() implies is_writable(
        (#[trigger] rest[i]).kind,
        rest[i].gap,
        rest[i].text,
    ) && (i > 0 ==> rest[i].kind is Some) by {
        assert(rest[i] == items[i + 1]);
    }
    assert(rest[0] == items[1]);
}

proof fn lemma_written_starts(kind: Option<char>, gap: Seq<char>, text: Seq<char>)
    requires
        is_writable(kind, gap, text),
    ensures
        written(kind, gap, text).len() > 0,
        kind is Some ==> written(kind, gap, text)[0] == '~',
        !is_blank(written(kind, gap, text)[0]),
        written(kind, gap, text)[0] != '|',
        written(kind, gap, text)[0] != '!',
{
    assert(opens_word(text, 0));
}

/// How the filters behind an item go on, where it is known how those behind it are read.
proof fn lemma_item_and_rest(
    t: Seq<TokenView>,
    item: Item,
    rest: Seq<TokenView>,
    v: Seq<ExprView>,
    end: Seq<TokenView>,
)
    requires
        t.len() > 0,
        t[0] is Text || t[0] is Type,
        item_at(t) == words_item(item.kind, item.text, rest),
        after_spaces(rest).len() == 0 || !(after_spaces(rest)[0] is Text),
        conjuncts_at(after_spaces(rest)) == Ok::<(Seq<ExprView>, Seq<TokenView>), Failure>((v, end)),
    ensures
        conjuncts_at(t) == Ok::<(Seq<ExprView>, Seq<TokenView>), Failure>(
            (seq![item.expr()] + v, end),
        ),
{
    lemma_words_end(item.text, Seq::empty(), rest);
    assert(after_spaces(t) == t);
    assert(on_words(item.kind, item.text) == item.expr());
    lemma_item_first(t, item.expr(), after_spaces(rest));
}

/// The blank between two items.
proof fn lemma_blank_between(pre: Seq<char>, first: Seq<char>, later: Seq<char>, post: Seq<char>)
    requires
        later.len() > 0,
        !is_blank(later[0]),
        tokens_from(
            pre + first + seq![' '] + later + post,
            (pre.len() + first.len() + 1) as int,
        ) matches Ok(t) && t.len() > 0 && !(t[0] is Whitespace),
    ensures
        tokens_from(
            pre + first + seq![' '] + later + post,
            (pre.len() + first.len()) as int,
        ) matches Ok(r) && after_spaces(r) == tokens_from(
            pre + first + seq![' '] + later + post,
            (pre.len() + first.len() + 1) as int,
        )->Ok_0,
{
    let w = pre + first + seq![' '] + later + post;
    let at = (pre.len() + first.len()) as int;
    let t = tokens_from(w, at + 1)->Ok_0;
    assert(w[at] == ' ');
    assert(w[at + 1] == later[0]);
    lemma_blanks_token(w, at, at + 1);
    let blank = TokenView::Whitespace(w.subrange(at, at + 1));
    lemma_token_step(w, at, blank, at + 1);
    let r = seq![blank] + t;
    assert(r.skip(1) =~= t);
    assert(after_spaces(t) == t);
}

/// Whether items are read at a position of a text, in front of the rest of the tokens.
spec fn items_read(w: Seq<char>, at: int, items: Seq<Item>, rest: Seq<TokenView>) -> bool {
    tokens_from(w, at) matches Ok(t) && t.len() > 0 && (t[0] is Text || t[0] is Type) && (
    items[0].kind is Some ==> t[0] is Type) && conjuncts_at(t) == Ok::<
        (Seq<ExprView>, Seq<TokenView>),
        Failure,
    >((Seq::new(items.len(), |i: int| items[i].expr()), after_spaces(rest)))
}

proof fn lemma_kind_is_read(w: Seq<char>, at: int, item: Item)
    requires
        is_writable(item.kind, item.gap, item.text),
        0 <= at < w.len(),
        w[at] == written(item.kind, item.gap, item.text)[0],
        item.kind is Some,
    ensures
        token_at(w, at) matches Ok((k, _)) ==> k is Type,
{
    lemma_written_starts(item.kind, item.gap, item.text);
}

proof fn lemma_last_item(pre: Seq<char>, items: Seq<Item>, post: Seq<char>, rest: Seq<TokenView>)
    requires
        are_items(items),
        items.len() == 1,
        ends_phrase(post),
        tokens_from(
            pre + items_text(items) + post,
            (pre.len() + items_text(items).len()) as int,
        ) == Ok::<Seq<TokenView>, TokenizeError>(rest),
        ends_conjunction(after_spaces(rest)),
    ensures
        items_read(pre + items_text(items) + post, pre.len() as int, items, rest),
{
    let w = pre + items_text(items) + post;
    let off = pre.len() as int;
    let end = after_spaces(rest);
    let item = items[0];
    let no_items = Seq::<ExprView>::empty();
    assert(is_writable(items[0].kind, items[0].gap, items[0].text));
    lemma_written_starts(item.kind, item.gap, item.text);
    lemma_after_spaces_stops(rest);
    if item.kind is Some {
        lemma_kind_is_read(w, off, item);
    }
    lemma_words_item(pre, item.kind, item.gap, item.text, post);
    let t = tokens_from(w, off)->Ok_0;
    assert(conjuncts_at(end) == Ok::<(Seq<ExprView>, Seq<TokenView>), Failure>((no_items, end)));
    lemma_item_and_rest(t, item, rest, no_items, end);
    assert(Seq::new(items.len(), |i: int| items[i].expr()) =~= seq![item.expr()] + no_items);
}

proof fn lemma_one_more_item(
    pre: Seq<char>,
    items: Seq<Item>,
    post: Seq<char>,
    rest: Seq<TokenView>,
)
    requires
        are_items(items),
        items.len() > 1,
        ends_phrase(post),
        ends_conjunction(after_spaces(rest)),
        ({
            let first = written(items[0].kind, items[0].gap, items[0].text);
            items_read(
                pre + items_text(items) + post,
                (pre.len() + first.len() + 1) as int,
                items.skip(1),
                rest,
            )
        }),
    ensures
        items_read(pre + items_text(items) + post, pre.len() as int, items, rest),
{
    let w = pre + items_text(items) + post;
    let off = pre.len() as int;
    let end = after_spaces(rest);
    let item = items[0];
    let first = written(item.kind, item.gap, item.text);
    let others = items.skip(1);
    let later = items_text(others);
    assert(is_writable(items[0].kind, items[0].gap, items[0].text));
    lemma_written_starts(item.kind, item.gap, item.text);
    lemma_items_rest(items);
    lemma_after_spaces_stops(rest);
    if item.kind is Some {
        assert(w[off] == first[0]);
        lemma_kind_is_read(w, off, item);
    }
    assert(is_writable(others[0].kind, others[0].gap, others[0].text));
    lemma_written_starts(others[0].kind, others[0].gap, others[0].text);
    assert(later.len() > 0 && later[0] == '~');
    assert(w =~= pre + first + seq![' '] + later + post);
    lemma_blank_between(pre, first, later, post);
    let behind = seq![' '] + later + post;
    assert(w =~= pre + first + behind);
    lemma_words_item(pre, item.kind, item.gap, item.text, behind);
    let t = tokens_from(w, off)->Ok_0;
    let r = tokens_from(w, off + first.len())->Ok_0;
    let later_views = Seq::new(others.len(), |i: int| others[i].expr());
    lemma_item_and_rest(t, item, r, later_views, end);
    assert(Seq::new(items.len(), |i: int| items[i].expr()) =~= seq![item.expr()] + later_views);
}

/// How items are read in front of tokens that end a conjunction.
proof fn lemma_items_tokens(pre: Seq<char>, items: Seq<Item>, post: Seq<char>)
    requires
        are_items(items),
        ends_phrase(post),
        tokens_from(
            pre + items_text(items) + post,
            (pre.len() + items_text(items).len()) as int,
        ) matches Ok(rest) && ends_conjunction(after_spaces(rest)),
    ensures
        items_read(
            pre + items_text(items) + post,
            pre.len() as int,
            items,
            tokens_from(
                pre + items_text(items) + post,
                (pre.len() + items_text(items).len()) as int,
            )->Ok_0,
        ),
    decreases items.len(),
{
    let text = items_text(items);
    let w = pre + text + post;
    let rest = tokens_from(w, (pre.len() + text.len()) as int)->Ok_0;
    if items.len() == 1 {
        lemma_last_item(pre, items, post, rest);
    } else {
        let others = items.skip(1);
        lemma_items_rest(items);
        let first = written(items[0].kind, items[0].gap, items[0].text);
        let lead = pre + first + seq![' '];
        let later = items_text(others);
        assert(w =~= lead + later + post);
        assert(lead.len() + later.len() == pre.len() + text.len());
        lemma_items_tokens(lead, others, post);
        lemma_one_more_item(pre, items, post, rest);
    }
}

/// Blanks in front do not change how alternatives are read.
proof fn lemma_alternatives_behind_blanks(t: Seq<TokenView>, blanks: Seq<char>)
    requires
        t.len() > 0,
        t[0] is Text || t[0] is Type,
    ensures
        disjuncts_at(seq![TokenView::Whitespace(blanks)] + t) == disjuncts_at(t),
{
    let u = seq![TokenView::Whitespace(blanks)] + t;
    assert(u.skip(1) =~= t);
    assert(after_spaces(t) == t);
    assert(after_spaces(u) == t);
    lemma_item_normal(t);
    assert(conjuncts_at(u) == conjuncts_at(t));
    assert(conjunction_at(u) == conjunction_at(t));
    lemma_conjuncts_normal(t);
}

/// The tokens of a bar with a blank behind it, and what follows.
spec fn behind_bar(blanks: Seq<char>, t: Seq<TokenView>) -> Seq<TokenView> {
    seq![TokenView::Bar] + (seq![TokenView::Whitespace(blanks)] + t)
}

/// The bar between two alternatives.
proof fn lemma_bar_between(pre: Seq<char>, first: Seq<char>, later: Seq<char>, post: Seq<char>)
    requires
        later.len() > 0,
        !is_blank(later[0]),
        tokens_from(
            pre + first + seq![' ', '|', ' '] + later + post,
            (pre.len() + first.len() + 3) as int,
        ) is Ok,
    ensures
        tokens_from(
            pre + first + seq![' ', '|', ' '] + later + post,
            (pre.len() + first.len()) as int,
        ) matches Ok(r) && after_spaces(r) == behind_bar(
            seq![' '],
            tokens_from(
                pre + first + seq![' ', '|', ' '] + later + post,
                (pre.len() + first.len() + 3) as int,
            )->Ok_0,
        ),
{
    let w = pre + first + seq![' ', '|', ' '] + later + post;
    let at = (pre.len() + first.len()) as int;
    let t1 = tokens_from(w, at + 3)->Ok_0;
    assert(w[at] == ' ');
    assert(w[at + 1] == '|');
    assert(w[at + 2] == ' ');
    assert(w[at + 3] == later[0]);
    lemma_blanks_token(w, at + 2, at + 3);
    let last_blank = TokenView::Whitespace(w.subrange(at + 2, at + 3));
    assert(w.subrange(at + 2, at + 3) =~= seq![' ']);
    lemma_token_step(w, at + 2, last_blank, at + 3);
    lemma_token_step(w, at + 1, TokenView::Bar, at + 2);
    lemma_blanks_token(w, at, at + 1);
    let first_blank = TokenView::Whitespace(w.subrange(at, at + 1));
    lemma_token_step(w, at, first_blank, at + 1);
    let b = behind_bar(seq![' '], t1);
    let r = seq![first_blank] + b;
    assert(r.skip(1) =~= b);
    assert(after_spaces(b) == b);
}

/// What the filters of a conjunction are together.
proof fn lemma_conjunction_of_items(t: Seq<TokenView>, items: Seq<Item>, end: Seq<TokenView>)
    requires
        items.len() > 0,
        conjuncts_at(t) == Ok::<(Seq<ExprView>, Seq<TokenView>), Failure>(
            (Seq::new(items.len(), |i: int| items[i].expr()), end),
        ),
    ensures
        conjunction_at(t) == Ok::<(ExprView, Seq<TokenView>), Failure>((items_expr(items), end)),
        end.len() <= t.len(),
{
    let views = Seq::new(items.len(), |i: int| items[i].expr());
    if items.len() > 1 {
        assert(items_expr(items) == ExprView::And(views));
    }
    lemma_conjuncts_normal(t);
}

/// How alternatives go on behind a bar.
proof fn lemma_alternative_and_rest(
    t: Seq<TokenView>,
    e: ExprView,
    blanks: Seq<char>,
    t1: Seq<TokenView>,
    v: Seq<ExprView>,
    end: Seq<TokenView>,
)
    requires
        t1.len() > 0,
        t1[0] is Text || t1[0] is Type,
        conjunction_at(t) == Ok::<(ExprView, Seq<TokenView>), Failure>((e, behind_bar(blanks, t1))),
        behind_bar(blanks, t1).len() <= t.len(),
        disjuncts_at(t1) == Ok::<(Seq<ExprView>, Seq<TokenView>), Failure>((v, end)),
    ensures
        disjuncts_at(t) == Ok::<(Seq<ExprView>, Seq<TokenView>), Failure>((seq![e] + v, end)),
{
    let b = behind_bar(blanks, t1);
    let c = seq![TokenView::Whitespace(blanks)] + t1;
    assert(b.skip(1) =~= c);
    lemma_alternatives_behind_blanks(t1, blanks);
}

/// Whether alternatives are read at a position of a text, in front of the rest of the tokens.
spec fn alternatives_read(w: Seq<char>, at: int, alts: Seq<Seq<Item>>, rest: Seq<TokenView>) -> bool {
    tokens_from(w, at) matches Ok(t) && t.len() > 0 && (t[0] is Text || t[0] is Type)
        && disjuncts_at(t) == Ok::<(Seq<ExprView>, Seq<TokenView>), Failure>(
        (Seq::new(alts.len(), |i: int| items_expr(alts[i])), after_spaces(rest)),
    )
}

/// The first character of alternatives.
proof fn lemma_alternatives_start(alts: Seq<Seq<Item>>)
    requires
        alts.len() > 0,
        are_items(alts[0]),
    ensures
        alternatives_text(alts).len() > 0,
        !is_blank(alternatives_text(alts)[0]),
{
    let o = alts[0][0];
    assert(is_writable(alts[0][0].kind, alts[0][0].gap, alts[0][0].text));
    lemma_written_starts(o.kind, o.gap, o.text);
    assert(items_text(alts[0]).len() > 0);
    assert(items_text(alts[0])[0] == written(o.kind, o.gap, o.text)[0]);
}

/// How alternatives are read in front of tokens that end a filter.
proof fn lemma_alternatives_tokens(pre: Seq<char>, alts: Seq<Seq<Item>>, post: Seq<char>)
    requires
        alts.len() > 0,
        forall|i: int| 0 <= i < alts.len() ==> are_items(#[trigger] alts[i]),
        ends_phrase(post),
        tokens_from(
            pre + alternatives_text(alts) + post,
            (pre.len() + alternatives_text(alts).len()) as int,
        ) matches Ok(rest) && ends_filter(rest),
    ensures
        alternatives_read(
            pre + alternatives_text(alts) + post,
            pre.len() as int,
            alts,
            tokens_from(
                pre + alternatives_text(alts) + post,
                (pre.len() + alternatives_text(alts).len()) as int,
            )->Ok_0,
        ),
    decreases alts.len(),
{
    let text = alternatives_text(alts);
    let w = pre + text + post;
    let off = pre.len() as int;
    let first = items_text(alts[0]);
    let e = items_expr(alts[0]);
    let rest = tokens_from(w, off + text.len())->Ok_0;
    let end = after_spaces(rest);
    let views = Seq::new(alts.len(), |i: int| items_expr(alts[i]));
    assert(are_items(alts[0]));
    if alts.len() == 1 {
        lemma_items_tokens(pre, alts[0], post);
        let t = tokens_from(w, off)->Ok_0;
        lemma_conjunction_of_items(t, alts[0], end);
        assert(views =~= seq![e]);
    } else {
        let others = alts.skip(1);
        assert forall|i: int| 0 <= i < others.len() implies are_items(#[trigger] others[i]) by {
            assert(others[i] == alts[i + 1]);
        }
        assert(are_items(others[0]));
        let lead = pre + first + seq![' ', '|', ' '];
        let later = alternatives_text(others);
        assert(w =~= lead + later + post);
        assert(lead.len() + later.len() == off + text.len());
        lemma_alternatives_tokens(lead, others, post);
        lemma_alternatives_start(others);
        lemma_bar_between(pre, first, later, post);
        let at = off + first.len();
        let t1 = tokens_from(w, at + 3)->Ok_0;
        let behind = seq![' ', '|', ' '] + later + post;
        assert(w =~= pre + first + behind);
        lemma_items_tokens(pre, alts[0], behind);
        let t = tokens_from(w, off)->Ok_0;
        lemma_conjunction_of_items(t, alts[0], behind_bar(seq![' '], t1));
        let later_views = Seq::new(others.len(), |i: int| items_expr(others[i]));
        lemma_alternative_and_rest(t, e, seq![' '], t1, later_views, end);
        assert(views =~= seq![e] + later_views);
    }
}

/// Items one behind the other hold together, and bars separate alternatives. Bars bind less than
/// what stands side by side.
pub proof fn law_items_and_alternatives(alts: Seq<Seq<Item>>)
    requires
        alts.len() > 0,
        forall|i: int| 0 <= i < alts.len() ==> are_items(#[trigger] alts[i]),
    ensures
        parsed(alternatives_text(alts)) == Ok::<ExprView, Seq<char>>(alternatives_expr(alts)),
{
    let none = Seq::<char>::empty();
    let text = alternatives_text(alts);
    assert(none + text + none =~= text);
    assert(tokens_from(text, text.len() as int) == Ok::<Seq<TokenView>, TokenizeError>(Seq::empty()));
    lemma_alternatives_tokens(none, alts, none);
    if alts.len() > 1 {
        let views = Seq::new(alts.len(), |i: int| items_expr(alts[i]));
        assert(alternatives_expr(alts) == ExprView::Or(views));
    }
}

/// Behind a filter a closing parenthesis ends everything that was read in front of it, whatever
/// follows the parenthesis.
proof fn lemma_item_closed(t: Seq<TokenView>, more: Seq<TokenView>)
    requires
        more.len() > 0,
        more[0] is RParen,
    ensures
        item_at(t) matches Ok((e, rest)) ==> item_at(t + more) == Ok::<
            (ExprView, Seq<TokenView>),
            Failure,
        >((e, rest + more)),
{
    let typed = t.len() > 0 && t[0] is Type;
    let v = if typed {
        t.skip(1)
    } else {
        t
    };
    let closed = t + more;
    let closed_v = if typed {
        closed.skip(1)
    } else {
        closed
    };
    assert(closed_v =~= v + more);
    lemma_spaces_closed(v, more);
    let u = after_spaces(v);
    if u.len() > 0 && u[0] is Text {
        assert((u + more).skip(1) =~= u.skip(1) + more);
        lemma_words_closed(u[0]->Text_0, Seq::empty(), u.skip(1), more);
    }
}

proof fn lemma_spaces_closed(t: Seq<TokenView>, more: Seq<TokenView>)
    requires
        more.len() > 0,
        more[0] is RParen,
    ensures
        after_spaces(t + more) == after_spaces(t) + more,
    decreases t.len(),
{
    if t.len() == 0 {
        assert(t + more =~= more);
    } else if t[0] is Whitespace {
        assert((t + more).skip(1) =~= t.skip(1) + more);
        lemma_spaces_closed(t.skip(1), more);
    }
}

proof fn lemma_words_closed(
    text: Seq<char>,
    gap: Seq<char>,
    t: Seq<TokenView>,
    more: Seq<TokenView>,
)
    requires
        more.len() > 0,
        more[0] is RParen,
    ensures
        words(text, gap, t + more) == (words(text, gap, t).0, words(text, gap, t).1 + more),
    decreases t.len(),
{
    if t.len() > 0 {
        assert((t + more).skip(1) =~= t.skip(1) + more);
        match t[0] {
            TokenView::Whitespace(s) => {
                lemma_words_closed(text, gap + s, t.skip(1), more);
            },
            TokenView::Text(s) => {
                lemma_words_closed(text + gap + s, Seq::empty(), t.skip(1), more);
            },
            _ => {},
        }
    } else {
        assert(t + more =~= more);
    }
}

proof fn lemma_conjuncts_closed(t: Seq<TokenView>, more: Seq<TokenView>)
    requires
        more.len() > 0,
        more[0] is RParen,
    ensures
        conjuncts_at(t) matches Ok((v, rest)) ==> conjuncts_at(t + more) == Ok::<
            (Seq<ExprView>, Seq<TokenView>),
            Failure,
        >((v, rest + more)),
    decreases t.len(), 1nat,
{
    lemma_after_spaces(t);
    lemma_spaces_closed(t, more);
    let u = after_spaces(t);
    let closed = u + more;
    if u.len() > 0 {
        assert(closed[0] == u[0]);
        match u[0] {
            TokenView::Type(_) | TokenView::Text(_) => {
                lemma_item_closed(u, more);
                if let Ok((_, rest)) = item_at(u) {
                    if rest.len() < t.len() {
                        lemma_conjuncts_closed(rest, more);
                    }
                }
            },
            TokenView::LParen => {
                lemma_group_closed(u, more);
                if let Ok((_, rest)) = group_at(u) {
                    if rest.len() < t.len() {
                        lemma_conjuncts_closed(rest, more);
                    }
                }
            },
            TokenView::Exclamation => {
                assert(closed.skip(1) =~= u.skip(1) + more);
                lemma_filter_closed(u.skip(1), more);
                if let Ok((_, rest)) = filter_at(u.skip(1)) {
                    if rest.len() < t.len() {
                        lemma_conjuncts_closed(rest, more);
                    }
                }
            },
            _ => {},
        }
    } else {
        assert(closed[0] == more[0]);
    }
}

proof fn lemma_disjuncts_closed(t: Seq<TokenView>, more: Seq<TokenView>)
    requires
        more.len() > 0,
        more[0] is RParen,
    ensures
        disjuncts_at(t) matches Ok((v, rest)) ==> disjuncts_at(t + more) == Ok::<
            (Seq<ExprView>, Seq<TokenView>),
            Failure,
        >((v, rest + more)),
    decreases t.len(), 3nat,
{
    let closed = t + more;
    lemma_conjuncts_closed(t, more);
    if let Ok((e, rest)) = conjunction_at(t) {
        assert(conjunction_at(closed) == Ok::<(ExprView, Seq<TokenView>), Failure>(
            (e, rest + more),
        ));
        if rest.len() > 0 && rest[0] is Bar && rest.len() <= t.len() {
            assert((rest + more).skip(1) =~= rest.skip(1) + more);
            lemma_disjuncts_closed(rest.skip(1), more);
        } else {
            lemma_conjuncts_normal(t);
            assert(!((rest + more)[0] is Bar));
        }
    }
}

proof fn lemma_group_closed(t: Seq<TokenView>, more: Seq<TokenView>)
    requires
        more.len() > 0,
        more[0] is RParen,
    ensures
        group_at(t) matches Ok((e, rest)) ==> group_at(t + more) == Ok::<
            (ExprView, Seq<TokenView>),
            Failure,
        >((e, rest + more)),
    decreases t.len(), 0nat,
{
    if t.len() > 0 {
        assert((t + more).skip(1) =~= t.skip(1) + more);
        lemma_filter_closed(t.skip(1), more);
        if let Ok((e, rest)) = filter_at(t.skip(1)) {
            if rest.len() > 0 {
                assert((rest + more).skip(1) =~= rest.skip(1) + more);
            }
        }
    }
}

proof fn lemma_filter_closed(t: Seq<TokenView>, more: Seq<TokenView>)
    requires
        more.len() > 0,
        more[0] is RParen,
    ensures
        filter_at(t) matches Ok((e, rest)) ==> filter_at(t + more) == Ok::<
            (ExprView, Seq<TokenView>),
            Failure,
        >((e, rest + more)),
    decreases t.len(), 4nat,
{
    if t.len() > 0 && t[0] is LParen {
        lemma_group_closed(t, more);
    } else {
        lemma_disjuncts_closed(t, more);
    }
}

proof fn lemma_string_extended(s: Seq<char>, tail: Seq<char>, begin: int, at: int)
    requires
        0 <= at,
    ensures
        string_rest(s, begin, at) matches Ok((text, end)) ==> string_rest(s + tail, begin, at)
            == Ok::<(Seq<char>, int), TokenizeError>((text, end)),
    decreases s.len() - at,
{
    if at < s.len() {
        assert((s + tail)[at] == s[at]);
        if s[at] == '\\' {
            if at + 1 < s.len() {
                assert((s + tail)[at + 1] == s[at + 1]);
                lemma_string_extended(s, tail, begin, at + 2);
            }
        } else if s[at] != '"' {
            lemma_string_extended(s, tail, begin, at + 1);
        }
    }
}

proof fn lemma_runs_closed(s: Seq<char>, tail: Seq<char>, at: int)
    requires
        0 <= at <= s.len(),
        tail.len() > 0,
        tail[0] == ')',
    ensures
        space_end(s + tail, at) == space_end(s, at),
        word_end(s + tail, at) == word_end(s, at),
    decreases s.len() - at,
{
    if at < s.len() {
        assert((s + tail)[at] == s[at]);
        lemma_runs_closed(s, tail, at + 1);
    } else {
        assert((s + tail)[at] == ')');
    }
}

proof fn lemma_token_closed(s: Seq<char>, tail: Seq<char>, at: int)
    requires
        0 <= at < s.len(),
        tail.len() > 0,
        tail[0] == ')',
    ensures
        token_at(s, at) matches Ok((token, end)) ==> token_at(s + tail, at) == Ok::<
            (TokenView, int),
            TokenizeError,
        >((token, end)),
{
    let w = s + tail;
    assert(w[at] == s[at]);
    lemma_token_at(s, at);
    lemma_runs_closed(s, tail, at);
    lemma_string_extended(s, tail, at, at + 1);
    if at + 1 < s.len() {
        assert(w[at + 1] == s[at + 1]);
    }
    if let Ok((_, end)) = token_at(s, at) {
        assert(w.subrange(at, end) =~= s.subrange(at, end));
    }
}

proof fn lemma_tokens_closed(s: Seq<char>, tail: Seq<char>, m: Seq<TokenView>, at: int)
    requires
        0 <= at <= s.len(),
        tail.len() > 0,
        tail[0] == ')',
        tokens_from(tail, 0) == Ok::<Seq<TokenView>, TokenizeError>(m),
    ensures
        tokens_from(s, at) matches Ok(t) ==> tokens_from(s + tail, at) == Ok::<
            Seq<TokenView>,
            TokenizeError,
        >(t + m),
    decreases s.len() - at,
{
    let w = s + tail;
    let none = Seq::<TokenView>::empty();
    if at < s.len() {
        lemma_token_at(s, at);
        lemma_token_closed(s, tail, at);
        if let Ok((token, end)) = token_at(s, at) {
            lemma_tokens_closed(s, tail, m, end);
            if let Ok(rest) = tokens_from(s, end) {
                assert(seq![token] + (rest + m) =~= (seq![token] + rest) + m);
            }
        }
    } else {
        lemma_tokens_behind(s, tail);
        assert(none + m =~= m);
    }
}

/// The tokens of a closing parenthesis and what follows it.
proof fn lemma_parenthesis_tokens(rest: Seq<char>, m: Seq<TokenView>)
    requires
        tokens_from(rest, 0) == Ok::<Seq<TokenView>, TokenizeError>(m),
    ensures
        tokens_from(seq![')'] + rest, 0) == Ok::<Seq<TokenView>, TokenizeError>(
            seq![TokenView::RParen] + m,
        ),
{
    let w = seq![')'] + rest;
    lemma_tokens_behind(seq![')'], rest);
    assert(w[0] == ')');
    lemma_token_step(w, 0, TokenView::RParen, 1);
}

proof fn lemma_tokens_behind(pre: Seq<char>, s: Seq<char>)
    ensures
        tokens_from(s, 0) matches Ok(t) ==> tokens_from(pre + s, pre.len() as int) == Ok::<
            Seq<TokenView>,
            TokenizeError,
        >(t),
    decreases pre.len(),
{
    if pre.len() == 0 {
        assert(pre + s =~= s);
    } else {
        let rest = pre.skip(1);
        lemma_tokens_behind(rest, s);
        lemma_tokens_shift(pre[0], rest + s, rest.len() as int);
        assert(seq![pre[0]] + (rest + s) =~= pre + s);
    }
}

/// Whether a text is read as a filter to its end.
pub open spec fn is_whole_filter(s: Seq<char>, e: ExprView) -> bool {
    tokens_from(s, 0) matches Ok(t) && filter_at(t) == Ok::<(ExprView, Seq<TokenView>), Failure>(
        (e, Seq::empty()),
    )
}

proof fn lemma_group_tokens(s: Seq<char>, e: ExprView, tail: Seq<char>, m: Seq<TokenView>)
    requires
        is_whole_filter(s, e),
        tokens_from(tail, 0) == Ok::<Seq<TokenView>, TokenizeError>(m),
    ensures
        tokens_from(seq!['('] + s + seq![')'] + tail, 0) matches Ok(t) && t.len() > 0
            && t[0] is LParen && group_at(t) == Ok::<(ExprView, Seq<TokenView>), Failure>((e, m)),
{
    let none = Seq::<TokenView>::empty();
    let t = tokens_from(s, 0)->Ok_0;
    let end = seq![')'] + tail;
    let more = seq![TokenView::RParen] + m;
    let closed = t + more;
    let w = seq!['('] + s + seq![')'] + tail;
    lemma_parenthesis_tokens(tail, m);
    lemma_tokens_closed(s, end, more, 0);
    lemma_filter_closed(t, more);
    assert(none + more =~= more);
    lemma_tokens_behind(seq!['('], s + end);
    assert(w =~= seq!['('] + (s + end));
    assert(w[0] == '(');
    lemma_token_step(w, 0, TokenView::LParen, 1);
    let all = seq![TokenView::LParen] + closed;
    assert(all.skip(1) =~= closed);
    assert(more.skip(1) =~= m);
}

/// Parentheses around a filter change nothing about it. Behind words a filter in parentheses is one
/// more that must hold.
pub proof fn law_parentheses_group(words_before: Seq<char>, s: Seq<char>, e: ExprView)
    requires
        is_whole_filter(s, e),
        is_phrase(words_before),
    ensures
        parsed(s) == Ok::<ExprView, Seq<char>>(e),
        parsed(seq!['('] + s + seq![')']) == Ok::<ExprView, Seq<char>>(e),
        parsed(words_before + seq![' '] + (seq!['('] + s + seq![')'])) == Ok::<
            ExprView,
            Seq<char>,
        >(ExprView::And(seq![ExprView::Body(words_before), e])),
{
    let group = seq!['('] + s + seq![')'];
    lemma_group_tokens(s, e, Seq::empty(), Seq::empty());
    assert(group + Seq::<char>::empty() =~= group);
    let g = tokens_from(group, 0)->Ok_0;
    let none = Seq::<char>::empty();
    let no_tokens = Seq::<TokenView>::empty();
    let no_items = Seq::<ExprView>::empty();
    let lead = words_before + seq![' '];
    let w = lead + group;
    lemma_tokens_behind(lead, group);
    assert(w =~= none + words_before + seq![' '] + group + none);
    assert(group[0] == '(');
    lemma_blank_between(none, words_before, group, none);
    let behind = seq![' '] + group;
    assert(w =~= none + words_before + behind);
    lemma_words_item(none, None, none, words_before, behind);
    let t = tokens_from(w, 0)->Ok_0;
    let r = tokens_from(w, words_before.len() as int)->Ok_0;
    let item = Item { kind: None, gap: none, text: words_before };
    assert(after_spaces(g) == g);
    assert(conjuncts_at(no_tokens) == Ok::<(Seq<ExprView>, Seq<TokenView>), Failure>(
        (no_items, no_tokens),
    ));
    assert(seq![e] + no_items =~= seq![e]);
    assert(conjuncts_at(g) == Ok::<(Seq<ExprView>, Seq<TokenView>), Failure>((seq![e], no_tokens)));
    lemma_item_and_rest(t, item, r, seq![e], no_tokens);
    let both = seq![ExprView::Body(words_before), e];
    assert(seq![item.expr()] + seq![e] =~= both);
    assert(conjunction_at(t) == Ok::<(ExprView, Seq<TokenView>), Failure>(
        (ExprView::And(both), no_tokens),
    ));
    let one = seq![ExprView::And(both)];
    assert(disjuncts_at(t) == Ok::<(Seq<ExprView>, Seq<TokenView>), Failure>((one, no_tokens)));
}

/// A filter and its negation never select an event together, and one of them always does.
pub proof fn law_nothing_is_between_a_filter_and_its_negation(e: ExprView, event: Event)
    ensures
        !selects(ExprView::And(seq![e, ExprView::Not(Box::new(e))]), event),
        selects(ExprView::Or(seq![e, ExprView::Not(Box::new(e))]), event),
        selects(ExprView::And(seq![e, e]), event) == selects(e, event),
        selects(ExprView::Or(seq![e, e]), event) == selects(e, event),
{
    let not = ExprView::Not(Box::new(e));
    assert(selects(not, event) == !selects(e, event));
    let both = seq![e, not];
    lemma_selects_and(both, event);
    lemma_selects_or(both, event);
    assert(both[0] == e && both[1] == not);
    let twice = seq![e, e];
    lemma_selects_and(twice, event);
    lemma_selects_or(twice, event);
    assert(twice[0] == e && twice[1] == e);
    assert forall|i: int| 0 <= i < twice.len() implies #[trigger] twice[i] == e by {}
}

/// A text as it stands between quotes, with line breaks and tabs written as escapes too.
pub open spec fn escaped_in_line(t: Seq<char>) -> Seq<char>
    decreases t.len(),
{
    if t.len() == 0 {
        Seq::empty()
    } else {
        let c = t[0];
        let first = if c == '"' {
            seq!['\\', '"']
        } else if c == '\\' {
            seq!['\\', '\\']
        } else if c == '\n' {
            seq!['\\', 'n']
        } else if c == '\t' {
            seq!['\\', 't']
        } else {
            seq![c]
        };
        first + escaped_in_line(t.skip(1))
    }
}

proof fn lemma_escaped_in_line_rest(s: Seq<char>, begin: int, at: int, t: Seq<char>)
    requires
        0 <= at <= s.len(),
        s.skip(at) == escaped_in_line(t) + seq!['"'],
    ensures
        string_rest(s, begin, at) == Ok::<(Seq<char>, int), TokenizeError>((t, s.len() as int)),
    decreases t.len(),
{
    let rest = s.skip(at);
    assert(rest.len() == s.len() - at);
    assert(rest[0] == s[at]);
    if t.len() == 0 {
        assert(rest =~= seq!['"']);
        assert(t =~= Seq::<char>::empty());
    } else {
        let c = t[0];
        let tail = escaped_in_line(t.skip(1)) + seq!['"'];
        if c == '"' || c == '\\' || c == '\n' || c == '\t' {
            assert(rest.skip(2) =~= tail);
            assert(rest[1] == s[at + 1]);
            assert(s.skip(at + 2) =~= rest.skip(2));
            lemma_escaped_in_line_rest(s, begin, at + 2, t.skip(1));
        } else {
            assert(rest.skip(1) =~= tail);
            assert(s.skip(at + 1) =~= rest.skip(1));
            lemma_escaped_in_line_rest(s, begin, at + 1, t.skip(1));
        }
        assert(seq![c] + t.skip(1) =~= t);
    }
}

/// Any text can be written in one line between quotes, with escapes for line breaks and tabs.
pub proof fn law_escapes_are_read_back(t: Seq<char>)
    ensures
        parsed(seq!['"'] + escaped_in_line(t) + seq!['"']) == Ok::<ExprView, Seq<char>>(
            ExprView::Body(t),
        ),
{
    let s = seq!['"'] + escaped_in_line(t) + seq!['"'];
    let len = s.len() as int;
    assert(s.skip(1) =~= escaped_in_line(t) + seq!['"']);
    lemma_escaped_in_line_rest(s, 0, 1, t);
    assert(token_at(s, 0) == Ok::<(TokenView, int), TokenizeError>((TokenView::Text(t), len)));
    assert(tokens_from(s, len) == Ok::<Seq<TokenView>, TokenizeError>(Seq::empty()));
    let one = seq![TokenView::Text(t)];
    assert(one + Seq::<TokenView>::empty() =~= one);
    lemma_one_word(t);
}
proof fn lemma_string_goes_on(s: Seq<char>, begin: int, at: int, stop: int)
    requires
        0 <= at <= stop <= s.len(),
        forall|i: int| at <= i < stop ==> (#[trigger] s[i]) != '"' && s[i] != '\\',
    ensures
        string_rest(s, begin, stop) matches Err(e) ==> string_rest(s, begin, at) == Err::<
            (Seq<char>, int),
            TokenizeError,
        >(e),
    decreases stop - at,
{
    if at < stop {
        lemma_string_goes_on(s, begin, at + 1, stop);
    }
}

/// Where the tokens behind a phrase and a blank cannot be read, those of the whole text cannot.
proof fn lemma_error_behind_phrase(s: Seq<char>, bad: Seq<char>)
    requires
        is_phrase(s),
        bad.len() > 0,
        !is_blank(bad[0]),
        tokens_from(s + seq![' '] + bad, (s.len() + 1) as int) is Err,
    ensures
        tokens_from(s + seq![' '] + bad, 0) == tokens_from(s + seq![' '] + bad, (s.len() + 1) as int),
{
    let w = s + seq![' '] + bad;
    let none = Seq::<char>::empty();
    let at = s.len() as int;
    assert(w[at] == ' ');
    assert(w[at + 1] == bad[0]);
    lemma_blanks_token(w, at, at + 1);
    lemma_token_step(w, at, TokenView::Whitespace(w.subrange(at, at + 1)), at + 1);
    let behind = seq![' '] + bad;
    assert(w =~= none + s + behind);
    lemma_words_item(none, None, none, s, behind);
}

/// A quote that is not closed is told with all that follows it.
pub proof fn law_unfinished_string_is_told(s: Seq<char>, open: Seq<char>)
    requires
        is_phrase(s),
        forall|i: int| 0 <= i < open.len() ==> (#[trigger] open[i]) != '"' && open[i] != '\\',
        byte_at(s + seq![' '] + (seq!['"'] + open), (s.len() + 2 + open.len()) as int) <= usize::MAX,
    ensures
        parsed(s + seq![' '] + (seq!['"'] + open)) == Err::<ExprView, Seq<char>>(
            "Unfinished string: "@ + (seq!['"'] + open),
        ),
{
    let bad = seq!['"'] + open;
    let w = s + seq![' '] + bad;
    let at = (s.len() + 1) as int;
    assert(w[at] == '"');
    assert forall|i: int| at + 1 <= i < w.len() implies (#[trigger] w[i]) != '"' && w[i] != '\\' by {
        assert(w[i] == open[i - at - 1]);
    }
    lemma_string_goes_on(w, at, at + 1, w.len() as int);
    lemma_byte_at_grows(w, at, w.len() as int);
    lemma_error_behind_phrase(s, bad);
    law_byte_leads_back_to_its_character(w, at, 0);
    assert(w.skip(at) =~= bad);
}

/// An escape that is not known is told with its character.
pub proof fn law_invalid_escape_is_told(s: Seq<char>, text: Seq<char>, c: char, rest: Seq<char>)
    requires
        is_phrase(s),
        forall|i: int| 0 <= i < text.len() ==> (#[trigger] text[i]) != '"' && text[i] != '\\',
        c != 'n' && c != 't' && c != '"' && c != '\\',
        byte_at(
            s + seq![' '] + (seq!['"'] + text + seq!['\\', c] + rest),
            (s.len() + 4 + text.len() + rest.len()) as int,
        ) <= usize::MAX,
    ensures
        parsed(s + seq![' '] + (seq!['"'] + text + seq!['\\', c] + rest)) == Err::<
            ExprView,
            Seq<char>,
        >("Invalid escape expression: "@ + seq!['\\', c]),
{
    let bad = seq!['"'] + text + seq!['\\', c] + rest;
    let w = s + seq![' '] + bad;
    let at = (s.len() + 1) as int;
    let stop = at + 1 + text.len();
    let len = w.len() as int;
    assert(bad.len() == text.len() + 3 + rest.len());
    assert(w[at] == bad[0]);
    assert forall|i: int| at + 1 <= i < stop implies (#[trigger] w[i]) != '"' && w[i] != '\\' by {
        assert(w[i] == bad[i - at]);
        assert(w[i] == text[i - at - 1]);
    }
    assert(w[stop] == bad[stop - at]);
    assert(w[stop] == '\\');
    assert(w[stop + 1] == bad[stop + 1 - at]);
    assert(w[stop + 1] == c);
    lemma_string_goes_on(w, at, at + 1, stop);
    lemma_byte_at_grows(w, stop, stop + 2);
    lemma_byte_at_grows(w, stop + 2, len);
    lemma_error_behind_phrase(s, bad);
    law_byte_leads_back_to_its_character(w, stop, 0);
    law_byte_leads_back_to_its_character(w, stop + 2, 0);
    if stop + 2 < len {
        assert(w.subrange(stop, stop + 2) =~= seq!['\\', c]);
    } else {
        assert(w.skip(stop) =~= seq!['\\', c]);
    }
}

/// A kind that is missing or unknown, a filter without words, one that is missing altogether and a
/// parenthesis that is not closed are told.
pub proof fn law_incomplete_filters_are_told(
    s: Seq<char>,
    c: char,
    blanks: Seq<char>,
    filter: Seq<char>,
    e: ExprView,
)
    requires
        is_phrase(s),
        c != 'f' && c != 'b',
        all_blank(blanks),
        is_whole_filter(filter, e),
        byte_at(s + seq![' '] + seq!['~'], (s.len() + 2) as int) <= usize::MAX,
    ensures
        parsed(s + seq![' '] + seq!['~']) == Err::<ExprView, Seq<char>>(
            "Unfinished filter type: "@ + seq!['~'],
        ),
        parsed(seq!['~', c] + s) == Err::<ExprView, Seq<char>>(
            "Invalid filter type '"@ + seq![c] + "'"@,
        ),
        parsed(blanks) == Err::<ExprView, Seq<char>>("Need at least one filter"@),
        parsed(seq!['('] + filter) == Err::<ExprView, Seq<char>>("Parenthesis not closed"@),
{
    let none = Seq::<char>::empty();
    let no_tokens = Seq::<TokenView>::empty();
    assert({
        let w = s + seq![' '] + seq!['~'];
        parsed(w) == Err::<ExprView, Seq<char>>("Unfinished filter type: "@ + seq!['~'])
    }) by {
        let w = s + seq![' '] + seq!['~'];
        let at = (s.len() + 1) as int;
        assert(w[at] == '~');
        lemma_error_behind_phrase(s, seq!['~']);
        lemma_byte_at_grows(w, at, at + 1);
        law_byte_leads_back_to_its_character(w, at, 0);
        assert(w.skip(at) =~= seq!['~']);
    }
    assert(parsed(seq!['~', c] + s) == Err::<ExprView, Seq<char>>(
        "Invalid filter type '"@ + seq![c] + "'"@,
    )) by {
        let w = seq!['~', c] + s;
        assert(w =~= seq!['~', c] + s + none);
        assert(w[0] == '~' && w[1] == c);
        assert(tokens_from(w, w.len() as int) == Ok::<Seq<TokenView>, TokenizeError>(no_tokens));
        lemma_phrase_tokens(seq!['~', c], s, none, 0);
        let r = tokens_from(w, 2)->Ok_0;
        lemma_token_step(w, 0, TokenView::Type(c), 2);
        let t = seq![TokenView::Type(c)] + r;
        assert(t.skip(1) =~= r);
        assert(after_spaces(r) == r);
        assert(after_spaces(t) == t);
        assert(item_at(t) matches Err(f) && f.message == "Invalid filter type '"@ + seq![c] + "'"@);
        assert(conjuncts_at(t) matches Err(f) && f.message == "Invalid filter type '"@ + seq![c]
            + "'"@);
        assert(conjunction_at(t) is Err);
        assert(disjuncts_at(t) is Err);
    }
    assert(parsed(blanks) == Err::<ExprView, Seq<char>>("Need at least one filter"@)) by {
        let t = if blanks.len() > 0 {
            lemma_blanks_token(blanks, 0, blanks.len() as int);
            let blank = TokenView::Whitespace(blanks.subrange(0, blanks.len() as int));
            lemma_token_step(blanks, 0, blank, blanks.len() as int);
            let t = seq![blank] + no_tokens;
            assert(t.skip(1) =~= no_tokens);
            t
        } else {
            no_tokens
        };
        assert(tokens_from(blanks, 0) == Ok::<Seq<TokenView>, TokenizeError>(t));
        assert(after_spaces(no_tokens) == no_tokens);
        assert(after_spaces(t) == no_tokens);
        law_conjunction_ends(t);
        assert(disjuncts_at(t) is Err);
    }
    assert(parsed(seq!['('] + filter) == Err::<ExprView, Seq<char>>("Parenthesis not closed"@)) by {
        let w = seq!['('] + filter;
        let t = tokens_from(filter, 0)->Ok_0;
        lemma_tokens_behind(seq!['('], filter);
        assert(w[0] == '(');
        lemma_token_step(w, 0, TokenView::LParen, 1);
        let all = seq![TokenView::LParen] + t;
        assert(all.skip(1) =~= t);
    }
}

/// A filter on the sender looks at nothing but the sender, and one on the body at nothing but what
/// a message says below its quotation. An event that is no message is selected by no filter on the
/// body.
pub proof fn law_filters_look_where_they_say(
    p: Seq<char>,
    event: Event,
    m: RoomMessage,
    other: Event,
    lines: Seq<Seq<char>>,
    text: Seq<char>,
)
    requires
        event.content == EventContent::Message(m),
        forall|i: int| 0 <= i < lines.len() ==> !(#[trigger] lines[i]).contains('\n'),
        m.body@ == quotation(lines) + seq!['\n'] + text,
    ensures
        selects(ExprView::Body(p), event) == regex_is_match(p, text),
        selects(ExprView::Sender(p), other) == regex_is_match(p, other.sender@),
        !(other.content is Message) ==> !selects(ExprView::Body(p), other),
        other.content == event.content ==> selects(ExprView::Body(p), other) == selects(
            ExprView::Body(p),
            event,
        ),
{
    law_answer_is_shown_without_quotation(lines, text);
}

proof fn lemma_first_error_joins(a: Seq<ExprView>, b: Seq<ExprView>)
    ensures
        first_pattern_error(a + b) == (match first_pattern_error(a) {
            Some(m) => Some(m),
            None => first_pattern_error(b),
        }),
    decreases a.len(),
{
    if a.len() == 0 {
        assert(a + b =~= b);
    } else {
        let rest = a.subrange(1, a.len() as int);
        lemma_first_error_joins(rest, b);
        assert((a + b)[0] == a[0]);
        assert((a + b).subrange(1, (a + b).len() as int) =~= rest + b);
    }
}

/// A filter is refused for the first of its patterns, as they are written, that is no valid one,
/// wherever it stands. Where the patterns are valid it is not refused for them.
pub proof fn law_first_bad_pattern_is_told(
    a: Seq<ExprView>,
    p: Seq<char>,
    b: Seq<ExprView>,
    on_sender: bool,
    m: Seq<char>,
)
    requires
        regex_error(p) == Some(m),
        forall|i: int| 0 <= i < a.len() ==> pattern_error(#[trigger] a[i]) is None,
    ensures
        ({
            let bad = if on_sender {
                ExprView::Sender(p)
            } else {
                ExprView::Body(p)
            };
            &&& pattern_error(ExprView::And(a + seq![bad] + b)) == Some(m)
            &&& pattern_error(ExprView::Or(a + seq![bad] + b)) == Some(m)
            &&& pattern_error(ExprView::Not(Box::new(bad))) == Some(m)
            &&& pattern_error(ExprView::And(a)) is None
            &&& pattern_error(ExprView::Or(a)) is None
        }),
{
    let bad = if on_sender {
        ExprView::Sender(p)
    } else {
        ExprView::Body(p)
    };
    assert(pattern_error(bad) == Some(m));
    lemma_no_pattern_error(a);
    lemma_first_error_joins(a, seq![bad] + b);
    assert(a + seq![bad] + b =~= a + (seq![bad] + b));
    assert((seq![bad] + b)[0] == bad);
}

proof fn lemma_no_pattern_error(a: Seq<ExprView>)
    requires
        forall|i: int| 0 <= i < a.len() ==> pattern_error(#[trigger] a[i]) is None,
    ensures
        first_pattern_error(a) is None,
    decreases a.len(),
{
    if a.len() > 0 {
        let rest = a.subrange(1, a.len() as int);
        assert(pattern_error(a[0]) is None);
        assert forall|i: int| 0 <= i < rest.len() implies pattern_error(#[trigger] rest[i]) is None by {
            assert(rest[i] == a[i + 1]);
        }
        lemma_no_pattern_error(rest);
    }
}

/// Behind words, an exclamation mark in front of a filter makes its negation one more that must
/// hold.
pub proof fn law_negation_holds_besides_words(words_before: Seq<char>, s: Seq<char>, e: ExprView)
    requires
        is_whole_filter(s, e),
        is_phrase(words_before),
    ensures
        parsed(words_before + seq![' '] + (seq!['!'] + s)) == Ok::<ExprView, Seq<char>>(
            ExprView::And(seq![ExprView::Body(words_before), ExprView::Not(Box::new(e))]),
        ),
{
    let negated = seq!['!'] + s;
    let not = ExprView::Not(Box::new(e));
    let none = Seq::<char>::empty();
    let no_tokens = Seq::<TokenView>::empty();
    let no_items = Seq::<ExprView>::empty();
    let inner = tokens_from(s, 0)->Ok_0;
    lemma_exclamation_token(s);
    let g = seq![TokenView::Exclamation] + inner;
    assert(tokens_from(negated, 0) == Ok::<Seq<TokenView>, TokenizeError>(g));
    let lead = words_before + seq![' '];
    let w = lead + negated;
    lemma_tokens_behind(lead, negated);
    assert(w =~= none + words_before + seq![' '] + negated + none);
    assert(negated[0] == '!');
    lemma_blank_between(none, words_before, negated, none);
    let behind = seq![' '] + negated;
    assert(w =~= none + words_before + behind);
    lemma_words_item(none, None, none, words_before, behind);
    let t = tokens_from(w, 0)->Ok_0;
    let r = tokens_from(w, words_before.len() as int)->Ok_0;
    let item = Item { kind: None, gap: none, text: words_before };
    assert(g.skip(1) =~= inner);
    assert(after_spaces(g) == g);
    assert(conjuncts_at(no_tokens) == Ok::<(Seq<ExprView>, Seq<TokenView>), Failure>(
        (no_items, no_tokens),
    ));
    assert(seq![not] + no_items =~= seq![not]);
    assert(conjuncts_at(g) == Ok::<(Seq<ExprView>, Seq<TokenView>), Failure>(
        (seq![not], no_tokens),
    ));
    lemma_item_and_rest(t, item, r, seq![not], no_tokens);
    let both = seq![ExprView::Body(words_before), not];
    assert(seq![item.expr()] + seq![not] =~= both);
    assert(conjunction_at(t) == Ok::<(ExprView, Seq<TokenView>), Failure>(
        (ExprView::And(both), no_tokens),
    ));
    let one = seq![ExprView::And(both)];
    assert(disjuncts_at(t) == Ok::<(Seq<ExprView>, Seq<TokenView>), Failure>((one, no_tokens)));
}

/// A closing parenthesis that none opened ends the filter, and so does the one that closes a filter
/// in parentheses at the start. What stands behind it is not looked at, as long as it can be read.
pub proof fn law_nothing_counts_behind_a_closed_filter(s: Seq<char>, e: ExprView, tail: Seq<char>)
    requires
        is_whole_filter(s, e),
        tokens_from(tail, 0) is Ok,
    ensures
        parsed(s + seq![')'] + tail) == Ok::<ExprView, Seq<char>>(e),
        parsed(seq!['('] + s + seq![')'] + tail) == Ok::<ExprView, Seq<char>>(e),
{
    let t = tokens_from(s, 0)->Ok_0;
    let m = tokens_from(tail, 0)->Ok_0;
    let end = seq![')'] + tail;
    let more = seq![TokenView::RParen] + m;
    assert(s + seq![')'] + tail =~= s + end);
    lemma_parenthesis_tokens(tail, m);
    lemma_tokens_closed(s, end, more, 0);
    lemma_filter_closed(t, more);
    lemma_group_tokens(s, e, tail, m);
}

} // verus!
