//! The scanner: splits a placed source into identifiers, numbers and illegal
//! characters, and reports each illegal character to a listener.

use crate::diagnostic::{Diagnostic, DiagnosticView, Listener, Severity};
use crate::location::{Location, Offset};
use crate::source::{Source, SourceView};
use crate::text::{
    byte_len,
    byte_pos,
    chars_of,
    lemma_byte_pos_end,
    lemma_byte_pos_monotone,
    lemma_byte_pos_step,
    lemma_char_boundary,
    lemma_encode_subrange,
    width_of,
};
use crate::token::{Token, TokenType};
use unicode_general_category::{get_general_category, GeneralCategory};
use vstd::prelude::*;
use vstd::string::*;
use vstd::utf8::*;

verus! {

/// The Unicode general categories that the scanner tells apart; every other
/// category is `Other`.
#[derive(Debug, Clone, Copy, PartialEq, Eq, Structural)]
pub enum CharCategory {
    UppercaseLetter,
    LowercaseLetter,
    TitlecaseLetter,
    ModifierLetter,
    OtherLetter,
    DecimalNumber,
    Other,
}

/// The general category of a character, as the Unicode tables give it.
pub uninterp spec fn general_category_of(c: char) -> CharCategory;

/// Calls `get_general_category`, which looks `c` up in the Unicode general
/// category tables; the five letter categories and `DecimalNumber` are kept,
/// every other category becomes `Other`. Nothing is claimed of which
/// category a given character has: the result is only named.
#[verifier::external_body]
fn general_category(c: char) -> (r: CharCategory)
    ensures
        r == general_category_of(c),
{
    match get_general_category(c) {
        GeneralCategory::UppercaseLetter => CharCategory::UppercaseLetter,
        GeneralCategory::LowercaseLetter => CharCategory::LowercaseLetter,
        GeneralCategory::TitlecaseLetter => CharCategory::TitlecaseLetter,
        GeneralCategory::ModifierLetter => CharCategory::ModifierLetter,
        GeneralCategory::OtherLetter => CharCategory::OtherLetter,
        GeneralCategory::DecimalNumber => CharCategory::DecimalNumber,
        _ => CharCategory::Other,
    }
}

/// Whether a category is one of the letter categories.
pub open spec fn is_letter(k: CharCategory) -> bool {
    ||| k == CharCategory::UppercaseLetter
    ||| k == CharCategory::LowercaseLetter
    ||| k == CharCategory::TitlecaseLetter
    ||| k == CharCategory::ModifierLetter
    ||| k == CharCategory::OtherLetter
}

/// Whether a character of this category may stand inside an identifier.
pub open spec fn is_word_part(k: CharCategory) -> bool {
    is_letter(k) || k == CharCategory::DecimalNumber
}

/// Whether a number goes on over a character of category `k`, given whether
/// it has seen its dot: `Some` with the new answer to that question, or
/// `None` where the number ends.
pub open spec fn number_continuation(k: CharCategory, c: char, seen_dot: bool) -> Option<bool> {
    if k == CharCategory::DecimalNumber {
        Some(seen_dot)
    } else if !seen_dot && c == '.' {
        Some(true)
    } else {
        None
    }
}

/// Where an identifier whose rest starts at index `i` of `cs` ends.
pub open spec fn identifier_end(cs: Seq<char>, i: int) -> int
    decreases cs.len() - i,
{
    if 0 <= i < cs.len() && is_word_part(general_category_of(cs[i])) {
        identifier_end(cs, i + 1)
    } else {
        i
    }
}

/// Where a number whose rest starts at index `i` of `cs` ends, and whether it
/// holds a dot.
pub open spec fn number_end(cs: Seq<char>, i: int, seen_dot: bool) -> (int, bool)
    decreases cs.len() - i,
{
    if 0 <= i < cs.len() {
        match number_continuation(general_category_of(cs[i]), cs[i], seen_dot) {
            Some(dot) => number_end(cs, i + 1, dot),
            None => (i, seen_dot),
        }
    } else {
        (i, seen_dot)
    }
}

/// The kind of the token that starts at index `i` of `cs`, and the index
/// where it ends.
pub open spec fn token_at(cs: Seq<char>, i: int) -> (TokenType, int) {
    let k = general_category_of(cs[i]);
    if is_letter(k) {
        (TokenType::Identifier, identifier_end(cs, i + 1))
    } else if k == CharCategory::DecimalNumber {
        let n = number_end(cs, i + 1, false);
        (if n.1 {
            TokenType::Float
        } else {
            TokenType::Integer
        }, n.0)
    } else {
        (TokenType::Illegal, i + 1)
    }
}

/// An identifier ends at or after where its rest starts, within the text.
pub proof fn lemma_identifier_end_bounds(cs: Seq<char>, i: int)
    requires
        0 <= i <= cs.len(),
    ensures
        i <= identifier_end(cs, i) <= cs.len(),
    decreases cs.len() - i,
{
    if i < cs.len() && is_word_part(general_category_of(cs[i])) {
        lemma_identifier_end_bounds(cs, i + 1);
    }
}

/// A number ends at or after where its rest starts, within the text.
pub proof fn lemma_number_end_bounds(cs: Seq<char>, i: int, seen_dot: bool)
    requires
        0 <= i <= cs.len(),
    ensures
        i <= number_end(cs, i, seen_dot).0 <= cs.len(),
    decreases cs.len() - i,
{
    if i < cs.len() {
        match number_continuation(general_category_of(cs[i]), cs[i], seen_dot) {
            Some(dot) => lemma_number_end_bounds(cs, i + 1, dot),
            None => {},
        }
    }
}

/// Every token takes at least one character, and no more than the text has.
pub proof fn lemma_token_advances(cs: Seq<char>, i: int)
    requires
        0 <= i < cs.len(),
    ensures
        i < token_at(cs, i).1 <= cs.len(),
{
    lemma_identifier_end_bounds(cs, i + 1);
    lemma_number_end_bounds(cs, i + 1, false);
}

/// An identifier runs over letters and decimal digits only, and stops at the
/// first character that is neither, or at the end of the text.
pub proof fn lemma_identifier_extent(cs: Seq<char>, i: int)
    requires
        0 <= i <= cs.len(),
    ensures
        i <= identifier_end(cs, i) <= cs.len(),
        forall|k: int|
            i <= k < identifier_end(cs, i) ==> is_word_part(general_category_of(#[trigger] cs[k])),
        identifier_end(cs, i) < cs.len() ==> !is_word_part(
            general_category_of(cs[identifier_end(cs, i)]),
        ),
    decreases cs.len() - i,
{
    lemma_identifier_end_bounds(cs, i);
    if i < cs.len() && is_word_part(general_category_of(cs[i])) {
        lemma_identifier_extent(cs, i + 1);
    }
}

/// A number runs over decimal digits and at most one dot, none once a dot
/// has been seen; it says whether it holds a dot; and it stops at the first
/// character that is neither a digit nor a first dot, or at the end.
pub proof fn lemma_number_extent(cs: Seq<char>, i: int, seen_dot: bool)
    requires
        0 <= i <= cs.len(),
    ensures
        ({
            let n = number_end(cs, i, seen_dot);
            &&& i <= n.0 <= cs.len()
            &&& forall|k: int|
                i <= k < n.0 ==> general_category_of(#[trigger] cs[k]) == CharCategory::DecimalNumber
                    || cs[k] == '.'
            &&& seen_dot ==> forall|k: int|
                i <= k < n.0 ==> general_category_of(#[trigger] cs[k])
                    == CharCategory::DecimalNumber
            &&& forall|k: int, q: int|
                i <= k < q < n.0 && general_category_of(#[trigger] cs[k])
                    != CharCategory::DecimalNumber ==> general_category_of(#[trigger] cs[q])
                    == CharCategory::DecimalNumber
            &&& n.1 == (seen_dot || exists|k: int|
                i <= k < n.0 && general_category_of(#[trigger] cs[k])
                    != CharCategory::DecimalNumber)
            &&& n.0 < cs.len() ==> general_category_of(cs[n.0]) != CharCategory::DecimalNumber
                && (n.1 || cs[n.0] != '.')
        }),
    decreases cs.len() - i,
{
    lemma_number_end_bounds(cs, i, seen_dot);
    if i < cs.len() {
        match number_continuation(general_category_of(cs[i]), cs[i], seen_dot) {
            Some(dot) => {
                lemma_number_extent(cs, i + 1, dot);
                let n = number_end(cs, i, seen_dot);
                if general_category_of(cs[i]) != CharCategory::DecimalNumber {
                    assert(i <= i < n.0 && general_category_of(cs[i])
                        != CharCategory::DecimalNumber);
                } else {
                    if exists|k: int|
                        i <= k < n.0 && general_category_of(#[trigger] cs[k])
                            != CharCategory::DecimalNumber {
                        let k = choose|k: int|
                            i <= k < n.0 && general_category_of(#[trigger] cs[k])
                                != CharCategory::DecimalNumber;
                        assert(i + 1 <= k < n.0);
                    }
                }
            },
            None => {},
        }
    }
}

/// What starts at a character: an identifier at a letter, a number at a
/// decimal digit, and at any other character an illegal token of that one
/// character. An identifier holds only letters and digits; a number holds
/// only digits and at most one dot, and is a float exactly when it holds one.
pub proof fn lemma_token_kind(cs: Seq<char>, i: int)
    requires
        0 <= i < cs.len(),
    ensures
        ({
            let t = token_at(cs, i);
            let k = general_category_of(cs[i]);
            &&& (t.0 == TokenType::Identifier) == is_letter(k)
            &&& (t.0 == TokenType::Integer || t.0 == TokenType::Float) == (k
                == CharCategory::DecimalNumber)
            &&& (t.0 == TokenType::Illegal) == (!is_letter(k) && k != CharCategory::DecimalNumber)
            &&& t.0 == TokenType::Illegal ==> t.1 == i + 1
            &&& t.0 == TokenType::Identifier ==> forall|p: int|
                i <= p < t.1 ==> is_word_part(general_category_of(#[trigger] cs[p]))
            &&& t.0 == TokenType::Identifier && t.1 < cs.len() ==> !is_word_part(
                general_category_of(cs[t.1]),
            )
            &&& (t.0 == TokenType::Integer || t.0 == TokenType::Float) ==> forall|p: int|
                i <= p < t.1 ==> general_category_of(#[trigger] cs[p])
                    == CharCategory::DecimalNumber || cs[p] == '.'
            &&& t.0 == TokenType::Integer ==> forall|p: int|
                i <= p < t.1 ==> general_category_of(#[trigger] cs[p])
                    == CharCategory::DecimalNumber
            &&& t.0 == TokenType::Float ==> exists|p: int|
                i < p < t.1 && general_category_of(#[trigger] cs[p])
                    != CharCategory::DecimalNumber
        }),
{
    let k = general_category_of(cs[i]);
    lemma_identifier_extent(cs, i + 1);
    lemma_number_extent(cs, i + 1, false);
    let t = token_at(cs, i);
    if is_letter(k) {
        assert forall|p: int| i <= p < t.1 implies is_word_part(
            general_category_of(#[trigger] cs[p]),
        ) by {
            if p > i {
                assert(i + 1 <= p < identifier_end(cs, i + 1));
            }
        }
    } else if k == CharCategory::DecimalNumber {
        let n = number_end(cs, i + 1, false);
        assert forall|p: int| i <= p < t.1 implies general_category_of(#[trigger] cs[p])
            == CharCategory::DecimalNumber || cs[p] == '.' by {
            if p > i {
                assert(i + 1 <= p < n.0);
            }
        }
        if !n.1 {
            assert forall|p: int| i <= p < t.1 implies general_category_of(#[trigger] cs[p])
                == CharCategory::DecimalNumber by {
                if p > i {
                    assert(i + 1 <= p < n.0);
                    if general_category_of(cs[p]) != CharCategory::DecimalNumber {
                        assert(i + 1 <= p < n.0 && general_category_of(cs[p])
                            != CharCategory::DecimalNumber);
                    }
                }
            }
        }
    }
}

/// The texts of the tokens from index `i` of `cs` on, in the order the
/// scanner hands them out, one after the other.
pub open spec fn lexemes_from(cs: Seq<char>, i: int) -> Seq<char>
    decreases cs.len() - i,
{
    if 0 <= i < cs.len() {
        let j = token_at(cs, i).1;
        if i < j <= cs.len() {
            cs.subrange(i, j) + lexemes_from(cs, j)
        } else {
            Seq::empty()
        }
    } else {
        Seq::empty()
    }
}

/// Scanning loses and repeats nothing: the texts of the tokens, one after
/// the other, are the text scanned.
pub proof fn lemma_tokens_cover_text(cs: Seq<char>, i: int)
    requires
        0 <= i <= cs.len(),
    ensures
        lexemes_from(cs, i) == cs.subrange(i, cs.len() as int),
    decreases cs.len() - i,
{
    if i < cs.len() {
        lemma_token_advances(cs, i);
        let j = token_at(cs, i).1;
        lemma_tokens_cover_text(cs, j);
        assert(cs.subrange(i, j) + cs.subrange(j, cs.len() as int) =~= cs.subrange(i, cs.len() as int));
    } else {
        assert(cs.subrange(i, cs.len() as int) =~= Seq::<char>::empty());
    }
}

/// Whether a character of this category starts an identifier.
pub fn starts_identifier(category: CharCategory) -> (r: bool)
    ensures
        r == is_letter(category),
{
    match category {
        CharCategory::UppercaseLetter
        | CharCategory::LowercaseLetter
        | CharCategory::TitlecaseLetter
        | CharCategory::ModifierLetter
        | CharCategory::OtherLetter => true,
        _ => false,
    }
}

/// Whether a character of this category continues an identifier.
pub fn continues_identifier(category: CharCategory) -> (r: bool)
    ensures
        r == is_word_part(category),
{
    starts_identifier(category) || category == CharCategory::DecimalNumber
}

/// Whether a number goes on over `c`, of category `category`, given whether
/// it has seen its dot; `Some` holds whether it has seen one afterwards.
pub fn continues_number(category: CharCategory, c: char, seen_dot: bool) -> (r: Option<bool>)
    ensures
        r == number_continuation(category, c, seen_dot),
{
    if category == CharCategory::DecimalNumber {
        Some(seen_dot)
    } else if !seen_dot && c == '.' {
        Some(true)
    } else {
        None
    }
}

/// How `format!("{:?}", ..)` writes a string slice.
pub uninterp spec fn debug_text(s: Seq<char>) -> Seq<char>;

/// Calls `format!("{:?}", s)`: the `Debug` form of a string slice, which
/// writes it between double quotes with the characters that
/// `char::escape_debug` escapes written as escapes. The form is only named.
#[verifier::external_body]
fn debug_quoted(s: &str) -> (r: String)
    ensures
        r@ == debug_text(s@),
{
    format!("{:?}", s)
}

/// The message that reports an unknown character.
pub open spec fn unknown_character_message(lexeme: Seq<char>) -> Seq<char> {
    "Unknown character: "@ + debug_text(lexeme)
}

/// The error that reports the unknown character `lexeme` at `location`.
pub fn unknown_character(lexeme: &str, location: Location) -> (r: Diagnostic)
    ensures
        r@ == (DiagnosticView {
            severity: Severity::Error,
            message: unknown_character_message(lexeme@),
            location,
            labels: Seq::empty(),
        }),
{
    let mut message = String::from_str("Unknown character: ");
    let quoted = debug_quoted(lexeme);
    message.append(quoted.as_str());
    Diagnostic::from_message(Severity::Error, message, location)
}

/// Turns the text of a placed source into tokens, one at a time.
pub struct Scanner<'life, L: Listener> {
    source: &'life Source,
    chars: Vec<char>,
    at: (usize, u32),
    listener: &'life mut L,
}

impl<'life, L: Listener> Scanner<'life, L> {
    /// The scanner's position is a character index of the source's text
    /// together with the byte where that character starts.
    pub closed spec fn wf(&self) -> bool {
        &&& self.chars@ == self.source@.text
        &&& self.at.0 <= self.chars@.len()
        &&& self.at.1 == byte_pos(self.chars@, self.at.0 as int)
    }

    /// The source being scanned.
    pub closed spec fn source_view(&self) -> SourceView {
        self.source@
    }

    /// Index, among the characters of the text, where the next token starts.
    pub closed spec fn position(&self) -> int {
        self.at.0 as int
    }

    /// The scanner's position lies within the characters of its text.
    pub proof fn lemma_position_bounds(&self)
        requires
            self.wf(),
        ensures
            0 <= self.position() <= self.source_view().text.len(),
    {
    }

    /// The diagnostics the scanner's listener has taken in so far, in order.
    pub closed spec fn listener_reports(&self) -> Seq<DiagnosticView> {
        (*self.listener).reports()
    }

    /// A scanner at the start of `source` that reports to `listener`.
    pub fn new(source: &'life Source, listener: &'life mut L) -> (r: Self)
        ensures
            r.wf(),
            r.source_view() == source@,
            r.position() == 0,
            r.listener_reports() == old(listener).reports(),
    {
        let chars = chars_of(source.get_source());
        proof {
            assert(chars@.take(0) =~= Seq::<char>::empty());
            assert(encode_utf8(Seq::<char>::empty()) =~= Seq::<u8>::empty());
        }
        Scanner { source, chars, at: (0, 0), listener }
    }

    /// The end of an identifier whose rest starts at character `i`, byte `b`.
    fn scan_identifier(&self, i: usize, b: u32) -> (r: (usize, u32))
        requires
            self.wf(),
            i <= self.chars@.len(),
            b == byte_pos(self.chars@, i as int),
            byte_len(self.chars@) <= u32::MAX,
        ensures
            r.0 == identifier_end(self.chars@, i as int),
            r.1 == byte_pos(self.chars@, r.0 as int),
    {
        let ghost cs = self.chars@;
        let mut j = i;
        let mut bj = b;
        loop
            invariant
                self.chars@ == cs,
                i <= j <= cs.len(),
                bj == byte_pos(cs, j as int),
                byte_len(cs) <= u32::MAX,
                identifier_end(cs, j as int) == identifier_end(cs, i as int),
            ensures
                j == identifier_end(cs, i as int),
                bj == byte_pos(cs, j as int),
            decreases cs.len() - j,
        {
            if j >= self.chars.len() {
                break;
            }
            let c = self.chars[j];
            if !continues_identifier(general_category(c)) {
                break;
            }
            proof {
                lemma_byte_pos_step(cs, j as int);
                lemma_byte_pos_monotone(cs, j + 1, cs.len() as int);
                lemma_byte_pos_end(cs);
            }
            bj = bj + width_of(c);
            j = j + 1;
        }
        (j, bj)
    }

    /// The end of a number whose rest starts at character `i`, byte `b`, and
    /// whether it holds a dot.
    fn scan_number(&self, i: usize, b: u32) -> (r: (usize, u32, bool))
        requires
            self.wf(),
            i <= self.chars@.len(),
            b == byte_pos(self.chars@, i as int),
            byte_len(self.chars@) <= u32::MAX,
        ensures
            (r.0 as int, r.2) == number_end(self.chars@, i as int, false),
            r.1 == byte_pos(self.chars@, r.0 as int),
    {
        let ghost cs = self.chars@;
        let mut j = i;
        let mut bj = b;
        let mut seen_dot = false;
        loop
            invariant
                self.chars@ == cs,
                i <= j <= cs.len(),
                bj == byte_pos(cs, j as int),
                byte_len(cs) <= u32::MAX,
                number_end(cs, j as int, seen_dot) == number_end(cs, i as int, false),
            ensures
                (j as int, seen_dot) == number_end(cs, i as int, false),
                bj == byte_pos(cs, j as int),
            decreases cs.len() - j,
        {
            if j >= self.chars.len() {
                break;
            }
            let c = self.chars[j];
            match continues_number(general_category(c), c, seen_dot) {
                Some(dot) => {
                    seen_dot = dot;
                },
                None => {
                    break;
                },
            }
            proof {
                lemma_byte_pos_step(cs, j as int);
                lemma_byte_pos_monotone(cs, j + 1, cs.len() as int);
                lemma_byte_pos_end(cs);
            }
            bj = bj + width_of(c);
            j = j + 1;
        }
        (j, bj, seen_dot)
    }

    /// The text of the characters from `i` to `j`, at bytes `bi` to `bj`.
    fn make_lexeme(&self, i: usize, bi: u32, j: usize, bj: u32) -> (r: &'life str)
        requires
            self.chars@ == self.source@.text,
            i <= j <= self.chars@.len(),
            bi == byte_pos(self.chars@, i as int),
            bj == byte_pos(self.chars@, j as int),
        ensures
            r@ == self.chars@.subrange(i as int, j as int),
    {
        let ghost cs = self.chars@;
        let source: &'life Source = self.source;
        let text: &'life str = source.get_source();
        let ghost prefix = cs.take(j as int);
        proof {
            lemma_char_boundary(cs, j as int);
            lemma_encode_subrange(cs, 0, j as int);
            assert(cs.take(0) =~= Seq::<char>::empty());
            assert(encode_utf8(Seq::<char>::empty()) =~= Seq::<u8>::empty());
            assert(cs.subrange(0, j as int) =~= prefix);
            assert(prefix.take(i as int) =~= cs.take(i as int));
            lemma_char_boundary(prefix, i as int);
        }
        let (head, _) = text.split_at(bj as usize);
        proof {
            assert(head.spec_bytes() =~= encode_utf8(prefix));
        }
        let (_, lexeme) = head.split_at(bi as usize);
        proof {
            lemma_encode_subrange(cs, i as int, j as int);
            assert(lexeme.spec_bytes() =~= encode_utf8(cs.subrange(i as int, j as int)));
            encode_utf8_decode_utf8(lexeme@);
            encode_utf8_decode_utf8(cs.subrange(i as int, j as int));
        }
        lexeme
    }

    /// The next token of the text, or `None` at its end. An illegal
    /// character is also reported to the listener, as an unknown character
    /// at the token's location.
    pub fn next(&mut self) -> (r: Option<Token<'life>>)
        requires
            old(self).wf(),
            old(self).source_view().offset is Some,
        ensures
            final(self).wf(),
            final(self).source_view() == old(self).source_view(),
            ({
                let cs = old(self).source_view().text;
                let i = old(self).position();
                let o = old(self).source_view().offset->0;
                if i >= cs.len() {
                    &&& r is None
                    &&& final(self).position() == i
                    &&& final(self).listener_reports() == old(self).listener_reports()
                } else {
                    let t = token_at(cs, i);
                    &&& i < t.1 <= cs.len()
                    &&& final(self).position() == t.1
                    &&& r matches Some(token) && token@.kind == t.0 && token@.lexeme == Some(
                        cs.subrange(i, t.1),
                    ) && token@.location.lo() == o + byte_pos(cs, i) && token@.location.hi()
                        == o + byte_pos(cs, t.1) && final(self).listener_reports() == (if t.0
                        == TokenType::Illegal {
                        old(self).listener_reports().push(
                            DiagnosticView {
                                severity: Severity::Error,
                                message: unknown_character_message(cs.subrange(i, t.1)),
                                location: token@.location,
                                labels: Seq::empty(),
                            },
                        )
                    } else {
                        old(self).listener_reports()
                    })
                }
            }),
    {
        let ghost cs = self.chars@;
        let (i, b) = self.at;
        if i >= self.chars.len() {
            return None;
        }
        let total = self.source.byte_count();
        let offset = self.source.get_offset();
        let c = self.chars[i];
        let category = general_category(c);
        proof {
            lemma_byte_pos_step(cs, i as int);
            lemma_byte_pos_monotone(cs, i + 1, cs.len() as int);
            lemma_byte_pos_end(cs);
            lemma_token_advances(cs, i as int);
        }
        let next_b = b + width_of(c);
        let (kind, j, bj) = if starts_identifier(category) {
            let (j, bj) = self.scan_identifier(i + 1, next_b);
            (TokenType::Identifier, j, bj)
        } else if category == CharCategory::DecimalNumber {
            let (j, bj, seen_dot) = self.scan_number(i + 1, next_b);
            (if seen_dot {
                TokenType::Float
            } else {
                TokenType::Integer
            }, j, bj)
        } else {
            (TokenType::Illegal, i + 1, next_b)
        };
        proof {
            lemma_byte_pos_monotone(cs, i as int, j as int);
            lemma_byte_pos_monotone(cs, j as int, cs.len() as int);
        }
        let lexeme = self.make_lexeme(i, b, j, bj);
        let location = Location::new(Offset(offset.0 + b), bj - b);
        if kind == TokenType::Illegal {
            let diagnostic = unknown_character(lexeme, location);
            self.listener.report(diagnostic);
        }
        self.at = (j, bj);
        Some(Token::new(kind, Some(lexeme), location))
    }
}

} // verus!
