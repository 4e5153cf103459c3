//! Lexical analysis: source text to tokens.
//!
//! The lexer is specified over the text as a sequence of characters. One step
//! skips a maximal run of whitespace and then reads a word, a number or a
//! symbol; [`lex_from`] repeats the step to the end of the text.

use vstd::prelude::*;

verus! {

/// A token of the source language.
#[derive(Debug, PartialEq, Clone)]
pub enum Token {
    Identifier(String),
    Number(i32),
    Let,
    Loop,
    Plus,
    Equals,
    Semicolon,
    OpenBracket,
    CloseBracket,
    Print,
}

/// Mathematical value of a [`Token`].
pub enum TokenView {
    Identifier(Seq<char>),
    Number(i32),
    Let,
    Loop,
    Plus,
    Equals,
    Semicolon,
    OpenBracket,
    CloseBracket,
    Print,
}

impl View for Token {
    type V = TokenView;

    open spec fn view(&self) -> TokenView {
        match self {
            Token::Identifier(name) => TokenView::Identifier(name@),
            Token::Number(n) => TokenView::Number(*n),
            Token::Let => TokenView::Let,
            Token::Loop => TokenView::Loop,
            Token::Plus => TokenView::Plus,
            Token::Equals => TokenView::Equals,
            Token::Semicolon => TokenView::Semicolon,
            Token::OpenBracket => TokenView::OpenBracket,
            Token::CloseBracket => TokenView::CloseBracket,
            Token::Print => TokenView::Print,
        }
    }
}

/// The tokens of a sequence as mathematical values, in the same order.
pub open spec fn tokens_view(tokens: Seq<Token>) -> Seq<TokenView> {
    Seq::new(tokens.len(), |i: int| tokens[i]@)
}

/// Why the lexer stopped. Lexing never recovers: the first error ends it.
#[derive(Debug, Clone, Copy, PartialEq, Eq, Structural)]
pub enum LexError {
    /// The character at `position` (counted in characters) starts no token.
    UnexpectedCharacter { position: usize, character: char },
    /// The digit run that starts at `position` exceeds `i32::MAX`.
    NumberTooLarge { position: usize },
}

/// What `char::is_whitespace` returns for a character beyond ASCII:
/// whether it has the Unicode property White_Space. The table is the
/// standard library's and is not restated here.
pub uninterp spec fn is_whitespace_beyond_ascii(c: char) -> bool;

/// What `char::is_alphabetic` returns for a character beyond ASCII:
/// whether it has the Unicode property Alphabetic. The table is the
/// standard library's and is not restated here.
pub uninterp spec fn is_alphabetic_beyond_ascii(c: char) -> bool;

/// What `char::is_alphanumeric` returns for a character beyond ASCII:
/// whether it is alphabetic or numeric in Unicode's sense. The table is
/// the standard library's and is not restated here.
pub uninterp spec fn is_alphanumeric_beyond_ascii(c: char) -> bool;

/// Whether `c` is in ASCII, U+0000 to U+007F.
pub open spec fn is_ascii_char(c: char) -> bool {
    c <= '\x7f'
}

/// Whether `c` is whitespace. In ASCII these are the blank and U+0009 to
/// U+000D (tab, line feed, vertical tab, form feed, carriage return).
pub open spec fn is_whitespace_char(c: char) -> bool {
    if is_ascii_char(c) {
        c == ' ' || '\t' <= c <= '\r'
    } else {
        is_whitespace_beyond_ascii(c)
    }
}

/// Whether `c` is a letter. In ASCII these are `a` to `z` and `A` to `Z`.
pub open spec fn is_alphabetic_char(c: char) -> bool {
    if is_ascii_char(c) {
        'a' <= c <= 'z' || 'A' <= c <= 'Z'
    } else {
        is_alphabetic_beyond_ascii(c)
    }
}

/// Whether `c` is a letter or a numeric character. In ASCII these are the
/// letters and the digits `0` to `9`.
pub open spec fn is_alphanumeric_char(c: char) -> bool {
    if is_ascii_char(c) {
        'a' <= c <= 'z' || 'A' <= c <= 'Z' || '0' <= c <= '9'
    } else {
        is_alphanumeric_beyond_ascii(c)
    }
}

/// Assumed of `char::is_whitespace`: of the ASCII characters it holds of
/// the blank and of U+0009 to U+000D and of no other, as the Unicode
/// property White_Space does; beyond ASCII its result is a function of the
/// character alone, named [`is_whitespace_beyond_ascii`].
pub assume_specification[ char::is_whitespace ](c: char) -> (b: bool)
    ensures
        b == is_whitespace_char(c),
        !is_ascii_char(c) ==> b == is_whitespace_beyond_ascii(c),
;

/// Assumed of `char::is_alphabetic`: of the ASCII characters it holds of
/// the letters `a` to `z` and `A` to `Z` and of no other, as the Unicode
/// property Alphabetic does; beyond ASCII its result is a function of the
/// character alone, named [`is_alphabetic_beyond_ascii`].
pub assume_specification[ char::is_alphabetic ](c: char) -> (b: bool)
    ensures
        b == is_alphabetic_char(c),
        !is_ascii_char(c) ==> b == is_alphabetic_beyond_ascii(c),
;

/// Assumed of `char::is_alphanumeric`: of the ASCII characters it holds of
/// the letters and of the digits `0` to `9` and of no other, which are the
/// ASCII characters that are alphabetic or numeric in Unicode; beyond ASCII
/// its result is a function of the character alone, named
/// [`is_alphanumeric_beyond_ascii`].
pub assume_specification[ char::is_alphanumeric ](c: char) -> (b: bool)
    ensures
        b == is_alphanumeric_char(c),
        !is_ascii_char(c) ==> b == is_alphanumeric_beyond_ascii(c),
;

/// An ASCII decimal digit.
pub open spec fn is_digit_char(c: char) -> bool {
    '0' <= c <= '9'
}

/// The classes of characters of which the lexer reads maximal runs.
pub enum CharClass {
    Whitespace,
    Alphanumeric,
    Digit,
}

impl CharClass {
    pub open spec fn contains(self, c: char) -> bool {
        match self {
            CharClass::Whitespace => is_whitespace_char(c),
            CharClass::Alphanumeric => is_alphanumeric_char(c),
            CharClass::Digit => is_digit_char(c),
        }
    }
}

/// Where the maximal run of characters of `class` that starts at `from` ends.
pub open spec fn run_end(text: Seq<char>, from: int, class: CharClass) -> int
    decreases text.len() - from,
{
    if 0 <= from < text.len() && class.contains(text[from]) {
        run_end(text, from + 1, class)
    } else {
        from
    }
}

/// `run_end` is the one position that ends a maximal run: every character
/// before it is in the class, and the character at it, if any, is not.
pub proof fn lemma_run_end_maximal(text: Seq<char>, from: int, class: CharClass)
    requires
        0 <= from <= text.len(),
    ensures
        from <= run_end(text, from, class) <= text.len(),
        forall|i: int|
            from <= i < run_end(text, from, class) ==> class.contains(#[trigger] text[i]),
        run_end(text, from, class) < text.len() ==> !class.contains(
            text[run_end(text, from, class)],
        ),
    decreases text.len() - from,
{
    if from < text.len() && class.contains(text[from]) {
        lemma_run_end_maximal(text, from + 1, class);
    }
}

/// A position that ends a maximal run is `run_end`.
pub proof fn lemma_run_end_unique(text: Seq<char>, from: int, end: int, class: CharClass)
    requires
        0 <= from <= end <= text.len(),
        forall|i: int| from <= i < end ==> class.contains(#[trigger] text[i]),
        end < text.len() ==> !class.contains(text[end]),
    ensures
        run_end(text, from, class) == end,
    decreases end - from,
{
    if from < end {
        lemma_run_end_unique(text, from + 1, end, class);
    }
}

/// The number that a run of decimal digits denotes.
pub open spec fn decimal_value(digits: Seq<char>) -> nat
    decreases digits.len(),
{
    if digits.len() == 0 {
        0
    } else {
        (decimal_value(digits.drop_last()) * 10 + (digits.last() as int - '0' as int)) as nat
    }
}

/// The token for a word: a keyword if the word is reserved, else an identifier.
pub open spec fn word_token(word: Seq<char>) -> TokenView {
    if word == seq!['l', 'e', 't'] {
        TokenView::Let
    } else if word == seq!['l', 'o', 'o', 'p'] {
        TokenView::Loop
    } else if word == seq!['p', 'r', 'i', 'n', 't'] {
        TokenView::Print
    } else {
        TokenView::Identifier(word)
    }
}

/// The token for a single-character symbol, if `c` is one.
pub open spec fn symbol_token(c: char) -> Option<TokenView> {
    if c == '+' {
        Some(TokenView::Plus)
    } else if c == '=' {
        Some(TokenView::Equals)
    } else if c == ';' {
        Some(TokenView::Semicolon)
    } else if c == '{' {
        Some(TokenView::OpenBracket)
    } else if c == '}' {
        Some(TokenView::CloseBracket)
    } else {
        None
    }
}

/// What one step of the lexer finds.
pub enum LexStep {
    /// Only whitespace was left.
    End,
    /// A token, and the position after it.
    Token { token: TokenView, next: int },
    /// No token starts where the whitespace ends, or the number there is too large.
    Error(LexError),
}

/// One step of the lexer from position `from`: skip whitespace, then read a
/// word (a letter, then letters and digits), a number (digits) or a symbol.
pub open spec fn lex_step(text: Seq<char>, from: int) -> LexStep {
    let start = run_end(text, from, CharClass::Whitespace);
    if start >= text.len() {
        LexStep::End
    } else if is_alphabetic_char(text[start]) {
        let end = run_end(text, start + 1, CharClass::Alphanumeric);
        LexStep::Token { token: word_token(text.subrange(start, end)), next: end }
    } else if is_digit_char(text[start]) {
        let end = run_end(text, start + 1, CharClass::Digit);
        let value = decimal_value(text.subrange(start, end));
        if value <= i32::MAX {
            LexStep::Token { token: TokenView::Number(value as i32), next: end }
        } else {
            LexStep::Error(LexError::NumberTooLarge { position: start as usize })
        }
    } else {
        match symbol_token(text[start]) {
            Some(token) => LexStep::Token { token, next: start + 1 },
            None => LexStep::Error(
                LexError::UnexpectedCharacter { position: start as usize, character: text[start] },
            ),
        }
    }
}

/// A step that yields a token ends after the position it started from, within the text.
pub proof fn lemma_lex_step_advances(text: Seq<char>, from: int)
    requires
        0 <= from <= text.len(),
    ensures
        lex_step(text, from) matches LexStep::Token { next, .. } ==> from < next <= text.len(),
{
    let start = run_end(text, from, CharClass::Whitespace);
    lemma_run_end_maximal(text, from, CharClass::Whitespace);
    if start < text.len() {
        lemma_run_end_maximal(text, start + 1, CharClass::Alphanumeric);
        lemma_run_end_maximal(text, start + 1, CharClass::Digit);
    }
}

/// All tokens from position `from` to the end of the text, or the first error.
pub open spec fn lex_from(text: Seq<char>, from: int) -> Result<Seq<TokenView>, LexError>
    decreases text.len() - from,
    when 0 <= from <= text.len()
    via lex_from_decreases
{
    match lex_step(text, from) {
        LexStep::End => Ok(Seq::empty()),
        LexStep::Error(e) => Err(e),
        LexStep::Token { token, next } => match lex_from(text, next) {
            Ok(rest) => Ok(seq![token] + rest),
            Err(e) => Err(e),
        },
    }
}

#[via_fn]
proof fn lex_from_decreases(text: Seq<char>, from: int) {
    lemma_lex_step_advances(text, from);
}

/// The tokens of a whole text, or the first error.
pub open spec fn lex(text: Seq<char>) -> Result<Seq<TokenView>, LexError> {
    lex_from(text, 0)
}

/// Whether two texts hold the same characters up to and including position `through`.
pub open spec fn agree_through(first: Seq<char>, second: Seq<char>, through: int) -> bool {
    &&& 0 <= through < first.len()
    &&& through < second.len()
    &&& forall|i: int| 0 <= i <= through ==> first[i] == second[i]
}

/// A run that ends within the part on which two texts agree ends at the
/// same position in both.
proof fn lemma_run_end_agrees(
    first: Seq<char>,
    second: Seq<char>,
    through: int,
    from: int,
    class: CharClass,
)
    requires
        agree_through(first, second, through),
        0 <= from <= through,
        run_end(first, from, class) <= through,
    ensures
        run_end(second, from, class) == run_end(first, from, class),
{
    lemma_run_end_maximal(first, from, class);
    let end = run_end(first, from, class);
    assert forall|i: int| from <= i < end implies class.contains(#[trigger] second[i]) by {
        assert(class.contains(first[i]));
    }
    lemma_run_end_unique(second, from, end, class);
}

/// An unexpected character is reported at its own position, which is not
/// before the position from which the lexer started.
pub proof fn lemma_unexpected_character_position(text: Seq<char>, from: int)
    requires
        0 <= from <= text.len() <= usize::MAX,
    ensures
        lex_from(text, from) matches Err(LexError::UnexpectedCharacter { position, character })
            ==> from <= position < text.len() && character == text[position as int],
    decreases text.len() - from,
{
    lemma_lex_step_advances(text, from);
    lemma_run_end_maximal(text, from, CharClass::Whitespace);
    if let LexStep::Token { next, .. } = lex_step(text, from) {
        lemma_unexpected_character_position(text, next);
    }
}

proof fn lemma_unexpected_character_hides_the_rest(
    first: Seq<char>,
    second: Seq<char>,
    from: int,
    position: usize,
    character: char,
)
    requires
        0 <= from <= first.len() <= usize::MAX,
        second.len() <= usize::MAX,
        lex_from(first, from) == Err::<Seq<TokenView>, LexError>(
            LexError::UnexpectedCharacter { position, character },
        ),
        agree_through(first, second, position as int),
    ensures
        lex_from(second, from) == lex_from(first, from),
    decreases first.len() - from,
{
    let through = position as int;
    lemma_unexpected_character_position(first, from);
    lemma_lex_step_advances(first, from);
    lemma_run_end_maximal(first, from, CharClass::Whitespace);
    let start = run_end(first, from, CharClass::Whitespace);
    match lex_step(first, from) {
        LexStep::End => {},
        LexStep::Error(e) => {
            assert(start == through);
            lemma_run_end_agrees(first, second, through, from, CharClass::Whitespace);
        },
        LexStep::Token { token, next } => {
            let rest = lex_from(first, next);
            assert(rest == lex_from(first, from)) by {
                assert(rest is Err);
            }
            lemma_unexpected_character_position(first, next);
            assert(start < next <= through) by {
                lemma_run_end_maximal(first, start + 1, CharClass::Alphanumeric);
                lemma_run_end_maximal(first, start + 1, CharClass::Digit);
            }
            lemma_run_end_agrees(first, second, through, from, CharClass::Whitespace);
            assert(first[start] == second[start]);
            if is_alphabetic_char(first[start]) {
                lemma_run_end_agrees(first, second, through, start + 1, CharClass::Alphanumeric);
                assert(first.subrange(start, next) =~= second.subrange(start, next));
            } else if is_digit_char(first[start]) {
                lemma_run_end_agrees(first, second, through, start + 1, CharClass::Digit);
                assert(first.subrange(start, next) =~= second.subrange(start, next));
            }
            assert(lex_step(second, from) == lex_step(first, from));
            lemma_unexpected_character_hides_the_rest(first, second, next, position, character);
        },
    }
}

/// Lexing stops at the first character that starts no token, whatever
/// follows it: a text that is the same up to and including that character
/// gives the same error.
pub proof fn law_unexpected_character_hides_the_rest(first: Seq<char>, second: Seq<char>)
    requires
        first.len() <= usize::MAX,
        second.len() <= usize::MAX,
        lex(first) matches Err(LexError::UnexpectedCharacter { position, .. }) && agree_through(
            first,
            second,
            position as int,
        ),
    ensures
        lex(second) == lex(first),
{
    if let Err(LexError::UnexpectedCharacter { position, character }) = lex(first) {
        lemma_unexpected_character_hides_the_rest(first, second, 0, position, character);
    }
}

proof fn lemma_decimal_value_prefix(digits: Seq<char>, k: int)
    requires
        0 <= k <= digits.len(),
        forall|i: int| 0 <= i < digits.len() ==> is_digit_char(#[trigger] digits[i]),
    ensures
        decimal_value(digits.take(k)) <= decimal_value(digits),
    decreases digits.len() - k,
{
    if k < digits.len() {
        let longer = digits.take(k + 1);
        assert(longer.drop_last() =~= digits.take(k));
        lemma_decimal_value_prefix(digits, k + 1);
    } else {
        assert(digits.take(k) =~= digits);
    }
}

/// A single-pass reader of tokens from a source text.
pub struct Lexer {
    src: String,
    chars: Vec<char>,
    pos: usize,
}

impl Lexer {
    #[verifier::type_invariant]
    spec fn well_formed(self) -> bool {
        &&& self.chars@ == self.src@
        &&& self.pos <= self.chars.len()
    }

    /// The whole source text.
    pub closed spec fn text(self) -> Seq<char> {
        self.chars@
    }

    /// How many characters have been consumed.
    pub closed spec fn position(self) -> int {
        self.pos as int
    }

    /// A lexer that stands at the start of `src`.
    pub fn new(src: String) -> (lexer: Lexer)
        ensures
            lexer.text() == src@,
            lexer.position() == 0,
    {
        let mut chars: Vec<char> = Vec::new();
        for c in it: src.as_str().chars()
            invariant
                chars@ == it.seq().take(it.index() as int),
                it.seq() == src@,
        {
            chars.push(c);
        }
        assert(chars@ =~= src@);
        Lexer { src, chars, pos: 0 }
    }

    /// Consumes the maximal run of whitespace at the current position.
    fn skip_whitespace(&mut self)
        ensures
            final(self).text() == old(self).text(),
            final(self).position() == run_end(
                old(self).text(),
                old(self).position(),
                CharClass::Whitespace,
            ),
            final(self).position() <= final(self).text().len(),
    {
        proof {
            use_type_invariant(&*self);
        }
        self.pos = self.scan_run(self.pos, CharClass::Whitespace);
    }

    /// The character at the current position, if the text has not ended.
    fn current_char(&self) -> (c: Option<char>)
        ensures
            c == if self.position() < self.text().len() {
                Some(self.text()[self.position()])
            } else {
                None
            },
    {
        proof {
            use_type_invariant(self);
        }
        if self.pos < self.chars.len() {
            Some(self.chars[self.pos])
        } else {
            None
        }
    }

    /// Where the maximal run of `class` that starts at `from` ends.
    fn scan_run(&self, from: usize, class: CharClass) -> (end: usize)
        requires
            from <= self.text().len(),
        ensures
            end == run_end(self.text(), from as int, class),
            from <= end <= self.text().len(),
    {
        let mut end = from;
        while end < self.chars.len() && Self::in_class(self.chars[end], &class)
            invariant
                from <= end <= self.chars.len(),
                run_end(self.chars@, end as int, class) == run_end(self.chars@, from as int, class),
            decreases self.chars.len() - end,
        {
            end += 1;
        }
        end
    }

    fn in_class(c: char, class: &CharClass) -> (b: bool)
        ensures
            b == class.contains(c),
    {
        match class {
            CharClass::Whitespace => c.is_whitespace(),
            CharClass::Alphanumeric => c.is_alphanumeric(),
            CharClass::Digit => c >= '0' && c <= '9',
        }
    }

    /// Whether the characters from `start` to `end` spell `word`.
    fn spells(&self, start: usize, end: usize, word: &[char]) -> (b: bool)
        requires
            start <= end <= self.text().len(),
        ensures
            b == (self.text().subrange(start as int, end as int) == word@),
    {
        if end - start != word.len() {
            return false;
        }
        let mut i: usize = 0;
        while i < word.len()
            invariant
                start <= end <= self.chars.len(),
                end - start == word.len(),
                i <= word.len(),
                forall|j: int| 0 <= j < i ==> self.chars@[start + j] == word@[j],
            decreases word.len() - i,
        {
            if self.chars[start + i] != word[i] {
                assert(self.chars@.subrange(start as int, end as int)[i as int] != word@[i as int]);
                return false;
            }
            i += 1;
        }
        assert(self.chars@.subrange(start as int, end as int) =~= word@);
        true
    }

    /// Reads a word if a letter stands at the current position. At the end
    /// of the text, or before any other character, nothing is read.
    fn try_parse_identifier(&mut self) -> (token: Option<Token>)
        ensures
            final(self).text() == old(self).text(),
            old(self).position() >= old(self).text().len() ==> {
                &&& token is None
                &&& final(self).position() == old(self).position()
            },
            old(self).position() < old(self).text().len() && is_alphabetic_char(
                old(self).text()[old(self).position()],
            ) ==> {
                let end = run_end(
                    old(self).text(),
                    old(self).position() + 1,
                    CharClass::Alphanumeric,
                );
                &&& token matches Some(t)
                &&& t@ == word_token(old(self).text().subrange(old(self).position(), end))
                &&& final(self).position() == end
            },
            old(self).position() < old(self).text().len() && !is_alphabetic_char(
                old(self).text()[old(self).position()],
            ) ==> {
                &&& token is None
                &&& final(self).position() == old(self).position()
            },
    {
        proof {
            use_type_invariant(&*self);
        }
        let start = self.pos;
        let Some(c) = self.current_char() else {
            return None;
        };
        if !c.is_alphabetic() {
            return None;
        }
        let end = self.scan_run(start + 1, CharClass::Alphanumeric);
        let token = if self.spells(start, end, &['l', 'e', 't']) {
            Token::Let
        } else if self.spells(start, end, &['l', 'o', 'o', 'p']) {
            Token::Loop
        } else if self.spells(start, end, &['p', 'r', 'i', 'n', 't']) {
            Token::Print
        } else {
            Token::Identifier(self.src.as_str().substring_char(start, end).to_owned())
        };
        self.pos = end;
        Some(token)
    }

    /// The value of the digits from `start` to `end`, unless it exceeds `i32::MAX`.
    fn decimal_of(&self, start: usize, end: usize) -> (value: Option<i32>)
        requires
            start <= end <= self.text().len(),
            forall|i: int| start <= i < end ==> is_digit_char(#[trigger] self.text()[i]),
        ensures
            value == if decimal_value(self.text().subrange(start as int, end as int)) <= i32::MAX {
                Some(decimal_value(self.text().subrange(start as int, end as int)) as i32)
            } else {
                None
            },
    {
        let ghost digits = self.chars@.subrange(start as int, end as int);
        let mut value: i32 = 0;
        let mut i: usize = start;
        proof {
            assert(digits.take(0) =~= Seq::<char>::empty());
        }
        while i < end
            invariant
                start <= i <= end <= self.chars.len(),
                digits == self.chars@.subrange(start as int, end as int),
                forall|j: int| 0 <= j < digits.len() ==> is_digit_char(#[trigger] digits[j]),
                value == decimal_value(digits.take(i - start)),
            decreases end - i,
        {
            let c = self.chars[i];
            assert(c == digits[i - start]);
            let digit: i32 = (c as u32 - '0' as u32) as i32;
            proof {
                let longer = digits.take(i - start + 1);
                assert(longer.drop_last() =~= digits.take(i - start));
                assert(longer.last() == c);
                assert(decimal_value(longer) == value * 10 + digit);
                lemma_decimal_value_prefix(digits, i - start + 1);
            }
            if value > (i32::MAX - digit) / 10 {
                return None;
            }
            value = value * 10 + digit;
            i += 1;
        }
        proof {
            assert(digits.take(end - start) =~= digits);
        }
        Some(value)
    }

    /// Reads a number if a digit stands at the current position. At the end
    /// of the text, or before any other character, nothing is read.
    fn try_parse_number(&mut self) -> (token: Result<Option<Token>, LexError>)
        ensures
            final(self).text() == old(self).text(),
            old(self).position() >= old(self).text().len() ==> {
                &&& token == Ok::<Option<Token>, LexError>(None)
                &&& final(self).position() == old(self).position()
            },
            old(self).position() < old(self).text().len() && is_digit_char(
                old(self).text()[old(self).position()],
            ) ==> {
                let end = run_end(old(self).text(), old(self).position() + 1, CharClass::Digit);
                let value = decimal_value(old(self).text().subrange(old(self).position(), end));
                if value <= i32::MAX {
                    &&& token == Ok::<Option<Token>, LexError>(Some(Token::Number(value as i32)))
                    &&& final(self).position() == end
                } else {
                    &&& token == Err::<Option<Token>, LexError>(
                        LexError::NumberTooLarge { position: old(self).position() as usize },
                    )
                    &&& final(self).position() == old(self).position()
                }
            },
            old(self).position() < old(self).text().len() && !is_digit_char(
                old(self).text()[old(self).position()],
            ) ==> {
                &&& token == Ok::<Option<Token>, LexError>(None)
                &&& final(self).position() == old(self).position()
            },
    {
        proof {
            use_type_invariant(&*self);
        }
        let start = self.pos;
        let Some(c) = self.current_char() else {
            return Ok(None);
        };
        if !(c >= '0' && c <= '9') {
            return Ok(None);
        }
        let end = self.scan_run(start + 1, CharClass::Digit);
        proof {
            lemma_run_end_maximal(self.chars@, start + 1, CharClass::Digit);
        }
        match self.decimal_of(start, end) {
            Some(value) => {
                self.pos = end;
                Ok(Some(Token::Number(value)))
            },
            None => Err(LexError::NumberTooLarge { position: start }),
        }
    }

    /// Reads the next token: `Ok(None)` at the end of the text, the error
    /// where no token can be read. After an error the lexer stands on the
    /// character that caused it.
    pub fn next(&mut self) -> (token: Result<Option<Token>, LexError>)
        ensures
            final(self).text() == old(self).text(),
            0 <= final(self).position() <= final(self).text().len(),
            match lex_step(old(self).text(), old(self).position()) {
                LexStep::End => {
                    &&& token == Ok::<Option<Token>, LexError>(None)
                    &&& final(self).position() == final(self).text().len()
                },
                LexStep::Token { token: expected, next } => {
                    &&& token matches Ok(Some(t))
                    &&& t@ == expected
                    &&& final(self).position() == next
                },
                LexStep::Error(e) => {
                    &&& token == Err::<Option<Token>, LexError>(e)
                    &&& final(self).position() == run_end(
                        old(self).text(),
                        old(self).position(),
                        CharClass::Whitespace,
                    )
                },
            },
    {
        proof {
            use_type_invariant(&*self);
            lemma_lex_step_advances(self.text(), self.position());
        }
        self.skip_whitespace();
        let current_char = match self.current_char() {
            Some(c) => c,
            None => {
                return Ok(None);
            },
        };
        if let Some(token) = self.try_parse_identifier() {
            return Ok(Some(token));
        }
        match self.try_parse_number() {
            Ok(Some(token)) => {
                return Ok(Some(token));
            },
            Ok(None) => {},
            Err(e) => {
                return Err(e);
            },
        }
        let symbol = match current_char {
            '+' => Some(Token::Plus),
            '=' => Some(Token::Equals),
            ';' => Some(Token::Semicolon),
            '{' => Some(Token::OpenBracket),
            '}' => Some(Token::CloseBracket),
            _ => None,
        };
        match symbol {
            Some(token) => {
                proof {
                    use_type_invariant(&*self);
                }
                self.pos += 1;
                Ok(Some(token))
            },
            None => Err(
                LexError::UnexpectedCharacter { position: self.pos, character: current_char },
            ),
        }
    }

    /// Reads every remaining token, or stops at the first error.
    pub fn tokenize(self) -> (tokens: Result<Vec<Token>, LexError>)
        ensures
            match lex_from(self.text(), self.position()) {
                Ok(expected) => tokens matches Ok(v) && tokens_view(v@) == expected,
                Err(e) => tokens == Err::<Vec<Token>, LexError>(e),
            },
    {
        let mut lexer = self;
        let mut tokens: Vec<Token> = Vec::new();
        proof {
            use_type_invariant(&lexer);
        }
        loop
            invariant
                lexer.text() == self.text(),
                0 <= lexer.position() <= lexer.text().len(),
                lex_from(self.text(), self.position()) == match lex_from(
                    lexer.text(),
                    lexer.position(),
                ) {
                    Ok(rest) => Ok::<Seq<TokenView>, LexError>(tokens_view(tokens@) + rest),
                    Err(e) => Err(e),
                },
            decreases lexer.text().len() - lexer.position(),
        {
            let ghost before = lexer.position();
            let ghost done = tokens_view(tokens@);
            proof {
                lemma_lex_step_advances(lexer.text(), before);
            }
            match lexer.next() {
                Ok(Some(token)) => {
                    tokens.push(token);
                    proof {
                        let rest = lex_from(lexer.text(), lexer.position());
                        assert(tokens_view(tokens@) =~= done + seq![token@]);
                        if rest is Ok {
                            assert(done + (seq![token@] + rest->Ok_0) =~= tokens_view(tokens@)
                                + rest->Ok_0);
                        }
                    }
                },
                Ok(None) => {
                    proof {
                        assert(tokens_view(tokens@) + Seq::<TokenView>::empty() =~= tokens_view(
                            tokens@,
                        ));
                    }
                    return Ok(tokens);
                },
                Err(e) => {
                    return Err(e);
                },
            }
        }
    }
}

} // verus!
