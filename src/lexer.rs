use crate::token::{chars_of, keyword, keyword_of, word_kind_is, Token, TokenType};
use vstd::prelude::*;
use vstd::string::*;

verus! {

// ---------------------------------------------------------------------------
// Character classes
// ---------------------------------------------------------------------------

/// The characters with the Unicode `White_Space` property.
pub open spec fn is_space(c: char) -> bool {
    ('\t' <= c && c <= '\r') || c == ' ' || c == '\u{85}' || c == '\u{a0}' || c == '\u{1680}'
        || ('\u{2000}' <= c && c <= '\u{200a}') || c == '\u{2028}' || c == '\u{2029}' || c
        == '\u{202f}' || c == '\u{205f}' || c == '\u{3000}'
}

pub open spec fn is_digit(c: char) -> bool {
    '0' <= c && c <= '9'
}

/// A character that may begin an identifier: an ASCII letter or `_`.
pub open spec fn is_word_start(c: char) -> bool {
    ('a' <= c && c <= 'z') || ('A' <= c && c <= 'Z') || c == '_'
}

/// A character that may continue an identifier: an ASCII letter, digit or `_`.
pub open spec fn is_word_char(c: char) -> bool {
    is_word_start(c) || is_digit(c)
}

fn space(c: char) -> (r: bool)
    ensures
        r == is_space(c),
{
    ('\t' <= c && c <= '\r') || c == ' ' || c == '\u{85}' || c == '\u{a0}' || c == '\u{1680}'
        || ('\u{2000}' <= c && c <= '\u{200a}') || c == '\u{2028}' || c == '\u{2029}' || c
        == '\u{202f}' || c == '\u{205f}' || c == '\u{3000}'
}

fn digit(c: char) -> (r: bool)
    ensures
        r == is_digit(c),
{
    '0' <= c && c <= '9'
}

fn word_start(c: char) -> (r: bool)
    ensures
        r == is_word_start(c),
{
    ('a' <= c && c <= 'z') || ('A' <= c && c <= 'Z') || c == '_'
}

fn word_char(c: char) -> (r: bool)
    ensures
        r == is_word_char(c),
{
    word_start(c) || digit(c)
}

// ---------------------------------------------------------------------------
// Positions
// ---------------------------------------------------------------------------

/// How many newline characters `t` holds.
pub open spec fn newline_count(t: Seq<char>) -> nat
    decreases t.len(),
{
    if t.len() == 0 {
        0
    } else {
        newline_count(t.drop_last()) + if t.last() == '\n' {
            1nat
        } else {
            0nat
        }
    }
}

/// The index where the line holding index `i` of `s` begins: just after the
/// last newline before `i`, or 0.
pub open spec fn line_start(s: Seq<char>, i: nat) -> nat
    decreases i,
{
    if i == 0 {
        0
    } else if s[i - 1] == '\n' {
        i
    } else {
        line_start(s, (i - 1) as nat)
    }
}

/// The 1-based line of index `i`: one more than the newlines before it.
pub open spec fn line_of(s: Seq<char>, i: nat) -> nat {
    newline_count(s.take(i as int)) + 1
}

/// The 1-based column of index `i`: its offset from the start of its line, plus one.
pub open spec fn column_of(s: Seq<char>, i: nat) -> nat {
    (i - line_start(s, i) + 1) as nat
}

proof fn lemma_newline_count_bound(t: Seq<char>)
    ensures
        newline_count(t) <= t.len(),
    decreases t.len(),
{
    if t.len() > 0 {
        lemma_newline_count_bound(t.drop_last());
    }
}

proof fn lemma_line_start_bound(s: Seq<char>, i: nat)
    ensures
        line_start(s, i) <= i,
    decreases i,
{
    if i > 0 {
        lemma_line_start_bound(s, (i - 1) as nat);
    }
}

proof fn lemma_plain_run(s: Seq<char>, a: nat, b: nat)
    requires
        a <= b <= s.len(),
        forall|k: int| a <= k < b ==> #[trigger] s[k] != '\n',
    ensures
        line_of(s, b) == line_of(s, a),
        column_of(s, b) == column_of(s, a) + (b - a),
    decreases b - a,
{
    if a < b {
        lemma_plain_run(s, a, (b - 1) as nat);
        lemma_position_step(s, (b - 1) as nat);
    }
}

proof fn lemma_position_step(s: Seq<char>, i: nat)
    requires
        i < s.len(),
    ensures
        line_of(s, i + 1) == line_of(s, i) + if s[i as int] == '\n' {
            1nat
        } else {
            0nat
        },
        column_of(s, i + 1) == if s[i as int] == '\n' {
            1
        } else {
            column_of(s, i) + 1
        },
{
    assert(s.take(i + 1 as int).drop_last() =~= s.take(i as int));
    lemma_line_start_bound(s, i);
}

// ---------------------------------------------------------------------------
// The scan
// ---------------------------------------------------------------------------

/// The first index at or after `i` that holds no whitespace (or the end).
pub open spec fn skip_spaces(s: Seq<char>, i: nat) -> nat
    decreases s.len() - i,
{
    if i < s.len() && is_space(s[i as int]) {
        skip_spaces(s, i + 1)
    } else {
        i
    }
}

/// The end of the run of digits that begins at `i`.
pub open spec fn digits_end(s: Seq<char>, i: nat) -> nat
    decreases s.len() - i,
{
    if i < s.len() && is_digit(s[i as int]) {
        digits_end(s, i + 1)
    } else {
        i
    }
}

/// The end of the run of identifier characters that begins at `i`.
pub open spec fn word_end(s: Seq<char>, i: nat) -> nat
    decreases s.len() - i,
{
    if i < s.len() && is_word_char(s[i as int]) {
        word_end(s, i + 1)
    } else {
        i
    }
}

/// Where the token that begins at index `i` ends: two characters for `==` and
/// `!=`, the whole run for a number or an identifier, one character otherwise.
/// At the end of the input the (empty) end-of-input token ends where it starts.
pub open spec fn token_end(s: Seq<char>, i: nat) -> nat {
    if i >= s.len() {
        i
    } else if s[i as int] == '=' || s[i as int] == '!' {
        if i + 1 < s.len() && s[i + 1 as int] == '=' {
            i + 2
        } else {
            i + 1
        }
    } else if is_digit(s[i as int]) {
        digits_end(s, i)
    } else if is_word_start(s[i as int]) {
        word_end(s, i)
    } else {
        i + 1
    }
}

/// The decimal value of a string of digits.
pub open spec fn decimal(t: Seq<char>) -> nat
    decreases t.len(),
{
    if t.len() == 0 {
        0
    } else {
        decimal(t.drop_last()) * 10 + (t.last() as u32 - '0' as u32) as nat
    }
}

/// The value of an integer literal: its decimal value, or 0 where that does
/// not fit in 64 bits.
pub open spec fn integer_value(t: Seq<char>) -> u64 {
    if decimal(t) <= u64::MAX {
        decimal(t) as u64
    } else {
        0
    }
}

/// The kind of a token made of one character, where that character is one.
pub open spec fn single_kind(c: char) -> Option<TokenType> {
    if c == '=' {
        Some(TokenType::Assign)
    } else if c == '!' {
        Some(TokenType::Bang)
    } else if c == '+' {
        Some(TokenType::Plus)
    } else if c == '-' {
        Some(TokenType::Minus)
    } else if c == '*' {
        Some(TokenType::Asterisk)
    } else if c == '/' {
        Some(TokenType::Slash)
    } else if c == '<' {
        Some(TokenType::LT)
    } else if c == '>' {
        Some(TokenType::GT)
    } else if c == ',' {
        Some(TokenType::Comma)
    } else if c == ';' {
        Some(TokenType::Semicolon)
    } else if c == '(' {
        Some(TokenType::LeftParen)
    } else if c == ')' {
        Some(TokenType::RightParen)
    } else if c == '{' {
        Some(TokenType::LeftBrace)
    } else if c == '}' {
        Some(TokenType::RightBrace)
    } else {
        None
    }
}

/// Whether `t` is the kind of the token whose text is `lit`.
pub open spec fn kind_is(t: TokenType, lit: Seq<char>) -> bool {
    if lit.len() == 0 {
        t == TokenType::EOF
    } else if is_digit(lit[0]) {
        t == TokenType::Integer(integer_value(lit))
    } else if is_word_start(lit[0]) {
        word_kind_is(t, lit)
    } else if lit == seq!['=', '='] {
        t == TokenType::Equals
    } else if lit == seq!['!', '='] {
        t == TokenType::NotEquals
    } else {
        match single_kind(lit[0]) {
            Some(k) => t == k,
            None => t == TokenType::Illegal(lit[0]),
        }
    }
}

/// Whether `tok` is the token that begins at index `start` of `s`.
/// From the end of the input on, that is the empty end-of-input token at the end.
pub open spec fn token_at(s: Seq<char>, start: nat, tok: Token) -> bool {
    let i = if start <= s.len() {
        start
    } else {
        s.len()
    };
    &&& tok.literal@ == s.subrange(i as int, token_end(s, i) as int)
    &&& kind_is(tok.token_type, tok.literal@)
    &&& tok.line == line_of(s, i)
    &&& tok.column == column_of(s, i)
}

/// Whether nothing but whitespace is left from index `i` on.
pub open spec fn exhausted(s: Seq<char>, i: nat) -> bool {
    skip_spaces(s, i) >= s.len()
}

/// Where the scan stands after the token read from index `i`.
pub open spec fn next_position(s: Seq<char>, i: nat) -> nat {
    token_end(s, skip_spaces(s, i))
}

proof fn lemma_only_empty_is_end(t: TokenType, lit: Seq<char>)
    requires
        kind_is(t, lit),
    ensures
        (t == TokenType::EOF) == (lit.len() == 0),
{
    if lit.len() > 0 && !is_digit(lit[0]) && is_word_start(lit[0]) {
        match keyword(lit) {
            Some(k) => {
                assert(k != TokenType::EOF);
            },
            None => {},
        }
    }
}

pub(crate) proof fn lemma_skip_spaces_bound(s: Seq<char>, i: nat)
    requires
        i <= s.len(),
    ensures
        i <= skip_spaces(s, i) <= s.len(),
        skip_spaces(s, i) < s.len() ==> !is_space(s[skip_spaces(s, i) as int]),
        forall|j: int| i <= j < skip_spaces(s, i) ==> is_space(#[trigger] s[j]),
    decreases s.len() - i,
{
    if i < s.len() && is_space(s[i as int]) {
        lemma_skip_spaces_bound(s, i + 1);
    }
}

pub(crate) proof fn lemma_digits_end_bound(s: Seq<char>, i: nat)
    requires
        i <= s.len(),
    ensures
        i <= digits_end(s, i) <= s.len(),
        digits_end(s, i) < s.len() ==> !is_digit(s[digits_end(s, i) as int]),
        forall|j: int| i <= j < digits_end(s, i) ==> is_digit(#[trigger] s[j]),
    decreases s.len() - i,
{
    if i < s.len() && is_digit(s[i as int]) {
        lemma_digits_end_bound(s, i + 1);
    }
}

pub(crate) proof fn lemma_word_end_bound(s: Seq<char>, i: nat)
    requires
        i <= s.len(),
    ensures
        i <= word_end(s, i) <= s.len(),
        word_end(s, i) < s.len() ==> !is_word_char(s[word_end(s, i) as int]),
        forall|j: int| i <= j < word_end(s, i) ==> is_word_char(#[trigger] s[j]),
    decreases s.len() - i,
{
    if i < s.len() && is_word_char(s[i as int]) {
        lemma_word_end_bound(s, i + 1);
    }
}

pub(crate) proof fn lemma_token_end_bound(s: Seq<char>, i: nat)
    requires
        i <= s.len(),
    ensures
        i <= token_end(s, i) <= s.len(),
        i < s.len() ==> i < token_end(s, i),
{
    if i < s.len() {
        lemma_digits_end_bound(s, i);
        lemma_word_end_bound(s, i);
    }
}

fn single(c: char) -> (r: Option<TokenType>)
    ensures
        r == single_kind(c),
{
    match c {
        '=' => Some(TokenType::Assign),
        '!' => Some(TokenType::Bang),
        '+' => Some(TokenType::Plus),
        '-' => Some(TokenType::Minus),
        '*' => Some(TokenType::Asterisk),
        '/' => Some(TokenType::Slash),
        '<' => Some(TokenType::LT),
        '>' => Some(TokenType::GT),
        ',' => Some(TokenType::Comma),
        ';' => Some(TokenType::Semicolon),
        '(' => Some(TokenType::LeftParen),
        ')' => Some(TokenType::RightParen),
        '{' => Some(TokenType::LeftBrace),
        '}' => Some(TokenType::RightBrace),
        _ => None,
    }
}

/// The value of the digits `cs[from..to]` as an integer literal: 0 where it
/// does not fit in 64 bits.
fn decimal_value(cs: &Vec<char>, from: usize, to: usize) -> (r: u64)
    requires
        from <= to <= cs@.len(),
        forall|j: int| from <= j < to ==> is_digit(#[trigger] cs@[j]),
    ensures
        r == integer_value(cs@.subrange(from as int, to as int)),
{
    let mut acc: u64 = 0;
    let mut overflow = false;
    let mut k: usize = from;
    while k < to
        invariant
            from <= k <= to <= cs@.len(),
            forall|j: int| from <= j < to ==> is_digit(#[trigger] cs@[j]),
            !overflow ==> acc == decimal(cs@.subrange(from as int, k as int)),
            overflow ==> decimal(cs@.subrange(from as int, k as int)) > u64::MAX,
        decreases to - k,
    {
        let ghost before = cs@.subrange(from as int, k as int);
        let ghost after = cs@.subrange(from as int, k + 1 as int);
        assert(after.drop_last() =~= before);
        assert(after.last() == cs@[k as int]);
        let d = (cs[k] as u32 - '0' as u32) as u64;
        if !overflow {
            let next: u128 = acc as u128 * 10 + d as u128;
            if next > u64::MAX as u128 {
                overflow = true;
            } else {
                acc = next as u64;
            }
        } else {
            assert(decimal(after) >= decimal(before)) by (nonlinear_arith)
                requires
                    decimal(after) == decimal(before) * 10 + d,
            ;
        }
        k = k + 1;
    }
    if overflow {
        0
    } else {
        acc
    }
}

// ---------------------------------------------------------------------------
// The lexer
// ---------------------------------------------------------------------------

/// The smaller of `i` and the length of `s`.
pub open spec fn clamp(s: Seq<char>, i: int) -> nat {
    if i <= s.len() {
        i as nat
    } else {
        s.len()
    }
}

/// A scanner over a source text that hands out one token per call.
pub struct Lexer {
    /// The source text.
    pub input: String,
    /// The source text as characters, for access by index.
    pub chars: Vec<char>,
    /// Index of the character under the cursor; past the end once the input
    /// is used up.
    pub position: usize,
    /// Index of the lookahead character: always one past `position`.
    pub read_position: usize,
    /// Line count over the characters read so far, the one under the cursor
    /// included: it goes up by one each time a newline comes under the cursor.
    pub line: usize,
    /// Column counter: 1 when a newline is under the cursor, and one more for
    /// each other character read since.
    pub column: usize,
    /// The character under the cursor; `None` past the end.
    pub current_char: Option<char>,
}

impl Lexer {
    /// The text being scanned.
    pub open spec fn text(&self) -> Seq<char> {
        self.chars@
    }

    /// The scan state is consistent: the lookahead is one past the cursor,
    /// the current character is the one at the cursor, and the counters give
    /// the line and column of the lookahead index (of the end, once the
    /// cursor has reached it).
    pub open spec fn wf(&self) -> bool {
        &&& self.chars@ == self.input@
        &&& self.chars@.len() < usize::MAX
        &&& self.read_position == self.position + 1
        &&& self.current_char == if self.position < self.chars@.len() {
            Some(self.chars@[self.position as int])
        } else {
            None
        }
        &&& self.line == line_of(self.chars@, clamp(self.chars@, self.read_position as int))
        &&& self.column == column_of(self.chars@, clamp(self.chars@, self.read_position as int))
    }

    /// Starts a scan with the first character of `input` under the cursor.
    /// The counters start at line 1, column 1, and count that first character.
    pub fn new(input: String) -> (r: Lexer)
        requires
            input@.len() < usize::MAX,
        ensures
            r.wf(),
            r.input == input,
            r.text() == input@,
            r.position == 0,
            r.read_position == 1,
            r.current_char == if input@.len() > 0 {
                Some(input@[0])
            } else {
                None::<char>
            },
            r.line == if input@.len() > 0 && input@[0] == '\n' {
                2usize
            } else {
                1usize
            },
            r.column == if input@.len() > 0 && input@[0] != '\n' {
                2usize
            } else {
                1usize
            },
    {
        let chars = chars_of(input.as_str());
        let mut lexer = Lexer {
            input,
            chars,
            position: 0,
            read_position: 0,
            line: 1,
            column: 1,
            current_char: None,
        };
        let ghost s = lexer.chars@;
        proof {
            assert(s.take(0) =~= Seq::<char>::empty());
        }
        if lexer.chars.len() > 0 {
            let c = lexer.chars[0];
            proof {
                lemma_position_step(s, 0);
            }
            if c == '\n' {
                lexer.line = 2;
            } else {
                lexer.column = 2;
            }
            lexer.current_char = Some(c);
        }
        lexer.read_position = 1;
        lexer
    }

    /// Moves the cursor one character on, onto the lookahead index. A
    /// newline coming under the cursor starts the next line at column 1; any
    /// other character adds one to the column; past the end the counters stay.
    pub fn read_char(&mut self)
        requires
            old(self).wf(),
            old(self).read_position < usize::MAX,
        ensures
            final(self).wf(),
            final(self).input == old(self).input,
            final(self).text() == old(self).text(),
            final(self).position == old(self).read_position,
            final(self).read_position == old(self).read_position + 1,
            final(self).current_char == if old(self).read_position < old(self).text().len() {
                Some(old(self).text()[old(self).read_position as int])
            } else {
                None::<char>
            },
            final(self).current_char == Some('\n') ==> final(self).line == old(self).line + 1
                && final(self).column == 1,
            final(self).current_char is Some && final(self).current_char != Some('\n')
                ==> final(self).line == old(self).line && final(self).column == old(self).column
                + 1,
            final(self).current_char is None ==> final(self).line == old(self).line
                && final(self).column == old(self).column,
    {
        let ghost s = self.chars@;
        self.position = self.read_position;
        self.read_position = self.read_position + 1;
        if self.position < self.chars.len() {
            let c = self.chars[self.position];
            proof {
                lemma_position_step(s, self.position as nat);
                lemma_newline_count_bound(s.take(self.position as int));
                lemma_line_start_bound(s, self.position as nat);
            }
            if c == '\n' {
                self.line = self.line + 1;
                self.column = 1;
            } else {
                self.column = self.column + 1;
            }
            self.current_char = Some(c);
        } else {
            self.current_char = None;
        }
    }

    /// The character after the one under the cursor, without consuming anything.
    pub fn peek_char(&self) -> (r: Option<char>)
        requires
            self.wf(),
        ensures
            r == if self.read_position < self.text().len() {
                Some(self.text()[self.read_position as int])
            } else {
                None::<char>
            },
    {
        if self.read_position < self.chars.len() {
            Some(self.chars[self.read_position])
        } else {
            None
        }
    }

    /// Consumes the whitespace under the cursor, newlines included.
    pub fn skip_whitespace(&mut self)
        requires
            old(self).wf(),
        ensures
            final(self).wf(),
            final(self).input == old(self).input,
            final(self).text() == old(self).text(),
            final(self).position == skip_spaces(old(self).text(), old(self).position as nat),
    {
        let ghost s = self.chars@;
        let ghost start = self.position as nat;
        while self.position < self.chars.len() && space(self.chars[self.position])
            invariant
                self.wf(),
                self.input == old(self).input,
                self.chars@ == s,
                start <= self.position,
                skip_spaces(s, start) == skip_spaces(s, self.position as nat),
            decreases s.len() - self.position,
        {
            self.read_char();
        }
    }

    /// The token of kind `token_type` whose text runs from index `start` to
    /// the cursor, the cursor's character included. Its line and column are
    /// worked back from the counters. Past the end, the empty token at the
    /// cursor.
    fn new_token(&self, token_type: TokenType, start: usize) -> (r: Token)
        requires
            self.wf(),
            start <= self.position,
            self.position >= self.text().len() ==> start == self.position,
            forall|k: int|
                start <= k <= self.position && k < self.text().len() ==> #[trigger] self.text()[k]
                    != '\n',
        ensures
            r.token_type == token_type,
            r.literal@ == self.text().subrange(
                clamp(self.text(), start as int) as int,
                clamp(self.text(), self.read_position as int) as int,
            ),
            r.line == line_of(self.text(), clamp(self.text(), start as int)),
            r.column == column_of(self.text(), clamp(self.text(), start as int)),
    {
        let ghost s = self.chars@;
        if self.position < self.chars.len() {
            proof {
                assert forall|k: int| start <= k < self.read_position implies s[k] != '\n' by {
                    assert(self.text()[k] != '\n');
                }
                lemma_plain_run(s, start as nat, self.read_position as nat);
            }
            let literal = self.input.as_str().substring_char(start, self.read_position).to_owned();
            Token {
                token_type,
                literal,
                line: self.line,
                column: self.column - (self.read_position - start),
            }
        } else {
            proof {
                assert(s.subrange(s.len() as int, s.len() as int) =~= Seq::<char>::empty());
            }
            Token { token_type, literal: String::new(), line: self.line, column: self.column }
        }
    }

    /// Reads the run of digits that begins under the cursor as an integer
    /// token, leaving the cursor on the last digit of the run. A value too
    /// large for 64 bits is read as 0.
    pub fn read_number(&mut self) -> (tok: Token)
        requires
            old(self).wf(),
            old(self).position < old(self).text().len(),
            is_digit(old(self).text()[old(self).position as int]),
        ensures
            final(self).wf(),
            final(self).input == old(self).input,
            final(self).text() == old(self).text(),
            final(self).position + 1 == digits_end(old(self).text(), old(self).position as nat),
            final(self).read_position == digits_end(old(self).text(), old(self).position as nat),
            token_at(old(self).text(), old(self).position as nat, tok),
    {
        let ghost s = self.chars@;
        let start = self.position;
        proof {
            lemma_digits_end_bound(s, start as nat);
        }
        while self.read_position < self.chars.len() && digit(self.chars[self.read_position])
            invariant
                self.wf(),
                self.input == old(self).input,
                self.chars@ == s,
                start <= self.position < digits_end(s, start as nat),
                digits_end(s, start as nat) <= s.len(),
                forall|j: int| start <= j < digits_end(s, start as nat) ==> is_digit(#[trigger] s[j]),
                digits_end(s, start as nat) == digits_end(s, self.position as nat),
            decreases s.len() - self.position,
        {
            proof {
                let q = self.position as nat;
                assert(digits_end(s, q) == digits_end(s, q + 1));
                assert(digits_end(s, q + 1) == digits_end(s, q + 2));
                lemma_digits_end_bound(s, q + 2);
            }
            self.read_char();
        }
        proof {
            assert(digits_end(s, self.position as nat) == digits_end(s, (self.position + 1) as nat));
        }
        let value = decimal_value(&self.chars, start, self.read_position);
        self.new_token(TokenType::Integer(value), start)
    }

    /// Reads the run of identifier characters that begins under the cursor
    /// as a reserved word or an identifier, leaving the cursor on the last
    /// character of the run.
    pub fn read_identifier(&mut self) -> (tok: Token)
        requires
            old(self).wf(),
            old(self).position < old(self).text().len(),
            is_word_start(old(self).text()[old(self).position as int]),
        ensures
            final(self).wf(),
            final(self).input == old(self).input,
            final(self).text() == old(self).text(),
            final(self).position + 1 == word_end(old(self).text(), old(self).position as nat),
            final(self).read_position == word_end(old(self).text(), old(self).position as nat),
            token_at(old(self).text(), old(self).position as nat, tok),
    {
        let ghost s = self.chars@;
        let start = self.position;
        proof {
            lemma_word_end_bound(s, start as nat);
        }
        while self.read_position < self.chars.len() && word_char(self.chars[self.read_position])
            invariant
                self.wf(),
                self.input == old(self).input,
                self.chars@ == s,
                start <= self.position < word_end(s, start as nat),
                word_end(s, start as nat) <= s.len(),
                forall|j: int|
                    start <= j < word_end(s, start as nat) ==> is_word_char(#[trigger] s[j]),
                word_end(s, start as nat) == word_end(s, self.position as nat),
            decreases s.len() - self.position,
        {
            proof {
                let q = self.position as nat;
                assert(word_end(s, q) == word_end(s, q + 1));
                assert(word_end(s, q + 1) == word_end(s, q + 2));
                lemma_word_end_bound(s, q + 2);
            }
            self.read_char();
        }
        proof {
            assert(word_end(s, self.position as nat) == word_end(s, (self.position + 1) as nat));
        }
        let token_type = match keyword_of(&self.chars, start, self.read_position) {
            Some(k) => k,
            None => TokenType::Identifier(
                self.input.as_str().substring_char(start, self.read_position).to_owned(),
            ),
        };
        self.new_token(token_type, start)
    }

    /// Reads the next token: skips whitespace, then reads the longest token
    /// that begins there and moves the cursor just past it. At the end of the
    /// input it returns an empty end-of-input token and leaves the state as
    /// it is, so every later call does the same.
    pub fn next_token(&mut self) -> (tok: Token)
        requires
            old(self).wf(),
        ensures
            final(self).wf(),
            final(self).input == old(self).input,
            final(self).text() == old(self).text(),
            final(self).position == next_position(old(self).text(), old(self).position as nat),
            token_at(
                old(self).text(),
                skip_spaces(old(self).text(), old(self).position as nat),
                tok,
            ),
            (tok.token_type == TokenType::EOF) == exhausted(
                old(self).text(),
                old(self).position as nat,
            ),
            old(self).position >= old(self).text().len() ==> *final(self) == *old(self),
    {
        let ghost s = self.chars@;
        let ghost p = self.position as nat;
        if self.position >= self.chars.len() {
            let tok = self.new_token(TokenType::EOF, self.position);
            proof {
                assert(s.subrange(s.len() as int, s.len() as int) =~= Seq::<char>::empty());
            }
            return tok;
        }
        self.skip_whitespace();
        proof {
            lemma_skip_spaces_bound(s, p);
        }
        let start = self.position;
        let peek = self.peek_char();
        let tok = match self.current_char {
            None => {
                return self.new_token(TokenType::EOF, start);
            },
            Some(c) => {
                proof {
                    lemma_digits_end_bound(s, start as nat);
                    lemma_word_end_bound(s, start as nat);
                }
                let tok = if digit(c) {
                    self.read_number()
                } else if word_start(c) {
                    self.read_identifier()
                } else if (c == '=' || c == '!') && match peek {
                    Some(n) => n == '=',
                    None => false,
                } {
                    self.read_char();
                    let t = self.new_token(
                        if c == '=' {
                            TokenType::Equals
                        } else {
                            TokenType::NotEquals
                        },
                        start,
                    );
                    proof {
                        assert(t.literal@ =~= seq![c, '=']);
                    }
                    t
                } else {
                    let t = self.new_token(
                        match single(c) {
                            Some(k) => k,
                            None => TokenType::Illegal(c),
                        },
                        start,
                    );
                    proof {
                        assert(t.literal@ =~= seq![c]);
                    }
                    t
                };
                self.read_char();
                tok
            },
        };
        proof {
            lemma_token_end_bound(s, start as nat);
            lemma_only_empty_is_end(tok.token_type, tok.literal@);
        }
        tok
    }
}

} // verus!
