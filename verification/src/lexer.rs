use crate::token::{Operator, Span, Token};
use std::collections::VecDeque;
use vstd::prelude::*;

verus! {

/// Whether `c` is one of the ten decimal digits.
pub open spec fn is_digit(c: char) -> bool {
    '0' <= c && c <= '9'
}

/// Whether `c` can stand inside a number literal: a digit or a point.
pub open spec fn in_literal(c: char) -> bool {
    is_digit(c) || c == '.'
}

/// The end of the run of digits and points that holds position `from`, or
/// `from` itself where no such character stands there.
pub open spec fn literal_end(text: Seq<char>, from: int) -> int
    decreases text.len() - from,
{
    if 0 <= from < text.len() && in_literal(text[from]) {
        literal_end(text, from + 1)
    } else {
        from
    }
}

/// The token that `c` is by itself, for every character that is one whatever
/// follows it.
pub open spec fn symbol(c: char) -> Option<Token> {
    if c == '+' {
        Some(Token::Operator(Operator::Plus))
    } else if c == '-' {
        Some(Token::Operator(Operator::Minus))
    } else if c == '/' {
        Some(Token::Operator(Operator::Div))
    } else if c == '%' {
        Some(Token::Operator(Operator::Modulus))
    } else if c == '(' {
        Some(Token::LParen)
    } else if c == ')' {
        Some(Token::RParen)
    } else {
        None
    }
}

/// The tokens of `text` from position `from` on, without the closing
/// `EndOfFile`.
///
/// A digit starts a number literal, which runs on over every digit and point
/// that follows. Two stars are one `Exponent`. A character that starts no token
/// leaves no trace.
pub open spec fn scan(text: Seq<char>, from: int) -> Seq<Token>
    decreases text.len() - from,
{
    if from < 0 || from >= text.len() {
        Seq::empty()
    } else if is_digit(text[from]) {
        let end = literal_end(text, from + 1);
        proof {
            lemma_literal_end_bounds(text, from + 1);
        }
        seq![Token::Number(Span { start: from as usize, end: end as usize })] + scan(text, end)
    } else if text[from] == '*' {
        if from + 1 < text.len() && text[from + 1] == '*' {
            seq![Token::Operator(Operator::Exponent)] + scan(text, from + 2)
        } else {
            seq![Token::Operator(Operator::Mul)] + scan(text, from + 1)
        }
    } else {
        match symbol(text[from]) {
            Some(token) => seq![token] + scan(text, from + 1),
            None => scan(text, from + 1),
        }
    }
}

/// Whether the characters of `text` from `start` up to `end` hold at most one
/// point, as a decimal number does.
pub open spec fn single_point(text: Seq<char>, start: int, end: int) -> bool {
    forall|i: int, j: int|
        start <= i < j < end && j < text.len() && text[i] == '.' ==> text[j] != '.'
}

/// Whether `token`, if it is a literal of `text`, is a decimal number.
pub open spec fn is_decimal(text: Seq<char>, token: Token) -> bool {
    match token {
        Token::Number(span) => single_point(text, span.start as int, span.end as int),
        _ => true,
    }
}

/// Whether every number literal of `text` from position `from` on is a decimal
/// number.
pub open spec fn literals_well_formed(text: Seq<char>, from: int) -> bool {
    forall|k: int|
        0 <= k < scan(text, from).len() ==> is_decimal(text, #[trigger] scan(text, from)[k])
}

/// A literal ends no earlier than it is entered and no later than the text.
pub proof fn lemma_literal_end_bounds(text: Seq<char>, from: int)
    requires
        0 <= from <= text.len(),
    ensures
        from <= literal_end(text, from) <= text.len(),
    decreases text.len() - from,
{
    if from < text.len() && in_literal(text[from]) {
        lemma_literal_end_bounds(text, from + 1);
    }
}

/// What a scan yields: operators, parentheses and number literals, and never
/// `EndOfFile` or `Unknown`. Each literal lies in the scanned part of the text,
/// starts with a digit and runs as far as digits and points follow.
pub proof fn lemma_scan_tokens(text: Seq<char>, from: int, k: int)
    requires
        0 <= from,
        text.len() <= usize::MAX,
        0 <= k < scan(text, from).len(),
    ensures
        match scan(text, from)[k] {
            Token::Number(span) => from <= span.start < span.end <= text.len() && is_digit(
                text[span.start as int],
            ) && span.end == literal_end(text, span.start + 1),
            Token::Operator(_) | Token::LParen | Token::RParen => true,
            Token::EndOfFile | Token::Unknown => false,
        },
    decreases text.len() - from,
{
    let tokens = scan(text, from);
    if is_digit(text[from]) {
        let end = literal_end(text, from + 1);
        lemma_literal_end_bounds(text, from + 1);
        if k > 0 {
            lemma_scan_tokens(text, end, k - 1);
        }
    } else {
        let next = if text[from] == '*' && from + 1 < text.len() && text[from + 1] == '*' {
            from + 2
        } else {
            from + 1
        };
        let later = scan(text, next);
        if tokens.len() == later.len() {
            lemma_scan_tokens(text, next, k);
        } else if k > 0 {
            lemma_scan_tokens(text, next, k - 1);
        }
    }
}

/// Whether `c` starts no token and is part of none, wherever it stands. Every
/// white space character is one of these.
pub open spec fn is_skipped(c: char) -> bool {
    !in_literal(c) && c != '*' && symbol(c) is None
}

/// `token`, with the place of a literal moved `by` characters to the right.
pub open spec fn shifted(token: Token, by: nat) -> Token {
    match token {
        Token::Number(span) => Token::Number(
            Span { start: (span.start + by) as usize, end: (span.end + by) as usize },
        ),
        _ => token,
    }
}

/// Nothing is scanned from a stretch of skipped characters.
proof fn lemma_scan_skipped(text: Seq<char>, from: int, to: int)
    requires
        0 <= from <= to <= text.len(),
        forall|i: int| from <= i < to ==> is_skipped(#[trigger] text[i]),
    ensures
        scan(text, from) == scan(text, to),
    decreases to - from,
{
    if from < to {
        lemma_scan_skipped(text, from + 1, to);
    }
}

/// A literal ends at the same character with a margin around the line as
/// without.
proof fn lemma_literal_end_margins(left: Seq<char>, core: Seq<char>, right: Seq<char>, from: int)
    requires
        0 <= from <= core.len(),
        forall|i: int| 0 <= i < right.len() ==> is_skipped(#[trigger] right[i]),
    ensures
        literal_end(left + core + right, left.len() + from) == left.len() + literal_end(core, from),
    decreases core.len() - from,
{
    if from < core.len() && in_literal(core[from]) {
        lemma_literal_end_margins(left, core, right, from + 1);
    }
}

proof fn lemma_scan_margins_from(left: Seq<char>, core: Seq<char>, right: Seq<char>, from: int)
    requires
        0 <= from <= core.len(),
        left.len() + core.len() + right.len() <= usize::MAX,
        forall|i: int| 0 <= i < right.len() ==> is_skipped(#[trigger] right[i]),
    ensures
        scan(left + core + right, left.len() + from) == scan(core, from).map_values(
            |token: Token| shifted(token, left.len()),
        ),
    decreases core.len() - from,
{
    let text = left + core + right;
    let by = left.len();
    let shift = |token: Token| shifted(token, by);
    if from == core.len() {
        lemma_scan_skipped(text, by + from, text.len() as int);
    } else {
        let c = core[from];
        if is_digit(c) {
            let end = literal_end(core, from + 1);
            lemma_literal_end_bounds(core, from + 1);
            lemma_literal_end_margins(left, core, right, from + 1);
            lemma_scan_margins_from(left, core, right, end);
            let first = Token::Number(Span { start: from as usize, end: end as usize });
            assert((seq![first] + scan(core, end)).map_values(shift) =~= seq![shift(first)] + scan(
                core,
                end,
            ).map_values(shift));
        } else {
            let paired = c == '*' && from + 1 < core.len() && core[from + 1] == '*';
            let next = if paired {
                from + 2
            } else {
                from + 1
            };
            lemma_scan_margins_from(left, core, right, next);
            if scan(core, from).len() > scan(core, next).len() {
                let first = scan(core, from)[0];
                assert((seq![first] + scan(core, next)).map_values(shift) =~= seq![shift(first)]
                    + scan(core, next).map_values(shift));
            }
        }
    }
}

/// A margin of skipped characters on either side of a line changes nothing
/// but the places of its literals, which are counted from the start of the
/// margin. So a line need not be trimmed before it is scanned.
pub proof fn lemma_scan_margins(left: Seq<char>, core: Seq<char>, right: Seq<char>)
    requires
        left.len() + core.len() + right.len() <= usize::MAX,
        forall|i: int| 0 <= i < left.len() ==> is_skipped(#[trigger] left[i]),
        forall|i: int| 0 <= i < right.len() ==> is_skipped(#[trigger] right[i]),
    ensures
        scan(left + core + right, 0) == scan(core, 0).map_values(
            |token: Token| shifted(token, left.len()),
        ),
{
    lemma_scan_skipped(left + core + right, 0, left.len() as int);
    lemma_scan_margins_from(left, core, right, 0);
}

/// Whether the literals from `from` on are well formed, told by the first
/// token there and by the rest.
proof fn lemma_well_formed_step(text: Seq<char>, from: int)
    requires
        0 <= from < text.len() <= usize::MAX,
    ensures
        literals_well_formed(text, from) == if is_digit(text[from]) {
            single_point(text, from, literal_end(text, from + 1)) && literals_well_formed(
                text,
                literal_end(text, from + 1),
            )
        } else if text[from] == '*' && from + 1 < text.len() && text[from + 1] == '*' {
            literals_well_formed(text, from + 2)
        } else {
            literals_well_formed(text, from + 1)
        },
{
    let next = if is_digit(text[from]) {
        literal_end(text, from + 1)
    } else if text[from] == '*' && from + 1 < text.len() && text[from + 1] == '*' {
        from + 2
    } else {
        from + 1
    };
    lemma_literal_end_bounds(text, from + 1);
    let tokens = scan(text, from);
    let later = scan(text, next);
    if tokens.len() > later.len() {
        assert(tokens == seq![tokens[0]] + later);
        if literals_well_formed(text, from) {
            assert(is_decimal(text, tokens[0]));
            assert forall|k: int| 0 <= k < later.len() implies is_decimal(
                text,
                #[trigger] later[k],
            ) by {
                assert(later[k] == tokens[k + 1]);
            }
        }
        if is_decimal(text, tokens[0]) && literals_well_formed(text, next) {
            assert forall|k: int| 0 <= k < tokens.len() implies is_decimal(
                text,
                #[trigger] tokens[k],
            ) by {
                if k > 0 {
                    assert(tokens[k] == later[k - 1]);
                }
            }
        }
    }
}

/// The tokenizer of one line. It scans the line once, from left to right, and
/// its tokens are then taken from the front, one by one.
#[derive(Debug)]
pub struct Lexer {
    tokens: VecDeque<Token>,
    chars: Vec<char>,
    position: usize,
}

impl Lexer {
    /// The tokens that wait to be taken, the next one first.
    pub closed spec fn tokens(&self) -> Seq<Token> {
        self.tokens@
    }

    /// The line.
    pub closed spec fn text(&self) -> Seq<char> {
        self.chars@
    }

    /// How many characters of the line have been scanned.
    pub closed spec fn position(&self) -> int {
        self.position as int
    }

    /// A lexer at the start of `text`, with no token yet.
    ///
    /// The line is taken whole. White space around it need not be cut off:
    /// it yields no token, and the places of the literals are counted from
    /// the start of the line as it is given.
    pub fn new(text: &str) -> (lexer: Self)
        ensures
            lexer.text() == text@,
            lexer.position() == 0,
            lexer.tokens() == Seq::<Token>::empty(),
    {
        let mut chars: Vec<char> = Vec::new();
        for c in iter: text.chars()
            invariant
                iter.seq() == text@,
                chars@ == iter.seq().take(iter.index()),
        {
            chars.push(c);
        }
        Lexer { tokens: VecDeque::new(), chars, position: 0 }
    }

    /// Takes the next token. A lexer with no token left hands out `Unknown`.
    pub fn next(&mut self) -> (token: Token)
        ensures
            token == front(old(self).tokens()),
            final(self).tokens() == rest(old(self).tokens()),
            final(self).text() == old(self).text(),
            final(self).position() == old(self).position(),
    {
        match self.tokens.pop_front() {
            Some(token) => token,
            None => Token::Unknown,
        }
    }

    /// The next token, which stays where it is. A lexer with no token left
    /// shows `Unknown`.
    pub fn peek(&self) -> (token: Token)
        ensures
            token == front(self.tokens()),
    {
        if self.tokens.len() > 0 {
            self.tokens[0]
        } else {
            Token::Unknown
        }
    }

    /// Whether every number literal in what is left of the line is a decimal
    /// number, so that the line can be scanned.
    pub fn well_formed(&self) -> (r: bool)
        ensures
            r == literals_well_formed(self.text(), self.position()),
    {
        let mut position = self.position;
        while position < self.chars.len()
            invariant
                self.position <= position,
                literals_well_formed(self.chars@, self.position as int) == literals_well_formed(
                    self.chars@,
                    position as int,
                ),
            decreases self.chars.len() - position,
        {
            proof {
                lemma_well_formed_step(self.chars@, position as int);
            }
            let c = self.chars[position];
            position += 1;
            if c >= '0' && c <= '9' {
                let ghost start = position - 1;
                let mut pointed = false;
                while position < self.chars.len() && (self.chars[position] == '.' || (
                    self.chars[position] >= '0' && self.chars[position] <= '9'))
                    invariant
                        start < position <= self.chars.len(),
                        literal_end(self.chars@, position as int) == literal_end(
                            self.chars@,
                            start + 1,
                        ),
                        single_point(self.chars@, start, position as int),
                        pointed == exists|i: int|
                            start <= i < position && #[trigger] self.chars@[i] == '.',
                        literals_well_formed(self.chars@, self.position as int) == (single_point(
                            self.chars@,
                            start,
                            literal_end(self.chars@, start + 1),
                        ) && literals_well_formed(
                            self.chars@,
                            literal_end(self.chars@, start + 1),
                        )),
                    decreases self.chars.len() - position,
                {
                    if self.chars[position] == '.' {
                        if pointed {
                            proof {
                                lemma_literal_end_bounds(self.chars@, position + 1);
                                let first = choose|i: int|
                                    start <= i < position && #[trigger] self.chars@[i] == '.';
                                assert(self.chars@[first] == '.' && self.chars@[position as int]
                                    == '.');
                            }
                            return false;
                        }
                        pointed = true;
                    }
                    position += 1;
                }
            } else if c == '*' && position < self.chars.len() && self.chars[position] == '*' {
                position += 1;
            }
        }
        true
    }

    /// Scans what is left of the line and puts its tokens behind those that
    /// wait already, with one `EndOfFile` at the end.
    ///
    /// A literal with two points is no number: a line that holds one is not
    /// to be scanned.
    pub fn lex(&mut self) -> (tokens: &VecDeque<Token>)
        requires
            literals_well_formed(old(self).text(), old(self).position()),
        ensures
            final(self).tokens() == old(self).tokens() + scan(
                old(self).text(),
                old(self).position(),
            ).push(Token::EndOfFile),
            final(self).text() == old(self).text(),
            final(self).position() >= old(self).text().len(),
            tokens@ == final(self).tokens(),
    {
        let ghost start = self.position as int;
        let ghost before = self.tokens@;
        while self.position < self.chars.len()
            invariant
                self.chars@ == old(self).chars@,
                0 <= start <= self.position,
                self.tokens@ + scan(self.chars@, self.position as int) == before + scan(
                    self.chars@,
                    start,
                ),
            decreases self.chars.len() - self.position,
        {
            let ghost done = self.tokens@;
            let ghost here = self.position as int;
            let c = self.chars[self.position];
            self.position += 1;
            let peek = if self.position < self.chars.len() {
                self.chars[self.position]
            } else {
                '\0'
            };
            if c >= '0' && c <= '9' {
                proof {
                    lemma_literal_end_bounds(self.chars@, here + 1);
                }
                let span = self.scan_number();
                self.tokens.push_back(Token::Number(span));
            } else if c == '+' {
                self.tokens.push_back(Token::Operator(Operator::Plus));
            } else if c == '-' {
                self.tokens.push_back(Token::Operator(Operator::Minus));
            } else if c == '*' {
                let token = self.match_char(
                    peek,
                    '*',
                    Token::Operator(Operator::Exponent),
                    Token::Operator(Operator::Mul),
                );
                self.tokens.push_back(token);
            } else if c == '/' {
                self.tokens.push_back(Token::Operator(Operator::Div));
            } else if c == '%' {
                self.tokens.push_back(Token::Operator(Operator::Modulus));
            } else if c == '(' {
                self.tokens.push_back(Token::LParen);
            } else if c == ')' {
                self.tokens.push_back(Token::RParen);
            }
            assert(done + scan(self.chars@, here) == self.tokens@ + scan(
                self.chars@,
                self.position as int,
            ));
        }
        self.tokens.push_back(Token::EndOfFile);
        &self.tokens
    }

    /// Steps over `expected` where it is the character that comes next, and
    /// says which of the two tokens was read.
    fn match_char(&mut self, peek: char, expected: char, matched: Token, unmatched: Token) -> (token:
        Token)
        requires
            old(self).position() < old(self).text().len() ==> peek == old(self).text()[old(
                self,
            ).position()],
            old(self).position() >= old(self).text().len() ==> peek != expected,
        ensures
            token == if peek == expected {
                matched
            } else {
                unmatched
            },
            final(self).position() == old(self).position() + if peek == expected {
                1int
            } else {
                0int
            },
            final(self).text() == old(self).text(),
            final(self).tokens() == old(self).tokens(),
    {
        if peek == expected {
            assert(self.position < self.chars.len());
            self.position += 1;
            matched
        } else {
            unmatched
        }
    }

    /// Steps over the digits and points that follow the digit just read, and
    /// gives the place of the whole literal.
    fn scan_number(&mut self) -> (span: Span)
        requires
            0 < old(self).position() <= old(self).text().len(),
        ensures
            span.start == old(self).position() - 1,
            span.end == literal_end(old(self).text(), old(self).position()),
            final(self).position() == span.end,
            final(self).text() == old(self).text(),
            final(self).tokens() == old(self).tokens(),
    {
        let start = self.position - 1;
        while self.position < self.chars.len() && (self.chars[self.position] == '.' || (
            self.chars[self.position] >= '0' && self.chars[self.position] <= '9'))
            invariant
                self.chars@ == old(self).chars@,
                self.tokens@ == old(self).tokens@,
                start < self.position <= self.chars.len(),
                literal_end(self.chars@, self.position as int) == literal_end(
                    self.chars@,
                    old(self).position as int,
                ),
            decreases self.chars.len() - self.position,
        {
            self.position += 1;
        }
        Span { start, end: self.position }
    }
}

/// The token at the front of `tokens`, or `Unknown` where there is none.
pub open spec fn front(tokens: Seq<Token>) -> Token {
    if tokens.len() > 0 {
        tokens[0]
    } else {
        Token::Unknown
    }
}

/// What is left of `tokens` once its front has been taken.
pub open spec fn rest(tokens: Seq<Token>) -> Seq<Token> {
    if tokens.len() > 0 {
        tokens.drop_first()
    } else {
        tokens
    }
}

} // verus!
