//! The lexer: one left-to-right pass that turns source text into lexemes and
//! checks that the three kinds of bracket balance.

use vstd::prelude::*;
use vstd::utf8::encode_utf8;

verus! {

/// The lexeme that marks the end of a statement. It is the line feed itself,
/// which no symbol, bracket or quoted lexeme can begin with.
pub const END_LINE: &'static str = "\n";

/// The characters of `END_LINE`.
pub open spec fn end_line() -> Seq<char> {
    seq!['\n']
}

#[derive(Clone, Copy, Debug, PartialEq, Eq, Structural)]
pub enum BracketType {
    Paren,
    Square,
    Curly,
}

/// What the characters gathered in the token buffer are taken to be.
#[derive(Clone, Copy, Debug, PartialEq, Eq, Structural)]
pub enum TokenType {
    Idle,
    Space,
    Symbol,
    Quotation,
    Bracket(BracketType),
    Ignore,
}

#[derive(Debug)]
pub struct TokenizeError(String);

impl View for TokenizeError {
    type V = Seq<char>;

    closed spec fn view(&self) -> Seq<char> {
        self.0@
    }
}

impl Clone for TokenizeError {
    fn clone(&self) -> (res: Self)
        ensures
            res@ == self@,
    {
        TokenizeError(self.0.clone())
    }
}

impl TokenizeError {
    /// The text of the error.
    pub fn message(&self) -> (s: String)
        ensures
            s@ == self@,
    {
        self.0.clone()
    }
}

/// The text of the error that reports an imbalance of the given kind of bracket.
pub open spec fn mismatch_message(kind: BracketType) -> Seq<char> {
    match kind {
        BracketType::Paren => "Mismatched parens"@,
        BracketType::Square => "Mismatched square brackets"@,
        BracketType::Curly => "Mismatched curly brackets"@,
    }
}

/// What a tokenizer holds: the lexemes emitted so far, the characters of the
/// lexeme under construction, and what that lexeme is taken to be.
pub struct TokenizerState {
    pub tokens: Seq<Seq<char>>,
    pub buffer: Seq<char>,
    pub class: TokenType,
}

impl TokenizerState {
    pub open spec fn fresh() -> TokenizerState {
        TokenizerState { tokens: Seq::empty(), buffer: Seq::empty(), class: TokenType::Idle }
    }

    /// Emits the buffer as one lexeme, unless it is empty.
    pub open spec fn flush(self) -> TokenizerState {
        if self.buffer.len() > 0 {
            TokenizerState { tokens: self.tokens.push(self.buffer), buffer: Seq::empty(), ..self }
        } else {
            self
        }
    }

    pub open spec fn append(self, c: char) -> TokenizerState {
        TokenizerState { buffer: self.buffer.push(c), ..self }
    }

    pub open spec fn classed(self, class: TokenType) -> TokenizerState {
        TokenizerState { class, ..self }
    }

    /// A bracket ends the lexeme before it and starts one of its own.
    pub open spec fn bracket(self, kind: BracketType, is_open: bool, c: char) -> TokenizerState {
        self.flush().classed(
            if is_open {
                TokenType::Bracket(kind)
            } else {
                TokenType::Idle
            },
        ).append(c)
    }

    /// A line break ends the lexeme before it and emits the end-of-statement lexeme.
    pub open spec fn line_break(self) -> TokenizerState {
        let flushed = self.flush();
        TokenizerState { tokens: flushed.tokens.push(end_line()), ..flushed }
    }
}

/// The state of one scan: the tokenizer, the pending escape, and how many
/// brackets of each kind were opened and not closed (closed and not opened,
/// where negative).
pub struct Scan {
    pub state: TokenizerState,
    pub escape: bool,
    pub parens: int,
    pub squares: int,
    pub curlies: int,
}

impl Scan {
    pub open spec fn start() -> Scan {
        Scan { state: TokenizerState::fresh(), escape: false, parens: 0, squares: 0, curlies: 0 }
    }

    /// The effect of one character.
    pub open spec fn step(self, c: char) -> Scan {
        if c == '"' {
            if self.escape {
                Scan { state: self.state.append(c), escape: false, ..self }
            } else if self.state.class == TokenType::Quotation {
                Scan { state: self.state.append(c).classed(TokenType::Idle).flush(), ..self }
            } else {
                Scan { state: self.state.flush().append(c).classed(TokenType::Quotation), ..self }
            }
        } else if self.state.class == TokenType::Quotation {
            if c == '\\' {
                Scan { escape: true, ..self }
            } else {
                Scan { state: self.state.append(c), escape: false, ..self }
            }
        } else if c == '(' {
            Scan {
                state: self.state.bracket(BracketType::Paren, true, c),
                parens: self.parens + 1,
                ..self
            }
        } else if c == ')' {
            Scan {
                state: self.state.bracket(BracketType::Paren, false, c),
                parens: self.parens - 1,
                ..self
            }
        } else if c == '[' {
            Scan {
                state: self.state.bracket(BracketType::Square, true, c),
                squares: self.squares + 1,
                ..self
            }
        } else if c == ']' {
            Scan {
                state: self.state.bracket(BracketType::Square, false, c),
                squares: self.squares - 1,
                ..self
            }
        } else if c == '{' {
            Scan {
                state: self.state.bracket(BracketType::Curly, true, c),
                curlies: self.curlies + 1,
                ..self
            }
        } else if c == '}' {
            Scan {
                state: self.state.bracket(BracketType::Curly, false, c),
                curlies: self.curlies - 1,
                ..self
            }
        } else if c == ' ' || c == '\t' || c == ',' {
            Scan { state: self.state.flush().classed(TokenType::Space), ..self }
        } else if c == '\r' || c == '\n' {
            Scan { state: self.state.line_break(), ..self }
        } else if c == ';' {
            Scan { state: self.state.classed(TokenType::Ignore), ..self }
        } else if self.state.class == TokenType::Symbol {
            Scan { state: self.state.append(c), ..self }
        } else {
            Scan { state: self.state.flush().classed(TokenType::Symbol).append(c), ..self }
        }
    }

    /// The effect of a run of characters, taken left to right.
    pub open spec fn run(self, text: Seq<char>) -> Scan
        decreases text.len(),
    {
        if text.len() == 0 {
            self
        } else {
            self.step(text[0]).run(text.drop_first())
        }
    }

    /// How many brackets of the given kind are open.
    pub open spec fn depth(self, kind: BracketType) -> int {
        match kind {
            BracketType::Paren => self.parens,
            BracketType::Square => self.squares,
            BracketType::Curly => self.curlies,
        }
    }

    /// The end of input: the buffer is emitted, and the first kind of bracket
    /// that does not balance, if any, is the error.
    pub open spec fn finish(self) -> Result<Seq<Seq<char>>, BracketType> {
        if self.parens != 0 {
            Err(BracketType::Paren)
        } else if self.squares != 0 {
            Err(BracketType::Square)
        } else if self.curlies != 0 {
            Err(BracketType::Curly)
        } else {
            Ok(self.state.flush().tokens)
        }
    }
}

/// The scan of a whole text.
pub open spec fn scan(text: Seq<char>) -> Scan {
    Scan::start().run(text)
}

/// Brackets inside a quoted run do not count; of the others, as many of each
/// kind are closed as are opened.
pub open spec fn balanced(text: Seq<char>) -> bool {
    &&& scan(text).depth(BracketType::Paren) == 0
    &&& scan(text).depth(BracketType::Square) == 0
    &&& scan(text).depth(BracketType::Curly) == 0
}

/// The lexemes of a text, or the kind of bracket that does not balance.
pub open spec fn tokens_of(text: Seq<char>) -> Result<Seq<Seq<char>>, BracketType> {
    scan(text).finish()
}

/// A run of characters in two parts is the run of the second part from where
/// the first part led.
pub proof fn lemma_run_concat(from: Scan, first: Seq<char>, second: Seq<char>)
    ensures
        from.run(first + second) == from.run(first).run(second),
    decreases first.len(),
{
    if first.len() == 0 {
        assert(first + second =~= second);
    } else {
        assert((first + second)[0] == first[0]);
        assert((first + second).drop_first() =~= first.drop_first() + second);
        lemma_run_concat(from.step(first[0]), first.drop_first(), second);
    }
}

/// How often the character occurs in the text.
pub open spec fn occurrences(text: Seq<char>, c: char) -> int
    decreases text.len(),
{
    if text.len() == 0 {
        0
    } else {
        (if text[0] == c {
            1int
        } else {
            0int
        }) + occurrences(text.drop_first(), c)
    }
}

proof fn lemma_run_counts(from: Scan, text: Seq<char>)
    requires
        from.state.class != TokenType::Quotation,
        !text.contains('"'),
    ensures
        from.run(text).parens == from.parens + occurrences(text, '(') - occurrences(text, ')'),
        from.run(text).squares == from.squares + occurrences(text, '[') - occurrences(text, ']'),
        from.run(text).curlies == from.curlies + occurrences(text, '{') - occurrences(text, '}'),
    decreases text.len(),
{
    if text.len() > 0 {
        let rest = text.drop_first();
        assert(text.contains(text[0]));
        assert forall|k: int| 0 <= k < rest.len() implies rest[k] != '"' by {
            assert(rest[k] == text[k + 1]);
            assert(text.contains(text[k + 1]));
        }
        lemma_run_counts(from.step(text[0]), rest);
    }
}

/// In a text without a double quote every bracket counts: the brackets
/// balance where each closing bracket occurs as often as its opening one.
pub proof fn lemma_balance_counts(text: Seq<char>)
    requires
        !text.contains('"'),
    ensures
        scan(text).depth(BracketType::Paren) == occurrences(text, '(') - occurrences(text, ')'),
        scan(text).depth(BracketType::Square) == occurrences(text, '[') - occurrences(text, ']'),
        scan(text).depth(BracketType::Curly) == occurrences(text, '{') - occurrences(text, '}'),
        balanced(text) <==> {
            &&& occurrences(text, '(') == occurrences(text, ')')
            &&& occurrences(text, '[') == occurrences(text, ']')
            &&& occurrences(text, '{') == occurrences(text, '}')
        },
{
    lemma_run_counts(Scan::start(), text);
}

/// Whether the character is a bracket of any kind.
pub open spec fn is_bracket(c: char) -> bool {
    c == '(' || c == ')' || c == '[' || c == ']' || c == '{' || c == '}'
}

/// Whether the character can stand in a symbol: it is no quote, bracket,
/// separator, line break or semicolon.
pub open spec fn is_symbol_char(c: char) -> bool {
    &&& c != '"'
    &&& !is_bracket(c)
    &&& c != ' ' && c != '\t' && c != ','
    &&& c != '\r' && c != '\n'
    &&& c != ';'
}

/// The text consists of characters that can stand in a symbol.
pub open spec fn is_symbol_text(t: Seq<char>) -> bool {
    forall|i: int| 0 <= i < t.len() ==> is_symbol_char(#[trigger] t[i])
}

/// The shapes that a lexeme can have: the end-of-statement lexeme, one
/// bracket, a quoted run with its opening quote, or a symbol.
pub open spec fn is_lexeme(t: Seq<char>) -> bool {
    ||| t == end_line()
    ||| t.len() == 1 && is_bracket(t[0])
    ||| t.len() > 0 && t[0] == '"'
    ||| t.len() > 0 && is_symbol_text(t)
}

/// What holds of a scan at every character.
pub open spec fn scan_inv(s: Scan) -> bool {
    &&& forall|i: int| 0 <= i < s.state.tokens.len() ==> is_lexeme(#[trigger] s.state.tokens[i])
    &&& s.state.buffer.len() == 0 || is_lexeme(s.state.buffer)
    &&& s.state.buffer.len() > 0 ==> s.state.buffer[0] != '\n'
    &&& s.state.class == TokenType::Quotation ==> s.state.buffer.len() > 0 && s.state.buffer[0]
        == '"'
    &&& s.state.class == TokenType::Symbol ==> is_symbol_text(s.state.buffer)
    &&& s.escape ==> s.state.class == TokenType::Quotation
}

proof fn lemma_step_inv(s: Scan, c: char)
    requires
        scan_inv(s),
    ensures
        scan_inv(s.step(c)),
{
    let f = s.state.flush();
    assert forall|i: int| 0 <= i < f.tokens.len() implies is_lexeme(#[trigger] f.tokens[i]) by {
        if i < s.state.tokens.len() {
            assert(f.tokens[i] == s.state.tokens[i]);
        }
    }
    let n = s.step(c);
    if c == '"' && !s.escape && s.state.class == TokenType::Quotation {
        let closed = s.state.buffer.push(c);
        assert(closed[0] == s.state.buffer[0]);
        assert forall|i: int| 0 <= i < n.state.tokens.len() implies is_lexeme(
            #[trigger] n.state.tokens[i],
        ) by {
            if i < s.state.tokens.len() {
                assert(n.state.tokens[i] == s.state.tokens[i]);
            }
        }
    } else if c == '"' && s.escape {
        assert(n.state.buffer[0] == s.state.buffer[0]);
    } else if c == '"' {
        assert(n.state.buffer[0] == '"');
    } else if s.state.class == TokenType::Quotation {
        if c != '\\' {
            assert(n.state.buffer[0] == s.state.buffer[0]);
        }
    } else if is_bracket(c) {
        assert(n.state.buffer =~= seq![c]);
    } else if c == ' ' || c == '\t' || c == ',' {
    } else if c == '\r' || c == '\n' {
        assert forall|i: int| 0 <= i < n.state.tokens.len() implies is_lexeme(
            #[trigger] n.state.tokens[i],
        ) by {
            if i < f.tokens.len() {
                assert(n.state.tokens[i] == f.tokens[i]);
            }
        }
    } else if c == ';' {
    } else if s.state.class == TokenType::Symbol {
        assert(is_symbol_text(n.state.buffer));
        assert(n.state.buffer[0] == c || n.state.buffer[0] == s.state.buffer[0]);
    } else {
        assert(n.state.buffer =~= seq![c]);
        assert(is_symbol_text(n.state.buffer));
    }
}

proof fn lemma_run_inv(s: Scan, text: Seq<char>)
    requires
        scan_inv(s),
    ensures
        scan_inv(s.run(text)),
    decreases text.len(),
{
    if text.len() > 0 {
        lemma_step_inv(s, text[0]);
        lemma_run_inv(s.step(text[0]), text.drop_first());
    }
}

/// Every lexeme that a scan emits has one of the four shapes, whether or not
/// the brackets balance; and the end-of-statement lexeme is told from the
/// others by its first character.
pub proof fn lemma_lexeme_shapes(text: Seq<char>)
    ensures
        forall|i: int|
            0 <= i < scan(text).state.flush().tokens.len() ==> {
                let t = #[trigger] scan(text).state.flush().tokens[i];
                &&& is_lexeme(t)
                &&& t.len() > 0
                &&& (t == end_line() <==> t[0] == '\n')
            },
{
    lemma_run_inv(Scan::start(), text);
    let s = scan(text);
    let tokens = s.state.flush().tokens;
    assert forall|i: int| 0 <= i < tokens.len() implies {
        let t = #[trigger] tokens[i];
        &&& is_lexeme(t)
        &&& t.len() > 0
        &&& (t == end_line() <==> t[0] == '\n')
    } by {
        let t = tokens[i];
        if i < s.state.tokens.len() {
            assert(t == s.state.tokens[i]);
        } else {
            assert(t == s.state.buffer);
        }
        if t[0] == '\n' {
            assert(!is_symbol_char(t[0]));
        }
    }
}

/// Neither the lexemes nor the buffer hold a line break.
spec fn no_line_break(s: Scan) -> bool {
    &&& forall|i: int, j: int|
        0 <= i < s.state.tokens.len() && 0 <= j < s.state.tokens[i].len() ==> (
        #[trigger] s.state.tokens[i][j]) != '\n'
    &&& forall|j: int| 0 <= j < s.state.buffer.len() ==> #[trigger] s.state.buffer[j] != '\n'
}

proof fn lemma_run_no_line_break(s: Scan, text: Seq<char>)
    requires
        no_line_break(s),
        !text.contains('\n'),
        !text.contains('\r'),
    ensures
        no_line_break(s.run(text)),
        no_line_break(
            Scan { state: s.run(text).state.flush(), ..s.run(text) },
        ),
    decreases text.len(),
{
    if text.len() > 0 {
        let c = text[0];
        assert(text.contains(c));
        let n = s.step(c);
        let rest = text.drop_first();
        assert forall|k: int| 0 <= k < rest.len() implies rest[k] != '\n' && rest[k] != '\r' by {
            assert(rest[k] == text[k + 1]);
            assert(text.contains(text[k + 1]));
        }
        assert(no_line_break(n));
        lemma_run_no_line_break(n, rest);
    }
}

/// A text without a line break gives no end-of-statement lexeme: whatever
/// else is written, none of its lexemes is taken for one.
pub proof fn lemma_sentinel_reserved(text: Seq<char>)
    requires
        !text.contains('\n'),
        !text.contains('\r'),
    ensures
        !scan(text).state.flush().tokens.contains(end_line()),
{
    lemma_run_no_line_break(Scan::start(), text);
    let tokens = scan(text).state.flush().tokens;
    if tokens.contains(end_line()) {
        let i = choose|i: int| 0 <= i < tokens.len() && tokens[i] == end_line();
        assert(tokens[i][0] == '\n');
    }
}

/// The text with a backslash before every double quote.
pub open spec fn escaped(text: Seq<char>) -> Seq<char>
    decreases text.len(),
{
    if text.len() == 0 {
        Seq::empty()
    } else if text[0] == '"' {
        seq!['\\', '"'] + escaped(text.drop_first())
    } else {
        seq![text[0]] + escaped(text.drop_first())
    }
}

/// The text as a quoted run of source: escaped, between two double quotes.
pub open spec fn quoted(text: Seq<char>) -> Seq<char> {
    seq!['"'] + escaped(text) + seq!['"']
}

proof fn lemma_escaped_run(from: Scan, text: Seq<char>)
    requires
        from.state.class == TokenType::Quotation,
        !from.escape,
        !text.contains('\\'),
    ensures
        from.run(escaped(text)) == (Scan {
            state: TokenizerState { buffer: from.state.buffer + text, ..from.state },
            ..from
        }),
    decreases text.len(),
{
    if text.len() == 0 {
        assert(from.state.buffer + text =~= from.state.buffer);
    } else {
        let c = text[0];
        let rest = text.drop_first();
        assert(text.contains(c));
        assert forall|k: int| 0 <= k < rest.len() implies rest[k] != '\\' by {
            assert(rest[k] == text[k + 1]);
            assert(text.contains(text[k + 1]));
        }
        let next = Scan { state: from.state.append(c), ..from };
        if c == '"' {
            let head = seq!['\\', '"'];
            lemma_run_concat(from, head, escaped(rest));
            assert(head.drop_first() =~= seq!['"']);
            assert(head.drop_first().drop_first() =~= Seq::<char>::empty());
            assert(from.run(head) == from.step('\\').step('"')) by {
                reveal_with_fuel(Scan::run, 3);
            }
        } else {
            let head = seq![c];
            lemma_run_concat(from, head, escaped(rest));
            assert(head.drop_first() =~= Seq::<char>::empty());
            assert(from.run(head) == from.step(c)) by {
                reveal_with_fuel(Scan::run, 2);
            }
        }
        assert(from.run(escaped(text)) == next.run(escaped(rest)));
        lemma_escaped_run(next, rest);
        assert(next.state.buffer + rest =~= from.state.buffer + text);
    }
}

/// A text that is escaped and set between double quotes comes back as one
/// lexeme: the text as it was, between its two quotes. The backslash itself
/// has no escape, so the text holds none.
pub proof fn lemma_quoted_round_trip(text: Seq<char>)
    requires
        !text.contains('\\'),
    ensures
        tokens_of(quoted(text)) == Ok::<Seq<Seq<char>>, BracketType>(
            seq![seq!['"'] + text + seq!['"']],
        ),
{
    let open = seq!['"'];
    let start = Scan::start();
    let opened = start.step('"');
    lemma_run_concat(start, open + escaped(text), open);
    lemma_run_concat(start, open, escaped(text));
    assert(open.drop_first() =~= Seq::<char>::empty());
    assert(start.run(open) == opened) by {
        reveal_with_fuel(Scan::run, 2);
    }
    lemma_escaped_run(opened, text);
    let inside = opened.run(escaped(text));
    assert(inside.run(open) == inside.step('"')) by {
        reveal_with_fuel(Scan::run, 2);
    }
    let end = scan(quoted(text));
    assert(end == inside.step('"'));
    assert(opened.state.buffer =~= open);
    assert((opened.state.buffer + text).push('"') =~= open + text + open);
    assert(end.state.tokens =~= seq![open + text + open]);
    assert(end.state.flush().tokens =~= seq![open + text + open]);
}

proof fn lemma_encoding_no_shorter(chars: Seq<char>)
    ensures
        chars.len() <= encode_utf8(chars).len(),
    decreases chars.len(),
{
    if chars.len() > 0 {
        lemma_encoding_no_shorter(chars.drop_first());
    }
}

pub struct Tokenizer {
    result: Vec<String>,
    token_builder: String,
    current_token_type: TokenType,
}

impl View for Tokenizer {
    type V = TokenizerState;

    closed spec fn view(&self) -> TokenizerState {
        TokenizerState {
            tokens: self.result.deep_view(),
            buffer: self.token_builder@,
            class: self.current_token_type,
        }
    }
}

impl Tokenizer {
    pub fn new() -> (t: Tokenizer)
        ensures
            t@ == TokenizerState::fresh(),
    {
        let t = Tokenizer {
            result: Vec::new(),
            token_builder: String::new(),
            current_token_type: TokenType::Idle,
        };
        assert(t.result.deep_view() =~= Seq::empty());
        t
    }

    /// Scans `value` from a fresh state, whatever an earlier scan left behind.
    pub fn tokenize(&mut self, value: String) -> (r: Result<Vec<String>, TokenizeError>)
        ensures
            match tokens_of(value@) {
                Ok(tokens) => r matches Ok(v) && v.deep_view() == tokens,
                Err(kind) => r matches Err(e) && e@ == mismatch_message(kind),
            },
            r is Ok <==> balanced(value@),
            final(self)@ == scan(value@).state.flush(),
    {
        self.result = Vec::new();
        self.token_builder = String::new();
        self.current_token_type = TokenType::Idle;
        assert(self@ =~= TokenizerState::fresh()) by {
            assert(self.result.deep_view() =~= Seq::empty());
        }

        let mut paren_counter: i128 = 0;
        let mut square_bracket_counter: i128 = 0;
        let mut curly_bracket_counter: i128 = 0;
        let mut is_escape_character = false;

        let text = value.as_str();
        let limit = text.as_bytes().len();
        proof {
            lemma_encoding_no_shorter(text@);
            assert(text@.skip(0) =~= text@);
        }

        for c in it: text.chars()
            invariant
                it.seq() == text@,
                text@.len() <= limit,
                -it.index() <= paren_counter <= it.index(),
                -it.index() <= square_bracket_counter <= it.index(),
                -it.index() <= curly_bracket_counter <= it.index(),
                (Scan {
                    state: self@,
                    escape: is_escape_character,
                    parens: paren_counter as int,
                    squares: square_bracket_counter as int,
                    curlies: curly_bracket_counter as int,
                }).run(text@.skip(it.index() as int)) == scan(text@),
        {
            proof {
                let rest = text@.skip(it.index() as int);
                assert(rest[0] == c);
                assert(rest.drop_first() =~= text@.skip(it.index() + 1));
            }
            if c == '"' {
                if is_escape_character {
                    self.add_to_token_builder(c);
                    is_escape_character = false;
                } else if self.current_token_type == TokenType::Quotation {
                    self.add_to_token_builder(c);
                    self.current_token_type = TokenType::Idle;
                    self.build_token();
                } else {
                    self.build_token();
                    self.add_to_token_builder(c);
                    self.current_token_type = TokenType::Quotation;
                }
            } else if self.current_token_type == TokenType::Quotation {
                if c == '\\' {
                    is_escape_character = true;
                } else {
                    self.add_to_token_builder(c);
                    is_escape_character = false;
                }
            } else if c == '(' {
                paren_counter += 1;
                self.build_bracket(BracketType::Paren, true, c);
            } else if c == ')' {
                paren_counter -= 1;
                self.build_bracket(BracketType::Paren, false, c);
            } else if c == '[' {
                square_bracket_counter += 1;
                self.build_bracket(BracketType::Square, true, c);
            } else if c == ']' {
                square_bracket_counter -= 1;
                self.build_bracket(BracketType::Square, false, c);
            } else if c == '{' {
                curly_bracket_counter += 1;
                self.build_bracket(BracketType::Curly, true, c);
            } else if c == '}' {
                curly_bracket_counter -= 1;
                self.build_bracket(BracketType::Curly, false, c);
            } else if c == ' ' || c == '\t' || c == ',' {
                self.build_token();
                self.current_token_type = TokenType::Space;
            } else if c == '\r' || c == '\n' {
                self.build_token();
                let ghost emitted = self.result.deep_view();
                self.result.push(END_LINE.to_owned());
                proof {
                    reveal_strlit("\n");
                    assert(END_LINE@ =~= end_line());
                    assert(self.result.deep_view() =~= emitted.push(end_line()));
                }
            } else if c == ';' {
                self.current_token_type = TokenType::Ignore;
            } else {
                if self.current_token_type != TokenType::Symbol {
                    self.build_token();
                }
                self.current_token_type = TokenType::Symbol;
                self.add_to_token_builder(c);
            }
        }

        self.build_token();

        if paren_counter != 0 {
            return Err(TokenizeError("Mismatched parens".to_owned()));
        }
        if square_bracket_counter != 0 {
            return Err(TokenizeError("Mismatched square brackets".to_owned()));
        }
        if curly_bracket_counter != 0 {
            return Err(TokenizeError("Mismatched curly brackets".to_owned()));
        }
        Ok(self.result.clone())
    }

    fn add_to_token_builder(&mut self, c: char)
        ensures
            final(self)@ == old(self)@.append(c),
    {
        self.token_builder.push(c);
    }

    fn build_token(&mut self)
        ensures
            final(self)@ == old(self)@.flush(),
    {
        if !self.token_builder.as_str().is_empty() {
            let ghost emitted = self.result.deep_view();
            self.result.push(self.token_builder.clone());
            assert(self.result.deep_view() =~= emitted.push(self.token_builder@));
            self.token_builder = String::new();
        }
    }

    fn build_bracket(&mut self, bracket_type: BracketType, is_open: bool, c: char)
        ensures
            final(self)@ == old(self)@.bracket(bracket_type, is_open, c),
    {
        self.build_token();
        if is_open {
            self.current_token_type = TokenType::Bracket(bracket_type);
        } else {
            self.current_token_type = TokenType::Idle;
        }
        self.add_to_token_builder(c);
    }
}

} // verus!
