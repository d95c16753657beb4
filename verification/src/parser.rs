//! The parser: recursive descent over the lexemes, with a block for every
//! `then` up to its `end`, a parameter list for every run in parentheses, and
//! a statement for every line.

use crate::expression::{Expression, Tree};
use crate::number::{is_float, is_float_literal};
use crate::tokenizer::{end_line, END_LINE};
use vstd::prelude::*;

verus! {

pub open spec fn open_paren() -> Seq<char> {
    seq!['(']
}

pub open spec fn close_paren() -> Seq<char> {
    seq![')']
}

/// The lexeme that opens a block.
pub open spec fn block_open() -> Seq<char> {
    seq!['t', 'h', 'e', 'n']
}

/// The lexeme that closes a block.
pub open spec fn block_close() -> Seq<char> {
    seq!['e', 'n', 'd']
}

/// The text of the error that an empty run of lexemes gives.
pub open spec fn unexpected_eof() -> Seq<char> {
    "Unexpected EOF"@
}

/// The leaf that a lexeme becomes: its first character, or its being a
/// number, decides.
pub open spec fn atom_of(lexeme: Seq<char>) -> Tree {
    if lexeme.len() > 0 && lexeme[0] == '"' {
        Tree::Text(lexeme)
    } else if is_float_literal(lexeme) {
        Tree::Number(lexeme)
    } else {
        Tree::Symbol(lexeme)
    }
}

/// What one invocation of the parser holds while it reads its block.
pub struct Frame {
    /// The statements that are finished.
    pub result: Seq<Tree>,
    /// The children of the statement under construction.
    pub statement: Seq<Tree>,
    /// The children of the parameter list under construction.
    pub params: Seq<Tree>,
    /// Whether a run in parentheses is open.
    pub in_params: bool,
    /// How many parentheses are open.
    pub open_parens: int,
}

impl Frame {
    pub open spec fn fresh() -> Frame {
        Frame {
            result: Seq::empty(),
            statement: Seq::empty(),
            params: Seq::empty(),
            in_params: false,
            open_parens: 0,
        }
    }

    /// The effect of a lexeme that neither opens nor closes a block.
    pub open spec fn step(self, lexeme: Seq<char>) -> Frame {
        if lexeme == open_paren() {
            Frame { in_params: true, open_parens: self.open_parens + 1, ..self }
        } else if lexeme == close_paren() {
            if self.open_parens == 1 {
                Frame {
                    statement: self.statement.push(Tree::List(self.params)),
                    params: Seq::empty(),
                    in_params: false,
                    open_parens: 0,
                    ..self
                }
            } else {
                Frame { open_parens: self.open_parens - 1, ..self }
            }
        } else if lexeme == end_line() {
            if !self.in_params && self.statement.len() > 0 {
                Frame {
                    result: self.result.push(Tree::List(self.statement)),
                    statement: Seq::empty(),
                    ..self
                }
            } else {
                self
            }
        } else if self.in_params {
            Frame { params: self.params.push(atom_of(lexeme)), ..self }
        } else {
            Frame { statement: self.statement.push(atom_of(lexeme)), ..self }
        }
    }

    /// A nested block becomes one child of the statement.
    pub open spec fn with_block(self, block: Tree) -> Frame {
        Frame { statement: self.statement.push(block), ..self }
    }

    /// The statements of the block when `end` closes it: a parameter list
    /// that is still open is left out.
    pub open spec fn closed(self) -> Seq<Tree> {
        if self.statement.len() > 0 {
            self.result.push(Tree::List(self.statement))
        } else {
            self.result
        }
    }

    /// The statements of the block when the input ends in it.
    pub open spec fn exhausted(self) -> Seq<Tree> {
        let statement = if self.params.len() > 0 {
            self.statement.push(Tree::List(self.params))
        } else {
            self.statement
        };
        if statement.len() > 0 {
            self.result.push(Tree::List(statement))
        } else {
            self.result
        }
    }
}

/// Where the block that is read from `pos` on stops, `nested` blocks being
/// open inside it: behind the `end` that closes it, or at the end of the input.
pub open spec fn block_end(tokens: Seq<Seq<char>>, pos: int, nested: nat) -> int
    decreases tokens.len() - pos,
{
    if pos >= tokens.len() {
        tokens.len() as int
    } else if tokens[pos] == block_open() {
        block_end(tokens, pos + 1, nested + 1)
    } else if tokens[pos] == block_close() {
        if nested == 0 {
            pos + 1
        } else {
            block_end(tokens, pos + 1, (nested - 1) as nat)
        }
    } else {
        block_end(tokens, pos + 1, nested)
    }
}

pub proof fn lemma_block_end_bounds(tokens: Seq<Seq<char>>, pos: int, nested: nat)
    requires
        pos <= tokens.len(),
    ensures
        pos <= block_end(tokens, pos, nested) <= tokens.len(),
        pos < tokens.len() ==> pos < block_end(tokens, pos, nested),
    decreases tokens.len() - pos,
{
    if pos < tokens.len() {
        if tokens[pos] == block_open() {
            lemma_block_end_bounds(tokens, pos + 1, nested + 1);
        } else if tokens[pos] == block_close() {
            if nested > 0 {
                lemma_block_end_bounds(tokens, pos + 1, (nested - 1) as nat);
            }
        } else {
            lemma_block_end_bounds(tokens, pos + 1, nested);
        }
    }
}

/// Reading on behind an inner block leads to the same place as reading
/// through it.
pub proof fn lemma_block_end_resume(tokens: Seq<Seq<char>>, pos: int, inner: nat, outer: nat)
    ensures
        block_end(tokens, pos, inner + outer + 1) == block_end(
            tokens,
            block_end(tokens, pos, inner),
            outer,
        ),
    decreases tokens.len() - pos,
{
    if pos < tokens.len() {
        if tokens[pos] == block_open() {
            lemma_block_end_resume(tokens, pos + 1, inner + 1, outer);
        } else if tokens[pos] == block_close() {
            if inner > 0 {
                lemma_block_end_resume(tokens, pos + 1, (inner - 1) as nat, outer);
            }
        } else {
            lemma_block_end_resume(tokens, pos + 1, inner, outer);
        }
    }
}

/// The statements of the block that is read from `pos` on with `frame` in
/// hand. A `then` hands the lexemes behind it to a nested block and reads on
/// where that one stopped; as the last lexeme it opens nothing.
pub open spec fn block_items(tokens: Seq<Seq<char>>, pos: int, frame: Frame) -> Seq<Tree>
    decreases tokens.len() - pos,
{
    if pos < 0 || pos >= tokens.len() {
        frame.exhausted()
    } else if tokens[pos] == block_close() {
        frame.closed()
    } else if tokens[pos] == block_open() {
        if pos + 1 >= tokens.len() {
            frame.exhausted()
        } else {
            proof {
                lemma_block_end_bounds(tokens, pos + 1, 0);
            }
            block_items(
                tokens,
                block_end(tokens, pos + 1, 0),
                frame.with_block(Tree::List(block_items(tokens, pos + 1, Frame::fresh()))),
            )
        }
    } else {
        block_items(tokens, pos + 1, frame.step(tokens[pos]))
    }
}

/// By how much a lexeme changes the depth of nesting.
pub open spec fn depth_change(lexeme: Seq<char>) -> int {
    if lexeme == block_open() {
        1
    } else if lexeme == block_close() {
        -1
    } else {
        0
    }
}

/// The `then`s less the `end`s among the lexemes from `from` up to `to`.
pub open spec fn net_depth(tokens: Seq<Seq<char>>, from: int, to: int) -> int
    decreases to - from,
{
    if to <= from {
        0
    } else {
        net_depth(tokens, from, to - 1) + depth_change(tokens[to - 1])
    }
}

/// Whether reading up to `upto` has read a `then` as the last lexeme of the
/// input, behind which no block can be read.
pub open spec fn open_at_end(tokens: Seq<Seq<char>>, upto: int) -> bool {
    upto == tokens.len() && tokens.len() > 0 && tokens.last() == block_open()
}

/// What the parser reports beside the tree for having read up to `upto`.
pub open spec fn diagnostics_of(tokens: Seq<Seq<char>>, upto: int) -> Seq<Seq<char>> {
    if open_at_end(tokens, upto) {
        seq![unexpected_eof()]
    } else {
        Seq::empty()
    }
}

pub proof fn lemma_net_depth_split(tokens: Seq<Seq<char>>, from: int, mid: int, to: int)
    requires
        from <= mid <= to,
    ensures
        net_depth(tokens, from, to) == net_depth(tokens, from, mid) + net_depth(tokens, mid, to),
    decreases to - mid,
{
    if mid < to {
        lemma_net_depth_split(tokens, from, mid, to - 1);
    }
}

/// Whether no lexeme from `from` on opens or closes a block.
pub open spec fn is_plain(tokens: Seq<Seq<char>>, from: int) -> bool {
    forall|j: int|
        from <= j < tokens.len() ==> (#[trigger] tokens[j]) != block_open() && tokens[j]
            != block_close()
}

/// The frame after a run of lexemes of which none opens or closes a block.
pub open spec fn plain_run(frame: Frame, lexemes: Seq<Seq<char>>) -> Frame
    decreases lexemes.len(),
{
    if lexemes.len() == 0 {
        frame
    } else {
        plain_run(frame.step(lexemes[0]), lexemes.drop_first())
    }
}

proof fn lemma_plain_block(tokens: Seq<Seq<char>>, pos: int, frame: Frame, nested: nat)
    requires
        0 <= pos <= tokens.len(),
        is_plain(tokens, pos),
    ensures
        block_end(tokens, pos, nested) == tokens.len(),
        block_items(tokens, pos, frame) == plain_run(frame, tokens.skip(pos)).exhausted(),
    decreases tokens.len() - pos,
{
    if pos < tokens.len() {
        assert(tokens.skip(pos)[0] == tokens[pos]);
        assert(tokens.skip(pos).drop_first() =~= tokens.skip(pos + 1));
        lemma_plain_block(tokens, pos + 1, frame.step(tokens[pos]), nested);
    }
}

/// A `then` that has lexemes behind it, none of them an `end` or another
/// `then`, opens a block that reads to the end of the input: the block holds
/// what those lexemes came to, as the end of the input leaves it, and the
/// block around it ends there too. No error comes of it.
pub proof fn lemma_unclosed_block(tokens: Seq<Seq<char>>, pos: int, frame: Frame)
    requires
        0 <= pos,
        pos + 1 < tokens.len(),
        tokens[pos] == block_open(),
        is_plain(tokens, pos + 1),
    ensures
        block_end(tokens, pos + 1, 0) == tokens.len(),
        block_end(tokens, pos, 0) == tokens.len(),
        block_items(tokens, pos + 1, Frame::fresh()) == plain_run(
            Frame::fresh(),
            tokens.skip(pos + 1),
        ).exhausted(),
        block_items(tokens, pos, frame) == frame.with_block(
            Tree::List(plain_run(Frame::fresh(), tokens.skip(pos + 1)).exhausted()),
        ).exhausted(),
        diagnostics_of(tokens, tokens.len() as int) == Seq::<Seq<char>>::empty(),
{
    lemma_plain_block(tokens, pos + 1, Frame::fresh(), 0);
    lemma_plain_block(tokens, pos + 1, Frame::fresh(), 1);
    assert(tokens.last() == tokens[tokens.len() - 1]);
    let around = frame.with_block(Tree::List(block_items(tokens, pos + 1, Frame::fresh())));
    assert(block_items(tokens, tokens.len() as int, around) == around.exhausted());
}

/// Whether every `end` closes a `then` before it, and every `then` has its
/// `end`.
pub open spec fn is_matched(tokens: Seq<Seq<char>>) -> bool {
    &&& forall|n: int| 0 <= n <= tokens.len() ==> #[trigger] net_depth(tokens, 0, n) >= 0
    &&& net_depth(tokens, 0, tokens.len() as int) == 0
}

proof fn lemma_never_closed(tokens: Seq<Seq<char>>, pos: int)
    requires
        0 <= pos <= tokens.len(),
        forall|n: int| 0 <= n <= tokens.len() ==> #[trigger] net_depth(tokens, 0, n) >= 0,
    ensures
        block_end(tokens, pos, net_depth(tokens, 0, pos) as nat) == tokens.len(),
    decreases tokens.len() - pos,
{
    if pos < tokens.len() {
        assert(net_depth(tokens, 0, pos) >= 0);
        assert(net_depth(tokens, 0, pos + 1) >= 0);
        assert(net_depth(tokens, 0, pos + 1) == net_depth(tokens, 0, pos) + depth_change(
            tokens[pos],
        ));
        lemma_never_closed(tokens, pos + 1);
    }
}

/// Where the `then`s and `end`s match, the parser reads every lexeme, and the
/// depth that it ends with is the depth that it began with, 0.
pub proof fn lemma_matched_blocks(tokens: Seq<Seq<char>>)
    requires
        is_matched(tokens),
    ensures
        block_end(tokens, 0, 0) == tokens.len(),
        net_depth(tokens, 0, block_end(tokens, 0, 0)) == 0,
{
    assert(net_depth(tokens, 0, 0) == 0);
    lemma_never_closed(tokens, 0);
}

#[derive(Debug)]
pub struct ParserError(String);

impl View for ParserError {
    type V = Seq<char>;

    closed spec fn view(&self) -> Seq<char> {
        self.0@
    }
}

impl Clone for ParserError {
    fn clone(&self) -> (res: Self)
        ensures
            res@ == self@,
    {
        ParserError(self.0.clone())
    }
}

impl ParserError {
    /// The text of the error.
    pub fn message(&self) -> (s: String)
        ensures
            s@ == self@,
    {
        self.0.clone()
    }
}

/// What a parser holds between two runs.
pub struct ParserState {
    /// The blocks opened less the blocks closed in the last run.
    pub depth: int,
    /// What the last run reported beside its tree.
    pub diagnostics: Seq<Seq<char>>,
}

pub struct Parser {
    depth: i128,
    diagnostics: Vec<String>,
}

impl View for Parser {
    type V = ParserState;

    closed spec fn view(&self) -> ParserState {
        ParserState { depth: self.depth as int, diagnostics: self.diagnostics.deep_view() }
    }
}

proof fn lemma_keywords()
    ensures
        "("@ == open_paren(),
        ")"@ == close_paren(),
        "then"@ == block_open(),
        "end"@ == block_close(),
        END_LINE@ == end_line(),
{
    reveal_strlit("(");
    reveal_strlit(")");
    reveal_strlit("then");
    reveal_strlit("end");
    reveal_strlit("\n");
    assert("("@ =~= open_paren());
    assert(")"@ =~= close_paren());
    assert("then"@ =~= block_open());
    assert("end"@ =~= block_close());
    assert(END_LINE@ =~= end_line());
}

/// The leaf that a lexeme becomes.
pub fn atom(lexeme: &String) -> (e: Expression)
    ensures
        e@ == atom_of(lexeme@),
{
    let text = lexeme.as_str();
    if !text.is_empty() && text.get_char(0) == '"' {
        Expression::new_string(lexeme.clone())
    } else if is_float(text) {
        Expression::new_number(lexeme.clone())
    } else {
        Expression::new_symbol(lexeme.clone())
    }
}

impl Parser {
    pub fn new() -> (p: Parser)
        ensures
            p@ == (ParserState { depth: 0, diagnostics: Seq::empty() }),
    {
        let p = Parser { depth: 0, diagnostics: Vec::new() };
        assert(p.diagnostics.deep_view() =~= Seq::empty());
        p
    }

    /// The blocks opened less the blocks closed in the last run.
    pub fn depth(&self) -> (d: i128)
        ensures
            d == self@.depth,
    {
        self.depth
    }

    /// What the last run reported beside its tree.
    pub fn diagnostics(&self) -> (d: &Vec<String>)
        ensures
            d.deep_view() == self@.diagnostics,
    {
        &self.diagnostics
    }

    /// Reads one block from the front of `tokens` and leaves in `tokens` what
    /// lies behind it. Only an empty `tokens` is an error.
    pub fn parse(&mut self, tokens: &mut Vec<String>) -> (r: Result<Expression, ParserError>)
        ensures
            r is Err <==> old(tokens)@.len() == 0,
            r matches Err(e) ==> {
                &&& e@ == unexpected_eof()
                &&& final(tokens)@ == old(tokens)@
                &&& final(self)@ == (ParserState { depth: 0, diagnostics: Seq::empty() })
            },
            r matches Ok(e) ==> {
                let lexemes = old(tokens).deep_view();
                let read = block_end(lexemes, 0, 0);
                &&& e@ == Tree::List(block_items(lexemes, 0, Frame::fresh()))
                &&& final(tokens).deep_view() == lexemes.skip(read)
                &&& final(self)@.depth == net_depth(lexemes, 0, read)
                &&& final(self)@.diagnostics == diagnostics_of(lexemes, read)
            },
    {
        self.depth = 0;
        self.diagnostics = Vec::new();
        assert(self.diagnostics.deep_view() =~= Seq::empty());
        let ghost lexemes = tokens.deep_view();
        let mut pos: usize = 0;
        let r = self.parse_block(tokens, &mut pos);
        if r.is_ok() {
            proof {
                lemma_block_end_bounds(lexemes, 0, 0);
            }
            let rest = tokens.split_off(pos);
            *tokens = rest;
            assert(tokens.deep_view() =~= lexemes.skip(pos as int));
        }
        r
    }

    /// Reads one block from `pos` on and moves `pos` behind it.
    fn parse_block(&mut self, tokens: &Vec<String>, pos: &mut usize) -> (r: Result<
        Expression,
        ParserError,
    >)
        requires
            *old(pos) <= tokens.len(),
            -*old(pos) <= old(self).depth <= *old(pos),
        ensures
            r is Err <==> *old(pos) == tokens.len(),
            r matches Err(e) ==> {
                &&& e@ == unexpected_eof()
                &&& *final(pos) == *old(pos)
                &&& *final(self) == *old(self)
            },
            r matches Ok(e) ==> {
                let lexemes = tokens.deep_view();
                &&& e@ == Tree::List(block_items(lexemes, *old(pos) as int, Frame::fresh()))
                &&& *final(pos) == block_end(lexemes, *old(pos) as int, 0)
                &&& final(self)@.depth == old(self)@.depth + net_depth(
                    lexemes,
                    *old(pos) as int,
                    *final(pos) as int,
                )
                &&& final(self)@.diagnostics == old(self)@.diagnostics + diagnostics_of(
                    lexemes,
                    *final(pos) as int,
                )
                &&& -*final(pos) <= final(self).depth <= *final(pos)
            },
        decreases tokens.len() - *old(pos),
    {
        if *pos >= tokens.len() {
            return Err(ParserError("Unexpected EOF".to_owned()));
        }
        let ghost lexemes = tokens.deep_view();
        let ghost start = *pos as int;
        let ghost mut frame = Frame::fresh();
        let mut result = Expression::new_list();
        let mut current_expression = Expression::new_list();
        let mut param_expression = Expression::new_list();
        let mut is_param = false;
        let mut param_counter: i128 = 0;
        proof {
            lemma_keywords();
            assert(self@.diagnostics + diagnostics_of(lexemes, start) =~= self@.diagnostics);
        }

        while *pos < tokens.len()
            invariant
                lexemes == tokens.deep_view(),
                start < tokens.len(),
                start == *old(pos) <= *pos <= tokens.len(),
                result@ == Tree::List(frame.result),
                current_expression@ == Tree::List(frame.statement),
                param_expression@ == Tree::List(frame.params),
                is_param == frame.in_params,
                param_counter == frame.open_parens,
                start - *pos <= param_counter <= *pos - start,
                -*pos <= self.depth <= *pos,
                block_items(lexemes, *pos as int, frame) == block_items(
                    lexemes,
                    start,
                    Frame::fresh(),
                ),
                block_end(lexemes, *pos as int, 0) == block_end(lexemes, start, 0),
                self@.depth == old(self)@.depth + net_depth(lexemes, start, *pos as int),
                self@.diagnostics == old(self)@.diagnostics + diagnostics_of(
                    lexemes,
                    *pos as int,
                ),
                "("@ == open_paren(),
                ")"@ == close_paren(),
                "then"@ == block_open(),
                "end"@ == block_close(),
                END_LINE@ == end_line(),
            decreases tokens.len() - *pos,
        {
            let ghost at = *pos as int;
            let w = &tokens[*pos];
            assert(lexemes[at] == w@);
            assert(diagnostics_of(lexemes, at) =~= Seq::empty());
            *pos += 1;
            assert(block_end(lexemes, at, 0) == if w@ == block_open() {
                block_end(lexemes, at + 1, 1)
            } else if w@ == block_close() {
                at + 1
            } else {
                block_end(lexemes, at + 1, 0)
            });
            let word = w.as_str();
            if word.eq("(") {
                is_param = true;
                param_counter += 1;
                proof {
                    frame = frame.step(w@);
                }
            } else if word.eq(")") {
                param_counter -= 1;
                if param_counter == 0 {
                    is_param = false;
                    if let Err(message) = current_expression.push(param_expression) {
                        self.diagnostics.push(message);
                    }
                    param_expression = Expression::new_list();
                }
                proof {
                    frame = frame.step(w@);
                }
            } else if word.eq("then") {
                self.depth += 1;
                let ghost entered = *self;
                match self.parse_block(tokens, pos) {
                    Ok(block) => {
                        proof {
                            lemma_block_end_bounds(lexemes, at + 1, 0);
                        }
                        if let Err(message) = current_expression.push(block) {
                            self.diagnostics.push(message);
                        }
                        proof {
                            frame =
                            frame.with_block(
                                Tree::List(block_items(lexemes, at + 1, Frame::fresh())),
                            );
                            lemma_block_end_resume(lexemes, at + 1, 0, 0);
                            lemma_net_depth_split(lexemes, start, at + 1, *pos as int);
                            assert(diagnostics_of(lexemes, at + 1) =~= Seq::empty());
                        }
                    },
                    Err(e) => {
                        // Nothing lies behind this `then`: the loop ends here.
                        let ghost before = self.diagnostics;
                        let message = e.message();
                        self.diagnostics.push(message);
                        proof {
                            crate::text::lemma_lexemes_push(before, self.diagnostics, message);
                            assert(lexemes.last() == lexemes[at]);
                            assert(old(self)@.diagnostics + seq![unexpected_eof()]
                                =~= old(self)@.diagnostics.push(unexpected_eof()));
                        }
                    },
                }
            } else if word.eq("end") {
                self.depth -= 1;
                if current_expression.len() > 0 {
                    if let Err(message) = result.push(current_expression) {
                        self.diagnostics.push(message);
                    }
                }
                proof {
                    assert(diagnostics_of(lexemes, at + 1) =~= Seq::empty());
                }
                return Ok(result);
            } else if word.eq(END_LINE) {
                if !is_param && current_expression.len() > 0 {
                    if let Err(message) = result.push(current_expression) {
                        self.diagnostics.push(message);
                    }
                    current_expression = Expression::new_list();
                }
                proof {
                    frame = frame.step(w@);
                }
            } else {
                let leaf = atom(w);
                if is_param {
                    if let Err(message) = param_expression.push(leaf) {
                        self.diagnostics.push(message);
                    }
                } else {
                    if let Err(message) = current_expression.push(leaf) {
                        self.diagnostics.push(message);
                    }
                }
                proof {
                    frame = frame.step(w@);
                }
            }
            proof {
                if *pos == tokens.len() && !(w@ == block_open()) {
                    assert(lexemes.last() == lexemes[at]);
                    assert(diagnostics_of(lexemes, *pos as int) =~= Seq::empty());
                }
                if *pos < tokens.len() {
                    assert(diagnostics_of(lexemes, *pos as int) =~= Seq::empty());
                }
                assert(old(self)@.diagnostics + Seq::<Seq<char>>::empty()
                    =~= old(self)@.diagnostics);
            }
        }

        if param_expression.len() > 0 {
            if let Err(message) = current_expression.push(param_expression) {
                self.diagnostics.push(message);
            }
        }
        if current_expression.len() > 0 {
            if let Err(message) = result.push(current_expression) {
                self.diagnostics.push(message);
            }
        }
        Ok(result)
    }
}

} // verus!
