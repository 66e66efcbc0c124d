//! The tokenizer: a character-driven state machine that cuts JSON text into
//! tokens.
//!
//! The machine holds a state and a buffer with the characters of the token in
//! progress. Each character either extends that token, ends it (and starts the
//! next one), or is a syntax error. [`LexModel`] describes the machine
//! mathematically; [`LexState`] is the machine itself. [`TokenizerView`]
//! describes a pull of the next token, and [`Tokenizer`] does it.

use crate::chars::{chars_of, is_numeric_char, string_of};
use crate::token::{conversion_of, token_from_chars};
pub use crate::token::{
    tokens_view, Constant, ConstantView, JsonLexError, Token, TokenView,
};
use vstd::prelude::*;

verus! {

/// What the tokenizer takes the token in progress to be.
#[derive(Clone, Copy, PartialEq, Eq, Structural, Debug)]
pub enum LexStateType {
    /// Between tokens: nothing buffered yet.
    Any,
    /// Digits only so far: an integer, or the part of a float before its point.
    Numeric,
    /// Digits with one decimal point among them.
    Float,
    /// A string literal, from its opening quote on.
    String,
    /// A prefix of the word `null`.
    Null,
    /// Not a token; lexing has failed.
    Invalid,
    /// One of the six single-character symbols.
    Symbol,
}

/// The tokenizer's state as a mathematical value.
pub ghost struct LexModel {
    pub kind: LexStateType,
    pub buffer: Seq<char>,
}

/// Space, tab or newline: what may stand between tokens.
pub open spec fn is_blank(c: char) -> bool {
    c == ' ' || c == '\n' || c == '\t'
}

/// One of the six structural characters `{ } [ ] : ,`.
pub open spec fn is_symbol(c: char) -> bool {
    c == '{' || c == '}' || c == '[' || c == ']' || c == ':' || c == ','
}

/// The buffer of a string token ends in its closing quote: a quote that is not
/// the opening one and does not follow a backslash. Only the one character
/// before the quote is looked at, so a quote behind a backslash never closes
/// the string, even where that backslash is itself escaped; and no escape is
/// decoded.
pub open spec fn is_closed_string(buffer: Seq<char>) -> bool {
    &&& buffer.len() >= 2
    &&& buffer[buffer.len() - 1] == '"'
    &&& buffer[buffer.len() - 2] != '\\'
}

/// `buffer` is one of `n`, `nu`, `nul`, `null`.
pub open spec fn is_null_prefix(buffer: Seq<char>) -> bool {
    1 <= buffer.len() <= 4 && buffer == "null"@.take(buffer.len() as int)
}

impl LexModel {
    /// The state between tokens, with an empty buffer.
    pub open spec fn initial() -> LexModel {
        LexModel { kind: LexStateType::Any, buffer: Seq::empty() }
    }

    /// The character is skipped without a trace: blank space between tokens.
    pub open spec fn ignores(self, c: char) -> bool {
        self.kind == LexStateType::Any && is_blank(c)
    }

    /// The character extends the token in progress (or is skipped).
    pub open spec fn allows(self, c: char) -> bool {
        match self.kind {
            LexStateType::Any => is_blank(c) || is_numeric_char(c) || c == '.' || c
                == '"' || c == 'n' || is_symbol(c),
            LexStateType::Numeric => is_numeric_char(c) || c == '.',
            LexStateType::Float => is_numeric_char(c),
            LexStateType::String => !is_closed_string(self.buffer),
            LexStateType::Null => {
                &&& is_null_prefix(self.buffer)
                &&& self.buffer.len() < 4
                &&& c == "null"@[self.buffer.len() as int]
            },
            LexStateType::Invalid => false,
            LexStateType::Symbol => false,
        }
    }

    /// The token in progress is complete and the character begins the next one.
    pub open spec fn terminated_by(self, c: char) -> bool {
        match self.kind {
            LexStateType::Any => false,
            LexStateType::Numeric => !(is_numeric_char(c) || c == '.'),
            LexStateType::Float => !(is_numeric_char(c) || c == '.'),
            LexStateType::String => is_closed_string(self.buffer),
            LexStateType::Null => self.buffer == "null"@,
            LexStateType::Invalid => false,
            LexStateType::Symbol => true,
        }
    }

    /// A character that the state allows never makes it invalid.
    pub proof fn lemma_allowed_stays_valid(self, c: char)
        requires
            self.allows(c),
        ensures
            self.incorporate(c).kind != LexStateType::Invalid,
    {
        reveal_strlit("null");
        if self.kind == LexStateType::Null {
            let n = self.buffer.len() as int;
            assert(self.buffer.push(c) =~= "null"@.take(n + 1));
        }
    }

    /// The state after taking the character in: blank space between tokens
    /// leaves no trace; any other character joins the buffer, and the kind is
    /// decided anew. A character that the state does not allow makes the
    /// state invalid.
    pub open spec fn incorporate(self, c: char) -> LexModel {
        if self.ignores(c) {
            self
        } else {
            let kind = match self.kind {
                LexStateType::Any => if is_numeric_char(c) {
                    LexStateType::Numeric
                } else if c == '.' {
                    LexStateType::Float
                } else if c == '"' {
                    LexStateType::String
                } else if c == 'n' {
                    LexStateType::Null
                } else if is_symbol(c) {
                    LexStateType::Symbol
                } else {
                    LexStateType::Invalid
                },
                LexStateType::Numeric => if c == '.' {
                    LexStateType::Float
                } else if is_numeric_char(c) {
                    LexStateType::Numeric
                } else {
                    LexStateType::Invalid
                },
                LexStateType::Float => if is_numeric_char(c) {
                    LexStateType::Float
                } else {
                    LexStateType::Invalid
                },
                LexStateType::String => if is_closed_string(self.buffer) {
                    LexStateType::Invalid
                } else {
                    LexStateType::String
                },
                LexStateType::Null => if is_null_prefix(self.buffer.push(c)) {
                    LexStateType::Null
                } else {
                    LexStateType::Invalid
                },
                LexStateType::Invalid => LexStateType::Invalid,
                LexStateType::Symbol => LexStateType::Invalid,
            };
            LexModel { kind, buffer: self.buffer.push(c) }
        }
    }
}

/// The tokenizer's state: the kind of the token in progress, and its
/// characters so far.
pub struct LexState {
    state: LexStateType,
    buffer: Vec<char>,
}

impl View for LexState {
    type V = LexModel;

    closed spec fn view(&self) -> LexModel {
        LexModel { kind: self.state, buffer: self.buffer@ }
    }
}

/// Tells whether `buffer` is one of `n`, `nu`, `nul`, `null`.
fn null_prefix(buffer: &Vec<char>) -> (b: bool)
    ensures
        b == is_null_prefix(buffer@),
{
    proof {
        reveal_strlit("null");
    }
    let n = buffer.len();
    let b = 1 <= n && n <= 4 && buffer[0] == 'n' && (n < 2 || buffer[1] == 'u') && (n < 3
        || buffer[2] == 'l') && (n < 4 || buffer[3] == 'l');
    proof {
        if b {
            assert(buffer@ =~= "null"@.take(n as int));
        }
    }
    b
}

/// Tells whether `buffer` ends in the closing quote of a string.
fn closed_string(buffer: &Vec<char>) -> (b: bool)
    ensures
        b == is_closed_string(buffer@),
{
    let n = buffer.len();
    n >= 2 && buffer[n - 1] == '"' && buffer[n - 2] != '\\'
}

/// Tells whether `c` is one of the six structural characters.
fn symbol(c: char) -> (b: bool)
    ensures
        b == is_symbol(c),
{
    c == '{' || c == '}' || c == '[' || c == ']' || c == ':' || c == ','
}

impl LexState {
    /// Whether the machine is between tokens.
    pub fn is_any(&self) -> (b: bool)
        ensures
            b == (self@.kind == LexStateType::Any),
    {
        self.state == LexStateType::Any
    }

    /// Whether lexing has failed.
    pub fn is_invalid(&self) -> (b: bool)
        ensures
            b == (self@.kind == LexStateType::Invalid),
    {
        self.state == LexStateType::Invalid
    }

    /// Whether `c` would be skipped: blank space between tokens.
    pub fn ignores(&self, c: char) -> (b: bool)
        ensures
            b == self@.ignores(c),
    {
        self.state == LexStateType::Any && (c == ' ' || c == '\n' || c == '\t')
    }

    /// The machine before any input: between tokens, nothing buffered.
    pub fn new() -> (s: Self)
        ensures
            s@ == LexModel::initial(),
    {
        Self { state: LexStateType::Any, buffer: Vec::new() }
    }

    /// Takes `c` in: appends it to the buffer and decides the kind anew,
    /// unless it is blank space between tokens, which leaves the state as it
    /// was. Instead of stopping the program on a character that the state
    /// does not allow, the machine becomes invalid.
    pub fn encorporate(&mut self, c: char)
        ensures
            final(self)@ == old(self)@.incorporate(c),
    {
        if self.ignores(c) {
            return ;
        }
        let closed = closed_string(&self.buffer);
        self.buffer.push(c);
        self.state = match self.state {
            LexStateType::Any => {
                if c.is_numeric() {
                    LexStateType::Numeric
                } else if c == '.' {
                    LexStateType::Float
                } else if c == '"' {
                    LexStateType::String
                } else if c == 'n' {
                    LexStateType::Null
                } else if symbol(c) {
                    LexStateType::Symbol
                } else {
                    LexStateType::Invalid
                }
            },
            LexStateType::Numeric => {
                if c == '.' {
                    LexStateType::Float
                } else if c.is_numeric() {
                    LexStateType::Numeric
                } else {
                    LexStateType::Invalid
                }
            },
            LexStateType::Float => {
                if c.is_numeric() {
                    LexStateType::Float
                } else {
                    LexStateType::Invalid
                }
            },
            LexStateType::String => {
                if closed {
                    LexStateType::Invalid
                } else {
                    LexStateType::String
                }
            },
            LexStateType::Null => {
                if null_prefix(&self.buffer) {
                    LexStateType::Null
                } else {
                    LexStateType::Invalid
                }
            },
            LexStateType::Invalid => LexStateType::Invalid,
            LexStateType::Symbol => LexStateType::Invalid,
        };
    }

    /// Whether the token in progress is complete and `c` begins the next one.
    pub fn is_terminated_by(&self, c: char) -> (b: bool)
        ensures
            b == self@.terminated_by(c),
    {
        proof {
            reveal_strlit("null");
            assert("null"@.take(4) == "null"@);
        }
        match self.state {
            LexStateType::Any => false,
            LexStateType::Numeric => !(c.is_numeric() || c == '.'),
            LexStateType::Float => !(c.is_numeric() || c == '.'),
            LexStateType::String => closed_string(&self.buffer),
            LexStateType::Null => self.buffer.len() == 4 && null_prefix(&self.buffer),
            LexStateType::Invalid => false,
            LexStateType::Symbol => true,
        }
    }

    /// Whether `c` extends the token in progress (or is skipped).
    pub fn allows(&self, c: char) -> (b: bool)
        ensures
            b == self@.allows(c),
    {
        proof {
            reveal_strlit("null");
        }
        match self.state {
            LexStateType::Any => c == ' ' || c == '\n' || c == '\t' || c.is_numeric() || c == '.'
                || c == '"' || c == 'n' || symbol(c),
            LexStateType::Numeric => c.is_numeric() || c == '.',
            LexStateType::Float => c.is_numeric(),
            LexStateType::String => !closed_string(&self.buffer),
            LexStateType::Null => {
                let n = self.buffer.len();
                null_prefix(&self.buffer) && ((n == 1 && c == 'u') || (n == 2 && c == 'l') || (n
                    == 3 && c == 'l'))
            },
            LexStateType::Invalid => false,
            LexStateType::Symbol => false,
        }
    }
}

/// The lazy tokenizer as a mathematical value: the machine's state, and the
/// characters it has not seen yet.
pub ghost struct TokenizerView {
    pub state: LexModel,
    pub rest: Seq<char>,
}

/// What one pull from the tokenizer gives: nothing more, a token, or the text
/// of a syntax error.
pub type Pulled = Option<Result<TokenView, Seq<char>>>;

impl TokenizerView {
    /// The tokenizer at the start of `text`.
    pub open spec fn start(text: Seq<char>) -> TokenizerView {
        TokenizerView { state: LexModel::initial(), rest: text }
    }

    /// The tokenizer after a syntax error in `snippet`: it stays failed.
    pub open spec fn failed(snippet: Seq<char>, rest: Seq<char>) -> TokenizerView {
        TokenizerView { state: LexModel { kind: LexStateType::Invalid, buffer: snippet }, rest }
    }

    /// The buffer is complete: its token is the item, and the tokenizer goes
    /// on in `state`; if the buffer is no token, that is the error.
    pub open spec fn emit(buffer: Seq<char>, state: LexModel, rest: Seq<char>) -> (
        Pulled,
        TokenizerView,
    ) {
        match conversion_of(buffer) {
            Ok(t) => (Some(Ok(t)), TokenizerView { state, rest }),
            Err(snippet) => (Some(Err(snippet)), Self::failed(snippet, rest)),
        }
    }

    /// One pull: the item it gives, and the tokenizer afterwards.
    ///
    /// A failed tokenizer gives its error again. Otherwise characters are
    /// taken in while the state allows them. A character that ends the token
    /// in progress makes that token the item, and begins the next token. A
    /// character that does neither joins the buffer, which is then the
    /// error. At the end of the text a token in progress is the last item.
    pub open spec fn next(self) -> (Pulled, TokenizerView)
        decreases self.rest.len(),
    {
        if self.state.kind == LexStateType::Invalid {
            (Some(Err(self.state.buffer)), self)
        } else if self.rest.len() == 0 {
            if self.state.kind == LexStateType::Any {
                (None, self)
            } else {
                Self::emit(self.state.buffer, LexModel::initial(), self.rest)
            }
        } else {
            let c = self.rest.first();
            let rest = self.rest.drop_first();
            if self.state.allows(c) {
                (TokenizerView { state: self.state.incorporate(c), rest }).next()
            } else if self.state.terminated_by(c) {
                Self::emit(self.state.buffer, LexModel::initial().incorporate(c), rest)
            } else {
                (Some(Err(self.state.buffer.push(c))), Self::failed(self.state.buffer.push(c), rest))
            }
        }
    }

    /// What is left to do: the characters not yet seen, and one more for a
    /// token in progress.
    pub open spec fn pending(self) -> nat {
        if self.state.kind == LexStateType::Any {
            self.rest.len()
        } else {
            self.rest.len() + 1
        }
    }

    /// All the tokens that the tokenizer gives from here on, or the first
    /// syntax error.
    pub open spec fn tokens(self) -> Result<Seq<TokenView>, Seq<char>>
        decreases self.pending(),
        via Self::tokens_terminates
    {
        match self.next() {
            (None, _) => Ok(Seq::empty()),
            (Some(Err(snippet)), _) => Err(snippet),
            (Some(Ok(t)), after) => match after.tokens() {
                Ok(ts) => Ok(seq![t] + ts),
                Err(snippet) => Err(snippet),
            },
        }
    }

    #[via_fn]
    proof fn tokens_terminates(self) {
        self.lemma_next_progress();
    }

    /// Failure is permanent: after a pull that gave a syntax error, every
    /// pull gives that error again and changes nothing.
    pub proof fn lemma_failure_is_permanent(self)
        ensures
            self.next().0 matches Some(Err(snippet)) ==> self.next().1.next() == (
                Some(Err::<TokenView, Seq<char>>(snippet)),
                self.next().1,
            ),
        decreases self.rest.len(),
    {
        if self.state.kind != LexStateType::Invalid && self.rest.len() > 0 {
            let c = self.rest.first();
            if self.state.allows(c) {
                (TokenizerView {
                    state: self.state.incorporate(c),
                    rest: self.rest.drop_first(),
                }).lemma_failure_is_permanent();
            }
        }
    }

    /// The end is permanent: after a pull that gave nothing, every pull
    /// gives nothing and changes nothing.
    pub proof fn lemma_end_is_permanent(self)
        ensures
            self.next().0 is None ==> self.next().1.next() == (None::<Result<TokenView, Seq<char>>>, self.next().1),
        decreases self.rest.len(),
    {
        if self.state.kind != LexStateType::Invalid && self.rest.len() > 0 {
            let c = self.rest.first();
            if self.state.allows(c) {
                (TokenizerView {
                    state: self.state.incorporate(c),
                    rest: self.rest.drop_first(),
                }).lemma_end_is_permanent();
            }
        }
    }

    /// A pull that gives a token leaves less to do.
    pub proof fn lemma_next_progress(self)
        ensures
            self.next().0 matches Some(Ok(_)) ==> self.next().1.pending() < self.pending(),
        decreases self.rest.len(),
    {
        if self.state.kind != LexStateType::Invalid && self.rest.len() > 0 {
            let c = self.rest.first();
            if self.state.allows(c) {
                (TokenizerView {
                    state: self.state.incorporate(c),
                    rest: self.rest.drop_first(),
                }).lemma_next_progress();
            }
        }
    }
}

/// All the tokens of `text`, or the text of its first syntax error.
pub open spec fn lex(text: Seq<char>) -> Result<Seq<TokenView>, Seq<char>> {
    TokenizerView::start(text).tokens()
}

/// The view of what a pull returned.
pub open spec fn pulled_view(item: Option<Result<Token, JsonLexError>>) -> Pulled {
    match item {
        None => None,
        Some(Ok(t)) => Some(Ok(t@)),
        Some(Err(e)) => Some(Err(e@)),
    }
}

/// A lazy sequence of tokens over a text. It is consumed in one pass: once a
/// pull has failed, every later pull fails in the same way.
pub struct Tokenizer {
    json: Vec<char>,
    position: usize,
    state: LexState,
}

impl View for Tokenizer {
    type V = TokenizerView;

    closed spec fn view(&self) -> TokenizerView {
        let seen = if self.position <= self.json@.len() {
            self.position as int
        } else {
            self.json@.len() as int
        };
        TokenizerView { state: self.state@, rest: self.json@.skip(seen) }
    }
}

impl Tokenizer {
    /// A tokenizer at the start of `json`.
    pub fn new(json: &str) -> (t: Self)
        ensures
            t@ == TokenizerView::start(json@),
    {
        let t = Self { json: chars_of(json), position: 0, state: LexState::new() };
        assert(t.json@.skip(0) == json@);
        t
    }

    /// Pulls the next item: a token, a syntax error, or `None` when the text
    /// is used up.
    pub fn next(&mut self) -> (item: Option<Result<Token, JsonLexError>>)
        ensures
            pulled_view(item) == old(self)@.next().0,
            final(self)@ == old(self)@.next().1,
    {
        if self.state.is_invalid() {
            let n = self.state.buffer.len();
            assert(self.state.buffer@.subrange(0, n as int) == self.state.buffer@);
            return Some(Err(JsonLexError::InvalidSyntax(string_of(&self.state.buffer, 0, n))));
        }
        while self.position < self.json.len()
            invariant
                self.state@.kind != LexStateType::Invalid,
                self@.next() == old(self)@.next(),
            decreases self.json@.len() - self.position,
        {
            let c = self.json[self.position];
            assert(self@.rest.first() == c);
            assert(self@.rest.drop_first() == self.json@.skip(self.position + 1));
            self.position += 1;
            if self.state.allows(c) {
                proof {
                    self.state@.lemma_allowed_stays_valid(c);
                }
                self.state.encorporate(c);
            } else if self.state.is_terminated_by(c) {
                let converted = token_from_chars(&self.state.buffer);
                match converted {
                    Ok(token) => {
                        self.state = LexState::new();
                        self.state.encorporate(c);
                        return Some(Ok(token));
                    },
                    Err(e) => {
                        self.state.state = LexStateType::Invalid;
                        return Some(Err(e));
                    },
                }
            } else {
                self.state.buffer.push(c);
                self.state.state = LexStateType::Invalid;
                let n = self.state.buffer.len();
                assert(self.state.buffer@.subrange(0, n as int) == self.state.buffer@);
                return Some(Err(JsonLexError::InvalidSyntax(string_of(&self.state.buffer, 0, n))));
            }
        }
        assert(self@.rest.len() == 0);
        if self.state.is_any() {
            None
        } else {
            let converted = token_from_chars(&self.state.buffer);
            match converted {
                Ok(token) => {
                    self.state = LexState::new();
                    Some(Ok(token))
                },
                Err(e) => {
                    self.state.state = LexStateType::Invalid;
                    Some(Err(e))
                },
            }
        }
    }
}

/// Cuts `json` into its tokens.
///
/// Returns the tokens in order, or `InvalidSyntax` with the text of the first
/// syntax error.
pub fn tokenize(json: &str) -> (r: Result<Vec<Token>, JsonLexError>)
    ensures
        match lex(json@) {
            Ok(ts) => r matches Ok(tokens) && tokens_view(tokens@) == ts,
            Err(snippet) => r matches Err(e) && e@ == snippet,
        },
{
    let mut tokenizer = Tokenizer::new(json);
    let mut tokens: Vec<Token> = Vec::new();
    loop
        invariant
            lex(json@) == match tokenizer@.tokens() {
                Ok(ts) => Ok(tokens_view(tokens@) + ts),
                Err(snippet) => Err(snippet),
            },
        decreases tokenizer@.pending(),
    {
        let ghost before = tokenizer@;
        proof {
            before.lemma_next_progress();
        }
        match tokenizer.next() {
            None => {
                assert(tokens_view(tokens@) + Seq::<TokenView>::empty() == tokens_view(tokens@));
                return Ok(tokens);
            },
            Some(Err(e)) => {
                return Err(e);
            },
            Some(Ok(token)) => {
                proof {
                    assert(tokens_view(tokens@.push(token)) == tokens_view(tokens@).push(token@));
                    if let Ok(ts) = tokenizer@.tokens() {
                        assert(tokens_view(tokens@).push(token@) + ts == tokens_view(tokens@) + (
                        seq![token@] + ts));
                    }
                }
                tokens.push(token);
            },
        }
    }
}

} // verus!
