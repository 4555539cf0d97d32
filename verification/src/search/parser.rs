//! The query pattern language: a lexer over the query characters and a
//! recursive-descent parser for the boolean/decorated grammar.

use vstd::prelude::*;

use crate::text;

verus! {

broadcast use vstd::std_specs::vec::group_vec_axioms, vstd::seq::group_seq_axioms;

/// One lexeme of the query language.
#[derive(Debug, Clone, Eq)]
pub enum PatternTokens {
    Quote,
    Caret,
    Dollar,
    Space,
    Pipe,
    Bang,
    LParen,
    RParen,
    Star,
    Pattern(String),
}

/// The mathematical shape of a lexeme: its text as a character sequence.
pub enum TokenModel {
    Quote,
    Caret,
    Dollar,
    Space,
    Pipe,
    Bang,
    LParen,
    RParen,
    Star,
    Pattern(Seq<char>),
}

/// The model of one token.
pub open spec fn token_model(t: PatternTokens) -> TokenModel {
    match t {
        PatternTokens::Quote => TokenModel::Quote,
        PatternTokens::Caret => TokenModel::Caret,
        PatternTokens::Dollar => TokenModel::Dollar,
        PatternTokens::Space => TokenModel::Space,
        PatternTokens::Pipe => TokenModel::Pipe,
        PatternTokens::Bang => TokenModel::Bang,
        PatternTokens::LParen => TokenModel::LParen,
        PatternTokens::RParen => TokenModel::RParen,
        PatternTokens::Star => TokenModel::Star,
        PatternTokens::Pattern(s) => TokenModel::Pattern(s@),
    }
}

/// The model of a token sequence.
pub open spec fn tokens_model(ts: Seq<PatternTokens>) -> Seq<TokenModel> {
    Seq::new(ts.len(), |i: int| token_model(ts[i]))
}

impl PartialEq for PatternTokens {
    /// Two lexemes are equal when their models are.
    fn eq(&self, other: &Self) -> (r: bool)
        ensures
            r == (token_model(*self) == token_model(*other)),
    {
        match (self, other) {
            (PatternTokens::Quote, PatternTokens::Quote) => true,
            (PatternTokens::Caret, PatternTokens::Caret) => true,
            (PatternTokens::Dollar, PatternTokens::Dollar) => true,
            (PatternTokens::Space, PatternTokens::Space) => true,
            (PatternTokens::Pipe, PatternTokens::Pipe) => true,
            (PatternTokens::Bang, PatternTokens::Bang) => true,
            (PatternTokens::LParen, PatternTokens::LParen) => true,
            (PatternTokens::RParen, PatternTokens::RParen) => true,
            (PatternTokens::Star, PatternTokens::Star) => true,
            (PatternTokens::Pattern(a), PatternTokens::Pattern(b)) => text::str_eq(
                a.as_str(),
                b.as_str(),
            ),
            _ => false,
        }
    }
}

impl vstd::std_specs::cmp::PartialEqSpecImpl for PatternTokens {
    open spec fn obeys_eq_spec() -> bool {
        true
    }

    open spec fn eq_spec(&self, other: &Self) -> bool {
        token_model(*self) == token_model(*other)
    }
}

/// A cursor over a borrowed buffer of lexemes (or characters).
pub struct Walker<'inner, T> {
    buffer: &'inner [T],
    current: usize,
}

impl<'inner, T> Walker<'inner, T> {
    /// What remains to be consumed is `self.items().skip(self.pos())`.
    pub closed spec fn items(&self) -> Seq<T> {
        self.buffer@
    }

    /// The cursor position.
    pub closed spec fn pos(&self) -> int {
        self.current as int
    }

    /// A cursor at the start of the buffer.
    pub fn new(buffer: &'inner [T]) -> (r: Self)
        ensures
            r.items() == buffer@,
            r.pos() == 0,
    {
        Self { buffer, current: 0 }
    }

    /// The lexeme under the cursor, if any.
    pub fn peek(&self) -> (r: Option<&T>)
        ensures
            match r {
                Some(t) => self.pos() < self.items().len() && *t == self.items()[self.pos()],
                None => self.pos() >= self.items().len(),
            },
    {
        if self.current < self.buffer.len() {
            Some(&self.buffer[self.current])
        } else {
            None
        }
    }

    /// Step over one lexeme.
    pub fn advance(&mut self)
        ensures
            final(self).items() == old(self).items(),
            final(self).pos() == if old(self).pos() == usize::MAX {
                usize::MAX as int
            } else {
                old(self).pos() + 1
            },
    {
        self.current = if self.current < usize::MAX {
            self.current + 1
        } else {
            self.current
        };
    }

    /// How many lexemes the whole buffer holds.
    pub fn buffer_size(&self) -> (r: usize)
        ensures
            r == self.items().len(),
    {
        self.buffer.len()
    }
}

impl<'inner> Walker<'inner, PatternTokens> {
    /// The expected lexemes occur here, model for model.
    pub open spec fn tokens_at(&self, expected: Seq<PatternTokens>) -> bool {
        forall|k: int|
            #![trigger expected[k]]
            0 <= k < expected.len() ==> self.pos() + k < self.items().len() && token_model(
                self.items()[self.pos() + k],
            ) == token_model(expected[k])
    }

    /// Consume the expected lexemes if they all occur here, in order; do not
    /// move otherwise.
    pub fn match_tokens(&mut self, tokens: &[PatternTokens]) -> (r: bool)
        ensures
            final(self).items() == old(self).items(),
            r == old(self).tokens_at(tokens@),
            final(self).pos() == if r {
                old(self).pos() + tokens@.len()
            } else {
                old(self).pos()
            },
    {
        let ghost items0 = self.items();
        let ghost pos0 = self.pos();
        let bl = self.buffer.len();
        proof {
            assert(items0.len() == bl);
        }
        let mut current = self.current;
        let mut k: usize = 0;
        while k < tokens.len()
            invariant
                self == old(self),
                self.items() == items0,
                self.pos() == pos0,
                items0.len() <= usize::MAX,
                k <= tokens@.len(),
                current == pos0 + k,
                pos0 + k <= items0.len() || k == 0,
                forall|j: int|
                    #![trigger tokens@[j]]
                    0 <= j < k ==> pos0 + j < items0.len() && token_model(items0[pos0 + j])
                        == token_model(tokens@[j]),
            decreases tokens@.len() - k,
        {
            if current < self.buffer.len() {
                let next = &self.buffer[current];
                let same = *next == tokens[k];
                proof {
                    assert(*next == items0[pos0 + k]);
                }
                if !same {
                    proof {
                        assert(token_model(items0[pos0 + k]) != token_model(tokens@[k as int]));
                    }
                    return false;
                }
            } else {
                proof {
                    assert(!old(self).tokens_at(tokens@)) by {
                        if old(self).tokens_at(tokens@) {
                            assert(old(self).pos() + k < old(self).items().len() && token_model(
                                old(self).items()[old(self).pos() + k],
                            ) == token_model(tokens@[k as int]));
                        }
                    }
                }
                return false;
            }
            current = current + 1;
            k = k + 1;
        }
        proof {
            assert forall|j: int|
                #![trigger tokens@[j]]
                0 <= j < tokens@.len() implies old(self).pos() + j < old(self).items().len()
                && token_model(old(self).items()[old(self).pos() + j]) == token_model(
                tokens@[j],
            ) by {}
        }
        let adv = tokens.len();
        self.current = if self.current <= usize::MAX - adv {
            self.current + adv
        } else {
            usize::MAX
        };
        proof {
            if tokens@.len() > 0 {
                assert(pos0 + (tokens@.len() - 1) < items0.len());
            }
        }
        true
    }
}

/// A query whose text could not be tokenized.
#[derive(Debug, Clone, Copy, PartialEq, Eq, Structural)]
pub struct MalformedQuery;

/// Leading spaces removed.
pub open spec fn drop_spaces(s: Seq<char>) -> Seq<char>
    decreases s.len(),
{
    if s.len() > 0 && s[0] == ' ' {
        drop_spaces(s.drop_first())
    } else {
        s
    }
}

pub proof fn lemma_drop_spaces_len(s: Seq<char>)
    ensures
        drop_spaces(s).len() <= s.len(),
    decreases s.len(),
{
    if s.len() > 0 && s[0] == ' ' {
        lemma_drop_spaces_len(s.drop_first());
    }
}

/// A character that ends a pattern run.
pub open spec fn is_run_end(c: char) -> bool {
    c == ' ' || c == '$'
}

/// Length of the maximal leading run of pattern text.
pub open spec fn run_len(s: Seq<char>) -> int
    decreases s.len(),
{
    if s.len() == 0 || is_run_end(s[0]) {
        0
    } else {
        1 + run_len(s.drop_first())
    }
}

pub proof fn lemma_run_len_bounds(s: Seq<char>)
    ensures
        0 <= run_len(s) <= s.len(),
    decreases s.len(),
{
    if !(s.len() == 0 || is_run_end(s[0])) {
        lemma_run_len_bounds(s.drop_first());
    }
}

/// The run length is exactly the first position whose character ends a run.
pub proof fn lemma_run_len_char(s: Seq<char>, m: int)
    requires
        0 <= m <= s.len(),
        forall|j: int| 0 <= j < m ==> !is_run_end(#[trigger] s[j]),
        m == s.len() || is_run_end(s[m]),
    ensures
        run_len(s) == m,
    decreases m,
{
    if m == 0 {
    } else {
        assert(!is_run_end(s[0]));
        assert(forall|j: int| 0 <= j < m - 1 ==> s.drop_first()[j] == s[j + 1]);
        lemma_run_len_char(s.drop_first(), m - 1);
    }
}

/// Whether one character lexes as a single fixed token.
pub open spec fn special_token(c: char) -> Option<TokenModel> {
    if c == '|' {
        Some(TokenModel::Pipe)
    } else if c == '!' {
        Some(TokenModel::Bang)
    } else if c == '*' {
        Some(TokenModel::Star)
    } else if c == '^' {
        Some(TokenModel::Caret)
    } else if c == '\'' {
        Some(TokenModel::Quote)
    } else if c == '$' {
        Some(TokenModel::Dollar)
    } else if c == '(' {
        Some(TokenModel::LParen)
    } else if c == ')' {
        Some(TokenModel::RParen)
    } else {
        None
    }
}

/// What the lexer produces: a space run collapses to one `Space`, the fixed
/// characters map to their tokens, and anything else opens a text run ended
/// by a space or a dollar.
pub open spec fn spec_lex(s: Seq<char>) -> Seq<TokenModel>
    decreases s.len(),
    via spec_lex_decreases
{
    if s.len() == 0 {
        Seq::empty()
    } else if s[0] == ' ' {
        seq![TokenModel::Space] + spec_lex(drop_spaces(s.drop_first()))
    } else {
        match special_token(s[0]) {
            Some(t) => seq![t] + spec_lex(s.drop_first()),
            None => seq![TokenModel::Pattern(s.take(run_len(s)))] + spec_lex(s.skip(run_len(s))),
        }
    }
}

#[via_fn]
proof fn spec_lex_decreases(s: Seq<char>) {
    if s.len() > 0 {
        if s[0] == ' ' {
            lemma_drop_spaces_len(s.drop_first());
        } else if special_token(s[0]) is None {
            assert(!is_run_end(s[0]));
            lemma_run_len_bounds(s.drop_first());
            assert(run_len(s) >= 1);
        }
    }
}

/// Tokenize a query string.
pub fn lexer(input: &str) -> (r: Result<Vec<PatternTokens>, MalformedQuery>)
    ensures
        r matches Ok(tokens) && tokens_model(tokens@) == spec_lex(input@),
{
    let chars = crate::text::chars_vec(input);
    let ghost s = input@;
    let n = chars.len();
    let mut tokens: Vec<PatternTokens> = Vec::new();
    let mut i: usize = 0;
    proof {
        assert(s.skip(0) =~= s);
        assert(tokens_model(tokens@) =~= Seq::<TokenModel>::empty());
    }
    while i < n
        invariant
            chars@ == s,
            n == s.len(),
            i <= n,
            spec_lex(s) == tokens_model(tokens@) + spec_lex(s.skip(i as int)),
        decreases n - i,
    {
        let ghost toks0 = tokens_model(tokens@);
        let ghost rest = s.skip(i as int);
        proof {
            assert(rest[0] == s[i as int]);
            assert(rest.drop_first() =~= s.skip(i + 1));
        }
        let current = chars[i];
        if current == ' ' {
            i = i + 1;
            let ghost i0 = i as int;
            while i < n && chars[i] == ' '
                invariant
                    chars@ == s,
                    n == s.len(),
                    i0 <= i <= n,
                    drop_spaces(rest.drop_first()) == drop_spaces(s.skip(i as int)),
                decreases n - i,
            {
                proof {
                    assert(s.skip(i as int)[0] == s[i as int]);
                    assert(s.skip(i as int).drop_first() =~= s.skip(i + 1));
                }
                i = i + 1;
            }
            proof {
                assert(s.skip(i as int).len() == 0 || s.skip(i as int)[0] != ' ');
                assert(drop_spaces(s.skip(i as int)) == s.skip(i as int));
            }
            tokens.push(PatternTokens::Space);
            proof {
                assert(tokens_model(tokens@) =~= toks0.push(TokenModel::Space));
                assert(spec_lex(rest) =~= seq![TokenModel::Space] + spec_lex(
                    drop_spaces(rest.drop_first()),
                ));
                assert(spec_lex(s) =~= tokens_model(tokens@) + spec_lex(s.skip(i as int)));
            }
        } else if current == '|' {
            i = i + 1;
            tokens.push(PatternTokens::Pipe);
            proof {
                assert(tokens_model(tokens@) =~= toks0.push(TokenModel::Pipe));
                assert(spec_lex(s) =~= tokens_model(tokens@) + spec_lex(s.skip(i as int)));
            }
        } else if current == '!' {
            i = i + 1;
            tokens.push(PatternTokens::Bang);
            proof {
                assert(tokens_model(tokens@) =~= toks0.push(TokenModel::Bang));
                assert(spec_lex(s) =~= tokens_model(tokens@) + spec_lex(s.skip(i as int)));
            }
        } else if current == '*' {
            i = i + 1;
            tokens.push(PatternTokens::Star);
            proof {
                assert(tokens_model(tokens@) =~= toks0.push(TokenModel::Star));
                assert(spec_lex(s) =~= tokens_model(tokens@) + spec_lex(s.skip(i as int)));
            }
        } else if current == '^' {
            i = i + 1;
            tokens.push(PatternTokens::Caret);
            proof {
                assert(tokens_model(tokens@) =~= toks0.push(TokenModel::Caret));
                assert(spec_lex(s) =~= tokens_model(tokens@) + spec_lex(s.skip(i as int)));
            }
        } else if current == '\'' {
            i = i + 1;
            tokens.push(PatternTokens::Quote);
            proof {
                assert(tokens_model(tokens@) =~= toks0.push(TokenModel::Quote));
                assert(spec_lex(s) =~= tokens_model(tokens@) + spec_lex(s.skip(i as int)));
            }
        } else if current == '$' {
            i = i + 1;
            tokens.push(PatternTokens::Dollar);
            proof {
                assert(tokens_model(tokens@) =~= toks0.push(TokenModel::Dollar));
                assert(spec_lex(s) =~= tokens_model(tokens@) + spec_lex(s.skip(i as int)));
            }
        } else if current == '(' {
            i = i + 1;
            tokens.push(PatternTokens::LParen);
            proof {
                assert(tokens_model(tokens@) =~= toks0.push(TokenModel::LParen));
                assert(spec_lex(s) =~= tokens_model(tokens@) + spec_lex(s.skip(i as int)));
            }
        } else if current == ')' {
            i = i + 1;
            tokens.push(PatternTokens::RParen);
            proof {
                assert(tokens_model(tokens@) =~= toks0.push(TokenModel::RParen));
                assert(spec_lex(s) =~= tokens_model(tokens@) + spec_lex(s.skip(i as int)));
            }
        } else {
            let start = i;
            proof {
                assert(!is_run_end(s[start as int]));
            }
            let mut buffer: Vec<char> = Vec::new();
            proof {
                assert(buffer@ =~= s.subrange(start as int, start as int));
            }
            while i < n && !(chars[i] == ' ' || chars[i] == '$')
                invariant
                    chars@ == s,
                    n == s.len(),
                    start <= i <= n,
                    start < n,
                    !is_run_end(s[start as int]),
                    buffer@ == s.subrange(start as int, i as int),
                    forall|j: int| start <= j < i ==> !is_run_end(#[trigger] s[j]),
                decreases n - i,
            {
                buffer.push(chars[i]);
                proof {
                    assert(buffer@ =~= s.subrange(start as int, i + 1));
                }
                i = i + 1;
            }
            proof {
                assert(forall|j: int| 0 <= j < i - start ==> !is_run_end(#[trigger] rest[j]));
                assert(i - start == rest.len() || is_run_end(rest[i - start]));
                lemma_run_len_char(rest, i - start);
                assert(buffer@ =~= rest.take(run_len(rest)));
                assert(s.skip(i as int) =~= rest.skip(run_len(rest)));
            }
            let pattern = crate::text::string_from_chars(&buffer);
            tokens.push(PatternTokens::Pattern(pattern));
            proof {
                assert(special_token(rest[0]) is None);
                assert(run_len(rest) >= 1);
                assert(tokens_model(tokens@) =~= toks0.push(
                    TokenModel::Pattern(rest.take(run_len(rest))),
                ));
                assert(spec_lex(s) =~= tokens_model(tokens@) + spec_lex(s.skip(i as int)));
            }
        }
    }
    proof {
        assert(s.skip(i as int).len() == 0);
        assert(spec_lex(s.skip(i as int)) =~= Seq::<TokenModel>::empty());
        assert(tokens_model(tokens@) =~= spec_lex(s));
    }
    Ok(tokens)
}

/// How two sub-patterns combine.
#[derive(Debug, PartialEq)]
pub enum Operation {
    And,
    Or,
}

/// A parsed query pattern.
#[derive(Debug, PartialEq)]
pub enum Pattern {
    Group { op: Operation, left: Box<Pattern>, right: Box<Pattern> },
    Negated(Box<Pattern>),
    Exact(String),
    Prefix(String),
    Suffix(String),
    Fuzzy(String),
    Deref(Box<Pattern>),
}

/// The mathematical shape of a pattern: texts as character sequences.
pub enum PatModel {
    Group { op: Operation, left: Box<PatModel>, right: Box<PatModel> },
    Negated(Box<PatModel>),
    Exact(Seq<char>),
    Prefix(Seq<char>),
    Suffix(Seq<char>),
    Fuzzy(Seq<char>),
    Deref(Box<PatModel>),
}

/// The model of a pattern.
pub open spec fn pat_model(p: Pattern) -> PatModel
    decreases p,
{
    match p {
        Pattern::Group { op, left, right } => PatModel::Group {
            op,
            left: Box::new(pat_model(*left)),
            right: Box::new(pat_model(*right)),
        },
        Pattern::Negated(inner) => PatModel::Negated(Box::new(pat_model(*inner))),
        Pattern::Exact(t) => PatModel::Exact(t@),
        Pattern::Prefix(t) => PatModel::Prefix(t@),
        Pattern::Suffix(t) => PatModel::Suffix(t@),
        Pattern::Fuzzy(t) => PatModel::Fuzzy(t@),
        Pattern::Deref(inner) => PatModel::Deref(Box::new(pat_model(*inner))),
    }
}

/// The larger of two positions.
pub open spec fn pmax(a: int, b: int) -> int {
    if a >= b {
        a
    } else {
        b
    }
}

/// The smaller of two positions.
pub open spec fn pmin(a: int, b: int) -> int {
    if a <= b {
        a
    } else {
        b
    }
}

/// A bare text: one `Pattern` token, or the empty text without consuming.
pub open spec fn sp_text(toks: Seq<TokenModel>, pos: int) -> (Seq<char>, int) {
    if 0 <= pos < toks.len() && toks[pos] is Pattern {
        (toks[pos]->Pattern_0, pos + 1)
    } else {
        (Seq::empty(), pos)
    }
}

/// A decorated pattern: `^text`, `'text`, a tolerant parenthesised group,
/// `text$`, a bare fuzzy text, or the empty fuzzy pattern at the end.
pub open spec fn sp_decorated(toks: Seq<TokenModel>, pos: int) -> (PatModel, int)
    decreases toks.len() - pos, 0int,
{
    if !(0 <= pos < toks.len()) {
        (PatModel::Fuzzy(Seq::empty()), pos)
    } else {
        match toks[pos] {
            TokenModel::Caret => {
                let (t, p) = sp_text(toks, pos + 1);
                (PatModel::Prefix(t), p)
            },
            TokenModel::Quote => {
                let (t, p) = sp_text(toks, pos + 1);
                (PatModel::Exact(t), p)
            },
            TokenModel::LParen => {
                let p1 = pos + 1;
                let p2 = if p1 < toks.len() && toks[p1] is Space {
                    p1 + 1
                } else {
                    p1
                };
                let (m, p3) = sp_and(toks, p2);
                let p4 = if 0 <= p3 < toks.len() && toks[p3] is RParen {
                    p3 + 1
                } else {
                    p3
                };
                (m, p4)
            },
            _ => {
                let (t, p) = sp_text(toks, pos);
                if 0 <= p < toks.len() && toks[p] is Dollar {
                    (PatModel::Suffix(t), p + 1)
                } else {
                    (PatModel::Fuzzy(t), p)
                }
            },
        }
    }
}

/// A dereference: `*` switches the decorated pattern to value mode.
pub open spec fn sp_deref(toks: Seq<TokenModel>, pos: int) -> (PatModel, int)
    decreases toks.len() - pos, 1int,
{
    if 0 <= pos < toks.len() && toks[pos] is Star {
        let (m, p) = sp_decorated(toks, pos + 1);
        (PatModel::Deref(Box::new(m)), p)
    } else {
        sp_decorated(toks, pos)
    }
}

/// A chain of negations.
pub open spec fn sp_negated(toks: Seq<TokenModel>, pos: int) -> (PatModel, int)
    decreases toks.len() - pos, 2int,
{
    if 0 <= pos < toks.len() && toks[pos] is Bang {
        let (m, p) = sp_negated(toks, pos + 1);
        (PatModel::Negated(Box::new(m)), p)
    } else {
        sp_deref(toks, pos)
    }
}

/// The iteration of an OR group: `WS | WS` joins further operands.
pub open spec fn sp_or_loop(toks: Seq<TokenModel>, pos: int, acc: PatModel) -> (PatModel, int)
    decreases toks.len() - pos, 3int,
{
    if 0 <= pos && pos + 3 <= toks.len() && toks[pos] is Space && toks[pos + 1] is Pipe && toks[
        pos + 2
    ] is Space {
        let (right, p2) = sp_negated(toks, pos + 3);
        let node = PatModel::Group { op: Operation::Or, left: Box::new(acc), right: Box::new(right) };
        if pos < p2 <= toks.len() {
            sp_or_loop(toks, p2, node)
        } else {
            (node, p2)
        }
    } else {
        (acc, pos)
    }
}

/// An OR group: negated operands joined by pipes.
pub open spec fn sp_or(toks: Seq<TokenModel>, pos: int) -> (PatModel, int)
    decreases toks.len() - pos, 4int,
{
    let (first, p1) = sp_negated(toks, pos);
    sp_or_loop(toks, pmax(pmin(p1, toks.len() as int), pos), first)
}

/// The iteration of an AND group: a space continues it unless the group
/// closes or the input ends.
pub open spec fn sp_and_loop(toks: Seq<TokenModel>, pos: int, acc: PatModel) -> (PatModel, int)
    decreases toks.len() - pos, 5int,
{
    if 0 <= pos < toks.len() && toks[pos] is Space {
        let q = pos + 1;
        if q >= toks.len() || toks[q] is RParen {
            (acc, q)
        } else {
            let (right, p2) = sp_or(toks, q);
            let node = PatModel::Group {
                op: Operation::And,
                left: Box::new(acc),
                right: Box::new(right),
            };
            if pos < p2 <= toks.len() {
                sp_and_loop(toks, p2, node)
            } else {
                (node, p2)
            }
        }
    } else {
        (acc, pos)
    }
}

/// An AND group: OR groups joined by spaces.
pub open spec fn sp_and(toks: Seq<TokenModel>, pos: int) -> (PatModel, int)
    decreases toks.len() - pos, 6int,
{
    let (first, p1) = sp_or(toks, pos);
    sp_and_loop(toks, pmax(pmin(p1, toks.len() as int), pos), first)
}

/// The whole pattern: a tolerated leading space, then an AND group.
pub open spec fn sp_parse(toks: Seq<TokenModel>) -> (PatModel, int) {
    let p0: int = if 0 < toks.len() && toks[0] is Space {
        1
    } else {
        0
    };
    sp_and(toks, p0)
}

/// A bare text pattern: take one `Pattern` token if it is next.
pub fn parse_pattern(walker: &mut Walker<PatternTokens>) -> (r: String)
    requires
        0 <= old(walker).pos() <= old(walker).items().len(),
    ensures
        final(walker).items() == old(walker).items(),
        old(walker).pos() <= final(walker).pos() <= old(walker).items().len(),
        ({
            let (t, p) = sp_text(tokens_model(old(walker).items()), old(walker).pos());
            r@ == t && final(walker).pos() == p
        }),
{
    let ghost m = tokens_model(old(walker).items());
    let n = walker.buffer_size();
    let is_pat = match walker.peek() {
        Some(PatternTokens::Pattern(_)) => true,
        _ => false,
    };
    if is_pat {
        let r = match walker.peek() {
            Some(PatternTokens::Pattern(pattern)) => pattern.clone(),
            _ => String::new(),
        };
        proof {
            assert(m[walker.pos()] == token_model(walker.items()[walker.pos()]));
        }
        walker.advance();
        r
    } else {
        proof {
            if walker.pos() < walker.items().len() {
                assert(m[walker.pos()] == token_model(walker.items()[walker.pos()]));
            }
        }
        String::new()
    }
}

/// A dereference pattern: `*` then a decorated pattern.
pub fn parse_deref_pattern(walker: &mut Walker<PatternTokens>) -> (r: Pattern)
    requires
        0 <= old(walker).pos() <= old(walker).items().len(),
    ensures
        final(walker).items() == old(walker).items(),
        old(walker).pos() <= final(walker).pos() <= old(walker).items().len(),
        ({
            let (t, p) = sp_deref(tokens_model(old(walker).items()), old(walker).pos());
            pat_model(r) == t && final(walker).pos() == p
        }),
    decreases old(walker).items().len() - old(walker).pos(), 1int,
{
    let ghost m = tokens_model(old(walker).items());
    let n = walker.buffer_size();
    let is_star = match walker.peek() {
        Some(PatternTokens::Star) => true,
        _ => false,
    };
    proof {
        if walker.pos() < walker.items().len() {
            assert(m[walker.pos()] == token_model(walker.items()[walker.pos()]));
        }
    }
    if is_star {
        walker.advance();
        let pattern = parse_decorated_pattern(walker);
        Pattern::Deref(Box::new(pattern))
    } else {
        parse_decorated_pattern(walker)
    }
}

/// A chain of negations in front of a dereference or decorated pattern.
pub fn parse_negated_pattern(walker: &mut Walker<PatternTokens>) -> (r: Pattern)
    requires
        0 <= old(walker).pos() <= old(walker).items().len(),
    ensures
        final(walker).items() == old(walker).items(),
        old(walker).pos() <= final(walker).pos() <= old(walker).items().len(),
        ({
            let (t, p) = sp_negated(tokens_model(old(walker).items()), old(walker).pos());
            pat_model(r) == t && final(walker).pos() == p
        }),
    decreases old(walker).items().len() - old(walker).pos(), 2int,
{
    let ghost m = tokens_model(old(walker).items());
    let n = walker.buffer_size();
    let is_bang = match walker.peek() {
        Some(PatternTokens::Bang) => true,
        _ => false,
    };
    proof {
        if walker.pos() < walker.items().len() {
            assert(m[walker.pos()] == token_model(walker.items()[walker.pos()]));
        }
    }
    if is_bang {
        walker.advance();
        let pattern = parse_negated_pattern(walker);
        Pattern::Negated(Box::new(pattern))
    } else {
        parse_deref_pattern(walker)
    }
}

/// A decorated pattern: a prefix, exact, grouped, suffix or fuzzy leaf.
#[verifier::rlimit(100)]
pub fn parse_decorated_pattern(walker: &mut Walker<PatternTokens>) -> (r: Pattern)
    requires
        0 <= old(walker).pos() <= old(walker).items().len(),
    ensures
        final(walker).items() == old(walker).items(),
        old(walker).pos() <= final(walker).pos() <= old(walker).items().len(),
        ({
            let (t, p) = sp_decorated(tokens_model(old(walker).items()), old(walker).pos());
            pat_model(r) == t && final(walker).pos() == p
        }),
    decreases old(walker).items().len() - old(walker).pos(), 0int,
{
    let ghost m = tokens_model(old(walker).items());
    let n = walker.buffer_size();
    let kind: u8 = match walker.peek() {
        Some(PatternTokens::Caret) => 1,
        Some(PatternTokens::Quote) => 2,
        Some(PatternTokens::LParen) => 3,
        Some(_) => 4,
        None => 5,
    };
    proof {
        if walker.pos() < walker.items().len() {
            assert(m[walker.pos()] == token_model(walker.items()[walker.pos()]));
        }
    }
    if kind == 1 {
        walker.advance();
        let pattern = parse_pattern(walker);
        Pattern::Prefix(pattern)
    } else if kind == 2 {
        walker.advance();
        let pattern = parse_pattern(walker);
        Pattern::Exact(pattern)
    } else if kind == 3 {
        walker.advance();
        // optional spaces
        let space = vec![PatternTokens::Space];
        let matched_space = walker.match_tokens(space.as_slice());
        proof {
            let p1 = old(walker).pos() + 1;
            assert(space@[0] == PatternTokens::Space);
            if p1 < m.len() && m[p1] is Space {
                assert(m[p1] == token_model(walker.items()[p1]));
                assert(matched_space);
            }
            if matched_space {
                assert(m[p1] == token_model(walker.items()[p1]));
            }
        }
        let pattern = parse_and_group(walker);
        let rparen = vec![PatternTokens::RParen];
        let ghost p3 = walker.pos();
        let matched_rparen = walker.match_tokens(rparen.as_slice());
        proof {
            assert(rparen@[0] == PatternTokens::RParen);
            if p3 < m.len() && m[p3] is RParen {
                assert(m[p3] == token_model(walker.items()[p3]));
                assert(matched_rparen);
            }
            if matched_rparen {
                assert(m[p3] == token_model(walker.items()[p3]));
            }
        }
        pattern
    } else if kind == 4 {
        let pattern = parse_pattern(walker);
        let is_dollar = match walker.peek() {
            Some(PatternTokens::Dollar) => true,
            _ => false,
        };
        proof {
            if walker.pos() < walker.items().len() {
                assert(m[walker.pos()] == token_model(walker.items()[walker.pos()]));
            }
        }
        if is_dollar {
            walker.advance();
            Pattern::Suffix(pattern)
        } else {
            Pattern::Fuzzy(pattern)
        }
    } else {
        Pattern::Fuzzy(String::new())
    }
}

/// The continuation of an OR group after its first operand.
fn parse_or_rest(walker: &mut Walker<PatternTokens>, expr: Pattern) -> (r: Pattern)
    requires
        0 <= old(walker).pos() <= old(walker).items().len(),
    ensures
        final(walker).items() == old(walker).items(),
        old(walker).pos() <= final(walker).pos() <= old(walker).items().len(),
        ({
            let (t, p) = sp_or_loop(
                tokens_model(old(walker).items()),
                old(walker).pos(),
                pat_model(expr),
            );
            pat_model(r) == t && final(walker).pos() == p
        }),
    decreases old(walker).items().len() - old(walker).pos(), 3int,
{
    let ghost m = tokens_model(old(walker).items());
    let ghost items0 = old(walker).items();
    let ghost p = old(walker).pos();
    let sep = vec![PatternTokens::Space, PatternTokens::Pipe, PatternTokens::Space];
    let matched = walker.match_tokens(sep.as_slice());
    proof {
        assert(sep@[0] == PatternTokens::Space);
        assert(sep@[1] == PatternTokens::Pipe);
        assert(sep@[2] == PatternTokens::Space);
        let sep3 = p + 3 <= m.len() && m[p] is Space && m[p + 1] is Pipe && m[p + 2] is Space;
        if sep3 {
            assert(m[p] == token_model(items0[p]));
            assert(m[p + 1] == token_model(items0[p + 1]));
            assert(m[p + 2] == token_model(items0[p + 2]));
            assert(matched);
        }
        if matched {
            assert(m[p] == token_model(items0[p]));
            assert(m[p + 1] == token_model(items0[p + 1]));
            assert(m[p + 2] == token_model(items0[p + 2]));
            assert(sep3);
        }
    }
    if !matched {
        return expr;
    }
    let right = parse_negated_pattern(walker);
    let ghost old_expr = pat_model(expr);
    let node = Pattern::Group { op: Operation::Or, left: Box::new(expr), right: Box::new(right) };
    proof {
        assert(pat_model(node) == (PatModel::Group {
            op: Operation::Or,
            left: Box::new(old_expr),
            right: Box::new(pat_model(right)),
        }));
    }
    parse_or_rest(walker, node)
}

/// An OR group: negated operands joined by ` | `.
pub fn parse_or_group(walker: &mut Walker<PatternTokens>) -> (r: Pattern)
    requires
        0 <= old(walker).pos() <= old(walker).items().len(),
    ensures
        final(walker).items() == old(walker).items(),
        old(walker).pos() <= final(walker).pos() <= old(walker).items().len(),
        ({
            let (t, p) = sp_or(tokens_model(old(walker).items()), old(walker).pos());
            pat_model(r) == t && final(walker).pos() == p
        }),
    decreases old(walker).items().len() - old(walker).pos(), 4int,
{
    let ghost m = tokens_model(old(walker).items());
    let ghost pos0 = old(walker).pos();
    let expr = parse_negated_pattern(walker);
    proof {
        assert(pmax(pmin(sp_negated(m, pos0).1, m.len() as int), pos0) == walker.pos());
    }
    parse_or_rest(walker, expr)
}

/// The continuation of an AND group after its first operand.
fn parse_and_rest(walker: &mut Walker<PatternTokens>, expr: Pattern) -> (r: Pattern)
    requires
        0 <= old(walker).pos() <= old(walker).items().len(),
    ensures
        final(walker).items() == old(walker).items(),
        old(walker).pos() <= final(walker).pos() <= old(walker).items().len(),
        ({
            let (t, p) = sp_and_loop(
                tokens_model(old(walker).items()),
                old(walker).pos(),
                pat_model(expr),
            );
            pat_model(r) == t && final(walker).pos() == p
        }),
    decreases old(walker).items().len() - old(walker).pos(), 5int,
{
    let ghost m = tokens_model(old(walker).items());
    let ghost items0 = old(walker).items();
    let ghost p = old(walker).pos();
    let n = walker.buffer_size();
    let is_space = match walker.peek() {
        Some(PatternTokens::Space) => true,
        _ => false,
    };
    proof {
        if p < items0.len() {
            assert(m[p] == token_model(items0[p]));
        }
    }
    if !is_space {
        return expr;
    }
    walker.advance();
    let stop = match walker.peek() {
        Some(PatternTokens::RParen) => true,
        None => true,
        _ => false,
    };
    proof {
        if walker.pos() < items0.len() {
            assert(m[walker.pos()] == token_model(items0[walker.pos()]));
        }
    }
    if stop {
        return expr;
    }
    let right = parse_or_group(walker);
    let ghost old_expr = pat_model(expr);
    let node = Pattern::Group { op: Operation::And, left: Box::new(expr), right: Box::new(right) };
    proof {
        assert(pat_model(node) == (PatModel::Group {
            op: Operation::And,
            left: Box::new(old_expr),
            right: Box::new(pat_model(right)),
        }));
    }
    parse_and_rest(walker, node)
}

/// An AND group: OR groups joined by spaces.
pub fn parse_and_group(walker: &mut Walker<PatternTokens>) -> (r: Pattern)
    requires
        0 <= old(walker).pos() <= old(walker).items().len(),
    ensures
        final(walker).items() == old(walker).items(),
        old(walker).pos() <= final(walker).pos() <= old(walker).items().len(),
        ({
            let (t, p) = sp_and(tokens_model(old(walker).items()), old(walker).pos());
            pat_model(r) == t && final(walker).pos() == p
        }),
    decreases old(walker).items().len() - old(walker).pos(), 6int,
{
    let ghost m = tokens_model(old(walker).items());
    let ghost pos0 = old(walker).pos();
    let expr = parse_or_group(walker);
    proof {
        assert(pmax(pmin(sp_or(m, pos0).1, m.len() as int), pos0) == walker.pos());
    }
    parse_and_rest(walker, expr)
}

/// Parse a whole token stream into a pattern.
pub fn parse(input: &[PatternTokens]) -> (r: Pattern)
    ensures
        pat_model(r) == sp_parse(tokens_model(input@)).0,
{
    let ghost m = tokens_model(input@);
    let mut walker = Walker::new(input);
    let n = walker.buffer_size();
    let space = vec![PatternTokens::Space];
    let ghost before = walker.pos();
    let matched = walker.match_tokens(space.as_slice());
    proof {
        assert(space@[0] == PatternTokens::Space);
        if 0 < m.len() && m[0] is Space {
            assert(m[0] == token_model(input@[0]));
            assert(matched);
        }
        if matched {
            assert(m[0] == token_model(input@[0]));
        }
    }
    parse_and_group(&mut walker)
}

/// Parse a whole query string; its pattern is what the grammar gives the
/// lexed tokens.
pub fn parse_query(s: &str) -> (r: Result<Pattern, MalformedQuery>)
    ensures
        r matches Ok(p) && pat_model(p) == sp_parse(spec_lex(s@)).0,
{
    let tokens = lexer(s)?;
    Ok(parse(tokens.as_slice()))
}

impl core::str::FromStr for Pattern {
    type Err = MalformedQuery;

    fn from_str(s: &str) -> Result<Self, Self::Err> {
        parse_query(s)
    }
}

} // verus!
