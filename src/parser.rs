use vstd::prelude::*;

use crate::lexer::{
    digits_value, int_prefix, is_space, lemma_digit_run, lemma_int_prefix_append,
    lemma_lex_blank, lemma_lex_step, lex, lex_token, lexer, tokens_view, LexError, Token, TokenView,
};

verus! {

broadcast use vstd::std_specs::vec::group_vec_axioms;

/// A node of the expression tree.
#[derive(PartialEq, Debug)]
pub enum Expr {
    Integer(i64),
    Symbol(String),
    List(Vec<Expr>),
}

/// What an expression stands for.
pub enum ExprView {
    Integer(int),
    Symbol(Seq<char>),
    List(Seq<ExprView>),
}

pub open spec fn expr_view(e: Expr) -> ExprView
    decreases e,
{
    match e {
        Expr::Integer(n) => ExprView::Integer(n as int),
        Expr::Symbol(s) => ExprView::Symbol(s@),
        Expr::List(v) => ExprView::List(exprs_view(v@)),
    }
}

pub open spec fn exprs_view(es: Seq<Expr>) -> Seq<ExprView>
    decreases es,
{
    if es.len() == 0 {
        Seq::empty()
    } else {
        exprs_view(es.drop_last()).push(expr_view(es.last()))
    }
}

impl Clone for Expr {
    fn clone(&self) -> (r: Self)
        decreases self,
    {
        match self {
            Expr::Integer(n) => Expr::Integer(*n),
            Expr::Symbol(s) => Expr::Symbol(s.clone()),
            Expr::List(v) => {
                let mut out: Vec<Expr> = Vec::new();
                let mut i: usize = 0;
                while i < v.len()
                    invariant
                        i <= v@.len(),
                        *self == Expr::List(*v),
                    decreases v@.len() - i,
                {
                    proof {
                        let ghost e = *self;
                        assert(decreases_to!(e => e->List_0));
                        assert(decreases_to!(e->List_0 => e->List_0@));
                        assert(decreases_to!(e->List_0@ => e->List_0@[i as int]));
                    }
                    out.push(v[i].clone());
                    i += 1;
                }
                Expr::List(out)
            },
        }
    }
}

impl View for Expr {
    type V = ExprView;

    open spec fn view(&self) -> ExprView {
        expr_view(*self)
    }
}

/// A read-only view of a stretch of a token sequence: the tokens from `start`
/// up to `end`. Cursors are cheap to copy, so a grammar alternative that fails
/// leaves the caller's cursor as it was.
#[derive(Clone, Copy, Debug)]
pub struct Tokens<'a> {
    tokens: &'a [Token],
    start: usize,
    end: usize,
}

impl<'a> View for Tokens<'a> {
    type V = Seq<TokenView>;

    closed spec fn view(&self) -> Seq<TokenView> {
        tokens_view(self.tokens@.subrange(self.start as int, self.end as int))
    }
}

/// Two cursors are equal when they show the same tokens, wherever those stand
/// in the sequences the cursors were made over.
impl<'a> PartialEq for Tokens<'a> {
    fn eq(&self, other: &Tokens<'a>) -> (r: bool) {
        if !(self.start <= self.end && self.end <= self.tokens.len() && other.start <= other.end
            && other.end <= other.tokens.len()) {
            return false;
        }
        let n = self.end - self.start;
        if n != other.end - other.start {
            assert(self@.len() != other@.len());
            return false;
        }
        let mut i: usize = 0;
        while i < n
            invariant
                self.wf(),
                other.wf(),
                n == self@.len(),
                n == other@.len(),
                i <= n,
                forall|j: int| 0 <= j < i ==> self@[j] == other@[j],
            decreases n - i,
        {
            if !(self.token(i) == other.token(i)) {
                return false;
            }
            i += 1;
        }
        proof {
            assert(self@ =~= other@);
        }
        true
    }
}

impl<'a> vstd::std_specs::cmp::PartialEqSpecImpl for Tokens<'a> {
    open spec fn obeys_eq_spec() -> bool {
        true
    }

    open spec fn eq_spec(&self, other: &Tokens<'a>) -> bool {
        self.wf() && other.wf() && self@ == other@
    }
}

impl<'a> Tokens<'a> {
    pub closed spec fn wf(&self) -> bool {
        self.start <= self.end <= self.tokens@.len()
    }

    /// The whole sequence the cursor was made over.
    pub closed spec fn source(&self) -> Seq<Token> {
        self.tokens@
    }

    /// Where the view starts within the sequence it was made over.
    pub closed spec fn offset(&self) -> int {
        self.start as int
    }

    /// A cursor over the whole of `tokens`.
    pub fn new(tokens: &'a [Token]) -> (r: Self)
        ensures
            r.wf(),
            r@ == tokens_view(tokens@),
            r.source() == tokens@,
            r.offset() == 0,
    {
        proof {
            assert(tokens@.subrange(0, tokens@.len() as int) =~= tokens@);
        }
        Tokens { tokens, start: 0, end: tokens.len() }
    }

    /// The number of tokens in view.
    pub fn input_len(&self) -> (r: usize)
        requires
            self.wf(),
        ensures
            r == self@.len(),
    {
        self.end - self.start
    }

    /// The token at index `i` of the view.
    pub fn token(&self, i: usize) -> (r: &'a Token)
        requires
            self.wf(),
            i < self@.len(),
        ensures
            r@ == self@[i as int],
            *r == self.at(i as int),
    {
        &self.tokens[self.start + i]
    }

    /// The token at index `i` of the view, as a value.
    pub closed spec fn at(&self, i: int) -> Token {
        self.tokens@[self.start + i]
    }

    /// `count` itself when the view holds that many tokens.
    pub fn slice_index(&self, count: usize) -> (r: Option<usize>)
        requires
            self.wf(),
        ensures
            r == (if count <= self@.len() {
                Some(count)
            } else {
                None
            }),
    {
        if count <= self.end - self.start {
            Some(count)
        } else {
            None
        }
    }

    /// The index of the first token in view that `predicate` holds of.
    pub fn position<P: Fn(&Token) -> bool>(&self, predicate: P) -> (r: Option<usize>)
        requires
            self.wf(),
            forall|t: &Token| predicate.requires((t,)),
        ensures
            match r {
                Some(i) => {
                    &&& i < self@.len()
                    &&& predicate.ensures((&self.at(i as int),), true)
                    &&& forall|j: int| 0 <= j < i ==> predicate.ensures((&self.at(j),), false)
                },
                None => forall|j: int|
                    0 <= j < self@.len() ==> predicate.ensures((&self.at(j),), false),
            },
    {
        let len = self.end - self.start;
        let mut i: usize = 0;
        while i < len
            invariant
                self.wf(),
                len == self@.len(),
                i <= len,
                forall|t: &Token| predicate.requires((t,)),
                forall|j: int| 0 <= j < i ==> predicate.ensures((&self.at(j),), false),
            decreases len - i,
        {
            let t = &self.tokens[self.start + i];
            if predicate(t) {
                return Some(i);
            }
            i += 1;
        }
        None
    }

    /// The first `count` tokens.
    pub fn take(&self, count: usize) -> (r: Self)
        requires
            self.wf(),
            count <= self@.len(),
        ensures
            r.wf(),
            r@ == self@.take(count as int),
            r.source() == self.source(),
            r.offset() == self.offset(),
    {
        self.slice(0..count)
    }

    /// The view split after `count` tokens: what follows, then what was taken.
    pub fn take_split(&self, count: usize) -> (r: (Self, Self))
        requires
            self.wf(),
            count <= self@.len(),
        ensures
            r.0.wf(),
            r.1.wf(),
            r.0@ == self@.skip(count as int),
            r.1@ == self@.take(count as int),
            r.0.source() == self.source(),
            r.1.source() == self.source(),
            r.0.offset() == self.offset() + count,
            r.1.offset() == self.offset(),
    {
        let len = self.end - self.start;
        (self.slice(count..len), self.slice(0..count))
    }

    /// The tokens from index `range.start` up to `range.end` of the view.
    pub fn slice(&self, range: core::ops::Range<usize>) -> (r: Self)
        requires
            self.wf(),
            range.start <= range.end <= self@.len(),
        ensures
            r.wf(),
            r@ == self@.subrange(range.start as int, range.end as int),
            r.source() == self.source(),
            r.offset() == self.offset() + range.start,
    {
        let r = Tokens { tokens: self.tokens, start: self.start + range.start, end: self.start + range.end };
        proof {
            let all = self.tokens@;
            assert(all.subrange(r.start as int, r.end as int) =~= all.subrange(
                self.start as int,
                self.end as int,
            ).subrange(range.start as int, range.end as int));
            assert(r@ =~= self@.subrange(range.start as int, range.end as int));
        }
        r
    }
}

/// A failed parse: `position` is the index, in the token sequence, of the
/// token at which no rule of the grammar applies, or the length of the
/// sequence when it ended too early.
#[derive(Clone, Copy, PartialEq, Eq, Debug)]
pub struct CustomParserError {
    pub position: usize,
}

/// The outcome of a parse over a sequence of tokens: what was recognised and
/// the tokens that follow it, or the number of tokens left where it failed.
pub type Parsed<T> = Result<(T, Seq<TokenView>), nat>;

pub open spec fn parse_integer_spec(ts: Seq<TokenView>) -> Parsed<ExprView> {
    if ts.len() > 0 && ts[0] is Integer {
        Ok((ExprView::Integer(ts[0]->Integer_0), ts.drop_first()))
    } else {
        Err(ts.len())
    }
}

pub open spec fn parse_symbol_spec(ts: Seq<TokenView>) -> Parsed<ExprView> {
    if ts.len() > 0 && ts[0] is Symbol {
        Ok((ExprView::Symbol(ts[0]->Symbol_0), ts.drop_first()))
    } else {
        Err(ts.len())
    }
}

/// `expr := integer | symbol | list`, tried in that order.
pub open spec fn parse_expr_spec(ts: Seq<TokenView>) -> Parsed<ExprView>
    decreases ts.len(), 1int,
{
    if parse_integer_spec(ts) is Ok {
        parse_integer_spec(ts)
    } else if parse_symbol_spec(ts) is Ok {
        parse_symbol_spec(ts)
    } else {
        parse_list_spec(ts)
    }
}

/// `list := "(" expr* ")"`.
pub open spec fn parse_list_spec(ts: Seq<TokenView>) -> Parsed<ExprView>
    decreases ts.len(), 0int,
{
    if ts.len() > 0 && ts[0] is LParan {
        match parse_items_spec(ts.drop_first()) {
            Ok((es, rest)) => Ok((ExprView::List(es), rest)),
            Err(k) => Err(k),
        }
    } else {
        Err(ts.len())
    }
}

/// `expr* ")"`: the expressions up to the closing parenthesis, which is
/// consumed too.
pub open spec fn parse_items_spec(ts: Seq<TokenView>) -> Parsed<Seq<ExprView>>
    decreases ts.len(), 2int,
{
    if ts.len() == 0 {
        Err(0)
    } else if ts[0] is RParan {
        Ok((Seq::empty(), ts.drop_first()))
    } else {
        match parse_expr_spec(ts) {
            Err(k) => Err(k),
            // An expression takes at least one token; the bound only makes
            // the recursion visibly well-founded.
            Ok((e, rest)) => if rest.len() < ts.len() {
                prepend_items(seq![e], parse_items_spec(rest))
            } else {
                Err(ts.len())
            },
        }
    }
}

/// `r` with `pre` put before the expressions it recognised.
pub open spec fn prepend_items(pre: Seq<ExprView>, r: Parsed<Seq<ExprView>>) -> Parsed<Seq<ExprView>> {
    match r {
        Ok((es, rest)) => Ok((pre + es, rest)),
        Err(k) => Err(k),
    }
}

/// The exec result `r` of parsing from `input` is the outcome `p`: the same
/// value and a cursor over the tokens that follow, or an error at the same
/// place.
pub open spec fn parse_result_is<'a>(
    input: Tokens<'a>,
    r: Result<(Tokens<'a>, Expr), CustomParserError>,
    p: Parsed<ExprView>,
) -> bool {
    match p {
        Ok((e, rest)) => {
            &&& r is Ok
            &&& r->Ok_0.1@ == e
            &&& r->Ok_0.0.wf()
            &&& r->Ok_0.0@ == rest
            &&& r->Ok_0.0.offset() == input.offset() + input@.len() - rest.len()
        },
        Err(k) => r is Err && r->Err_0.position == input.offset() + input@.len() - k,
    }
}

/// The exec result `r` of taking one token of the kind that `kind_ok` tells
/// from `input`: the rest and the token, or an error at the first token.
pub open spec fn tag_result_is<'a>(
    input: Tokens<'a>,
    r: Result<(Tokens<'a>, Tokens<'a>), CustomParserError>,
    kind_ok: bool,
) -> bool {
    if input@.len() > 0 && kind_ok {
        &&& r is Ok
        &&& r->Ok_0.0.wf()
        &&& r->Ok_0.1.wf()
        &&& r->Ok_0.0@ == input@.skip(1)
        &&& r->Ok_0.1@ == input@.take(1)
        &&& r->Ok_0.0.source() == input.source()
        &&& r->Ok_0.1.source() == input.source()
        &&& r->Ok_0.0.offset() == input.offset() + 1
        &&& r->Ok_0.1.offset() == input.offset()
    } else {
        r is Err && r->Err_0.position == input.offset()
    }
}

/// Takes a left parenthesis.
pub fn tag_lparan<'a>(input: Tokens<'a>) -> (r: Result<(Tokens<'a>, Tokens<'a>), CustomParserError>)
    requires
        input.wf(),
    ensures
        tag_result_is(input, r, input@.len() > 0 && input@[0] is LParan),
{
    if input.input_len() > 0 {
        let t = input.token(0);
        if let Token::LParan = t {
            return Ok(input.take_split(1));
        }
        assert(!(t@ is LParan));
    }
    Err(CustomParserError { position: input.start })
}

/// Takes a right parenthesis.
pub fn tag_rparan<'a>(input: Tokens<'a>) -> (r: Result<(Tokens<'a>, Tokens<'a>), CustomParserError>)
    requires
        input.wf(),
    ensures
        tag_result_is(input, r, input@.len() > 0 && input@[0] is RParan),
{
    if input.input_len() > 0 {
        let t = input.token(0);
        if let Token::RParan = t {
            return Ok(input.take_split(1));
        }
        assert(!(t@ is RParan));
    }
    Err(CustomParserError { position: input.start })
}

/// Takes an integer token.
pub fn tag_integer<'a>(input: Tokens<'a>) -> (r: Result<(Tokens<'a>, Tokens<'a>), CustomParserError>)
    requires
        input.wf(),
    ensures
        tag_result_is(input, r, input@.len() > 0 && input@[0] is Integer),
{
    if input.input_len() > 0 {
        let t = input.token(0);
        if let Token::Integer(_) = t {
            return Ok(input.take_split(1));
        }
        assert(!(t@ is Integer));
    }
    Err(CustomParserError { position: input.start })
}

/// Takes a symbol token.
pub fn tag_symbol<'a>(input: Tokens<'a>) -> (r: Result<(Tokens<'a>, Tokens<'a>), CustomParserError>)
    requires
        input.wf(),
    ensures
        tag_result_is(input, r, input@.len() > 0 && input@[0] is Symbol),
{
    if input.input_len() > 0 {
        let t = input.token(0);
        if let Token::Symbol(_) = t {
            return Ok(input.take_split(1));
        }
        assert(!(t@ is Symbol));
    }
    Err(CustomParserError { position: input.start })
}

/// Recognises one integer token.
pub fn parse_integer<'a>(input: Tokens<'a>) -> (r: Result<(Tokens<'a>, Expr), CustomParserError>)
    requires
        input.wf(),
    ensures
        parse_result_is(input, r, parse_integer_spec(input@)),
{
    if input.input_len() > 0 {
        let t = input.token(0);
        match t {
            Token::Integer(n) => {
                let (rest, _) = input.take_split(1);
                return Ok((rest, Expr::Integer(*n)));
            },
            _ => {
                assert(!(t@ is Integer));
            },
        }
    }
    Err(CustomParserError { position: input.start })
}

/// Recognises one symbol token.
pub fn parse_symbol<'a>(input: Tokens<'a>) -> (r: Result<(Tokens<'a>, Expr), CustomParserError>)
    requires
        input.wf(),
    ensures
        parse_result_is(input, r, parse_symbol_spec(input@)),
{
    if input.input_len() > 0 {
        let t = input.token(0);
        match t {
            Token::Symbol(s) => {
                let (rest, _) = input.take_split(1);
                return Ok((rest, Expr::Symbol(s.clone())));
            },
            _ => {
                assert(!(t@ is Symbol));
            },
        }
    }
    Err(CustomParserError { position: input.start })
}

/// Recognises one expression: an integer, a symbol or a list, tried in that
/// order.
pub fn parse_expr<'a>(input: Tokens<'a>) -> (r: Result<(Tokens<'a>, Expr), CustomParserError>)
    requires
        input.wf(),
    ensures
        parse_result_is(input, r, parse_expr_spec(input@)),
        r is Ok ==> r->Ok_0.0@.len() < input@.len(),
    decreases input@.len(), 1int,
{
    if let Ok(found) = parse_integer(input) {
        return Ok(found);
    }
    if let Ok(found) = parse_symbol(input) {
        return Ok(found);
    }
    parse_list(input)
}

/// Recognises a parenthesised list of expressions, the parentheses included.
pub fn parse_list<'a>(input: Tokens<'a>) -> (r: Result<(Tokens<'a>, Expr), CustomParserError>)
    requires
        input.wf(),
    ensures
        parse_result_is(input, r, parse_list_spec(input@)),
        r is Ok ==> r->Ok_0.0@.len() < input@.len(),
    decreases input@.len(), 0int,
{
    let (mut cur, _) = match tag_lparan(input) {
        Ok(split) => split,
        Err(e) => {
            return Err(e);
        },
    };
    let mut items: Vec<Expr> = Vec::new();
    let ghost whole = input@;
    proof {
        assert(cur@ =~= whole.drop_first());
        assert(parse_list_spec(whole) == match parse_items_spec(whole.drop_first()) {
            Ok((es, rest)) => Ok((ExprView::List(es), rest)),
            Err(k) => Err(k),
        });
        assert(exprs_view(items@) =~= Seq::<ExprView>::empty());
        match parse_items_spec(cur@) {
            Ok((es, rest)) => assert(Seq::<ExprView>::empty() + es =~= es),
            Err(_) => {},
        }
    }
    loop
        invariant
            input.wf(),
            whole == input@,
            parse_list_spec(whole) == match parse_items_spec(whole.drop_first()) {
                Ok((es, rest)) => Ok((ExprView::List(es), rest)),
                Err(k) => Err(k),
            },
            cur.wf(),
            cur@.len() < input@.len(),
            cur.offset() + cur@.len() == input.offset() + input@.len(),
            parse_items_spec(input@.drop_first()) == prepend_items(
                exprs_view(items@),
                parse_items_spec(cur@),
            ),
        decreases cur@.len(),
    {
        if cur.input_len() == 0 {
            return Err(CustomParserError { position: cur.start });
        }
        if let Ok((rest, _)) = tag_rparan(cur) {
            proof {
                assert(exprs_view(items@) + Seq::<ExprView>::empty() =~= exprs_view(items@));
            }
            return Ok((rest, Expr::List(items)));
        }
        match parse_expr(cur) {
            Err(e) => {
                return Err(e);
            },
            Ok((rest, e)) => {
                proof {
                    let before = exprs_view(items@);
                    assert(items@.push(e).drop_last() =~= items@);
                    assert(exprs_view(items@.push(e)) == before.push(e@));
                    match parse_items_spec(rest@) {
                        Ok((es, after)) => {
                            assert(before + (seq![e@] + es) =~= before.push(e@) + es);
                        },
                        Err(_) => {},
                    }
                }
                items.push(e);
                cur = rest;
            },
        }
    }
}

/// Why a text could not be read: it does not split into tokens, or its tokens
/// do not start with an expression.
#[derive(Clone, Copy, PartialEq, Eq, Debug)]
pub enum ReadError {
    Lex(LexError),
    Parse(CustomParserError),
}

/// What reading `s` gives: the first expression of its tokens, or the error of
/// the stage that failed. Tokens after the first expression are not looked at.
pub open spec fn read_result_is(s: Seq<char>, r: Result<Expr, ReadError>) -> bool {
    match lex(s) {
        Err(p) => r == Err::<Expr, ReadError>(ReadError::Lex(LexError { position: p as usize })),
        Ok(ts) => match parse_expr_spec(ts) {
            Ok((e, _)) => r is Ok && r->Ok_0@ == e,
            Err(k) => r == Err::<Expr, ReadError>(
                ReadError::Parse(CustomParserError { position: (ts.len() - k) as usize }),
            ),
        },
    }
}

/// Reads one expression from `input`: tokenizes the whole text, then parses
/// the first expression of the tokens.
pub fn read(input: &str) -> (r: Result<Expr, ReadError>)
    ensures
        read_result_is(input@, r),
{
    let tokens = match lexer(input) {
        Ok(tokens) => tokens,
        Err(e) => {
            return Err(ReadError::Lex(e));
        },
    };
    let cursor = Tokens::new(tokens.as_slice());
    match parse_expr(cursor) {
        Ok((_, e)) => Ok(e),
        Err(e) => Err(ReadError::Parse(e)),
    }
}

/// How many tokens it takes to close `open` parentheses that are already
/// open, or nothing when the tokens end first.
pub open spec fn balance_end(ts: Seq<TokenView>, open: nat) -> Option<int>
    decreases ts.len(),
{
    if open == 0 {
        Some(0)
    } else if ts.len() == 0 {
        None
    } else {
        let still_open: nat = match ts[0] {
            TokenView::LParan => open + 1,
            TokenView::RParan => (open - 1) as nat,
            _ => open,
        };
        match balance_end(ts.drop_first(), still_open) {
            Some(k) => Some(k + 1),
            None => None,
        }
    }
}

proof fn lemma_balance_end_bounds(ts: Seq<TokenView>, open: nat)
    ensures
        balance_end(ts, open) is Some ==> open <= balance_end(ts, open)->Some_0 <= ts.len(),
    decreases ts.len(),
{
    if open > 0 && ts.len() > 0 {
        let still_open: nat = match ts[0] {
            TokenView::LParan => open + 1,
            TokenView::RParan => (open - 1) as nat,
            _ => open,
        };
        lemma_balance_end_bounds(ts.drop_first(), still_open);
    }
}

/// Closing `a + b` parentheses is closing `a` of them, then `b` more.
proof fn lemma_balance_split(ts: Seq<TokenView>, a: nat, b: nat)
    ensures
        balance_end(ts, a + b) == match balance_end(ts, a) {
            Some(k1) => match balance_end(ts.skip(k1), b) {
                Some(k2) => Some(k1 + k2),
                None => None,
            },
            None => None::<int>,
        },
    decreases ts.len(),
{
    lemma_balance_end_bounds(ts, a);
    if a == 0 {
        assert(ts.skip(0) =~= ts);
    } else if ts.len() > 0 {
        let tail = ts.drop_first();
        let a2: nat = match ts[0] {
            TokenView::LParan => a + 1,
            TokenView::RParan => (a - 1) as nat,
            _ => a,
        };
        lemma_balance_split(tail, a2, b);
        lemma_balance_end_bounds(tail, a2);
        match balance_end(tail, a2) {
            Some(k1) => {
                assert(ts.skip(k1 + 1) =~= tail.skip(k1));
            },
            None => {},
        }
    }
}

/// The items of a list, with its closing parenthesis, parse exactly when that
/// parenthesis is there, and parsing stops just after it.
proof fn lemma_items_balance(ts: Seq<TokenView>)
    ensures
        match parse_items_spec(ts) {
            Ok((_, rest)) => balance_end(ts, 1) is Some && rest == ts.skip(
                balance_end(ts, 1)->Some_0,
            ),
            Err(_) => balance_end(ts, 1) is None,
        },
    decreases ts.len(),
{
    if ts.len() > 0 {
        let tail = ts.drop_first();
        lemma_balance_end_bounds(tail, 1);
        match ts[0] {
            TokenView::RParan => {
                assert(ts.skip(1) =~= tail);
                assert(balance_end(tail, 0) == Some(0int));
                assert(balance_end(ts, 1) == Some(1int));
                assert(parse_items_spec(ts) is Ok);
                assert(parse_items_spec(ts)->Ok_0.1 == tail);
            },
            TokenView::LParan => {
                lemma_items_balance(tail);
                lemma_balance_split(tail, 1, 1);
                match balance_end(tail, 1) {
                    Some(k1) => {
                        let r1 = tail.skip(k1);
                        assert(parse_expr_spec(ts) == parse_list_spec(ts));
                        let es1 = parse_items_spec(tail)->Ok_0.0;
                        assert(parse_expr_spec(ts) == Ok::<(ExprView, Seq<TokenView>), nat>(
                            (ExprView::List(es1), r1),
                        ));
                        assert(r1.len() < ts.len());
                        assert(parse_items_spec(ts) == prepend_items(
                            seq![ExprView::List(es1)],
                            parse_items_spec(r1),
                        ));
                        lemma_items_balance(r1);
                        lemma_balance_end_bounds(r1, 1);
                        assert(balance_end(ts, 1) == match balance_end(tail, 2) {
                            Some(k) => Some(k + 1),
                            None => None::<int>,
                        });
                        match parse_items_spec(r1) {
                            Ok((es, r2)) => {
                                let k2 = balance_end(r1, 1)->Some_0;
                                assert(ts.skip(1 + k1 + k2) =~= r1.skip(k2));
                                assert(balance_end(ts, 1) == Some(1 + k1 + k2));
                            },
                            Err(_) => {
                                assert(balance_end(ts, 1) is None);
                            },
                        }
                    },
                    None => {
                        assert(balance_end(ts, 1) is None);
                        assert(parse_items_spec(ts) is Err);
                    },
                }
            },
            _ => {
                lemma_items_balance(tail);
                lemma_balance_end_bounds(tail, 1);
                assert(parse_expr_spec(ts) is Ok);
                assert(parse_expr_spec(ts)->Ok_0.1 == tail);
                assert(parse_items_spec(ts) == prepend_items(
                    seq![parse_expr_spec(ts)->Ok_0.0],
                    parse_items_spec(tail),
                ));
                assert(balance_end(ts, 1) == match balance_end(tail, 1) {
                    Some(k) => Some(k + 1),
                    None => None::<int>,
                });
                match balance_end(tail, 1) {
                    Some(k) => {
                        assert(ts.skip(k + 1) =~= tail.skip(k));
                    },
                    None => {},
                }
            },
        }
    } else {
        assert(parse_items_spec(ts) is Err);
        assert(balance_end(ts, 1) is None);
    }
}

/// Parsing tokens as a list succeeds exactly when they start with a left
/// parenthesis that a later right parenthesis balances; the list then ends at
/// that parenthesis.
pub proof fn lemma_parse_list_iff_balanced(ts: Seq<TokenView>)
    ensures
        parse_list_spec(ts) is Ok <==> (ts.len() > 0 && ts[0] is LParan && balance_end(
            ts.drop_first(),
            1,
        ) is Some),
        parse_list_spec(ts) is Ok ==> parse_list_spec(ts)->Ok_0.1 == ts.skip(
            1 + balance_end(ts.drop_first(), 1)->Some_0,
        ),
{
    if ts.len() > 0 && ts[0] is LParan {
        let tail = ts.drop_first();
        lemma_items_balance(tail);
        lemma_balance_end_bounds(tail, 1);
        match balance_end(tail, 1) {
            Some(k) => {
                assert(ts.skip(1 + k) =~= tail.skip(k));
            },
            None => {},
        }
    }
}

pub open spec fn all_space(w: Seq<char>) -> bool {
    forall|i: int| 0 <= i < w.len() ==> is_space(#[trigger] w[i])
}

/// The text `( ( 42 ) )` with the whitespace `w0` to `w5` around its tokens.
pub open spec fn nested_42_text(
    w0: Seq<char>,
    w1: Seq<char>,
    w2: Seq<char>,
    w3: Seq<char>,
    w4: Seq<char>,
    w5: Seq<char>,
) -> Seq<char> {
    w0 + seq!['('] + w1 + seq!['('] + w2 + seq!['4', '2'] + w3 + seq![')'] + w4 + seq![')'] + w5
}

pub open spec fn nested_42_tokens() -> Seq<TokenView> {
    seq![
        TokenView::LParan,
        TokenView::LParan,
        TokenView::Integer(42),
        TokenView::RParan,
        TokenView::RParan,
    ]
}

#[verifier::rlimit(100)]
#[verifier::spinoff_prover]
proof fn lemma_lex_nested_42(
    w0: Seq<char>,
    w1: Seq<char>,
    w2: Seq<char>,
    w3: Seq<char>,
    w4: Seq<char>,
    w5: Seq<char>,
)
    requires
        all_space(w0),
        all_space(w1),
        all_space(w2),
        all_space(w3),
        all_space(w4),
        all_space(w5),
    ensures
        lex(nested_42_text(w0, w1, w2, w3, w4, w5)) == Ok::<Seq<TokenView>, int>(nested_42_tokens()),
{
    let s = nested_42_text(w0, w1, w2, w3, w4, w5);
    let p0 = w0.len() as int;
    let p1 = p0 + 1 + w1.len();
    let p2 = p1 + 1 + w2.len();
    let p3 = p2 + 2 + w3.len();
    let p4 = p3 + 1 + w4.len();
    let n = p4 + 1 + w5.len();
    assert(s.len() == n);
    assert(s[p0] == '(');
    assert(s[p1] == '(');
    assert(s[p2] == '4');
    assert(s[p3] == ')');
    assert(s[p4] == ')');
    assert forall|m: int| 0 <= m < p0 implies is_space(#[trigger] s[m]) by {
        assert(s[m] == w0[m]);
    }
    assert forall|m: int| p0 + 1 <= m < p1 implies is_space(#[trigger] s[m]) by {
        assert(s[m] == w1[m - p0 - 1]);
    }
    assert forall|m: int| p1 + 1 <= m < p2 implies is_space(#[trigger] s[m]) by {
        assert(s[m] == w2[m - p1 - 1]);
    }
    assert forall|m: int| p2 + 2 <= m < p3 implies is_space(#[trigger] s[m]) by {
        assert(s[m] == w3[m - p2 - 2]);
    }
    assert forall|m: int| p3 + 1 <= m < p4 implies is_space(#[trigger] s[m]) by {
        assert(s[m] == w4[m - p3 - 1]);
    }
    assert forall|m: int| p4 + 1 <= m < n implies is_space(#[trigger] s[m]) by {
        assert(s[m] == w5[m - p4 - 1]);
    }
    let u = seq!['4', '2'];
    let v = s.subrange(p2 + 2, n);
    assert(s.subrange(p2, n) =~= u + v);
    if v.len() > 0 {
        assert(v[0] == s[p2 + 2]);
    }
    lemma_int_prefix_append(u, v);
    lemma_int_prefix_42();
    assert(lex_token(s, p2) == Some((TokenView::Integer(42), p2 + 2)));
    lemma_lex_blank(s, p4 + 1);
    lemma_lex_step(s, p3 + 1, p4);
    lemma_lex_step(s, p2 + 2, p3);
    lemma_lex_step(s, p1 + 1, p2);
    lemma_lex_step(s, p0 + 1, p1);
    lemma_lex_step(s, 0, p0);
    let ts = nested_42_tokens();
    assert(seq![TokenView::RParan] + Seq::<TokenView>::empty() =~= seq![TokenView::RParan]);
    assert(seq![TokenView::RParan] + seq![TokenView::RParan] =~= ts.skip(3));
    assert(seq![TokenView::Integer(42)] + ts.skip(3) =~= ts.skip(2));
    assert(seq![TokenView::LParan] + ts.skip(2) =~= ts.skip(1));
    assert(seq![TokenView::LParan] + ts.skip(1) =~= ts);
}

proof fn lemma_int_prefix_42()
    ensures
        int_prefix(seq!['4', '2']) == Some((42int, 2int)),
{
    let u = seq!['4', '2'];
    lemma_digit_run(u, 0, 2);
    assert(u.subrange(0, 2) =~= u);
    assert(u.drop_last() =~= seq!['4']);
    assert(seq!['4'].drop_last() =~= Seq::<char>::empty());
    assert(digits_value(Seq::<char>::empty()) == 0);
    assert(digits_value(seq!['4']) == 4);
    assert(digits_value(u) == 42);
}

proof fn lemma_parse_nested_42()
    ensures
        parse_expr_spec(nested_42_tokens()) == Ok::<(ExprView, Seq<TokenView>), nat>(
            (
                ExprView::List(seq![ExprView::List(seq![ExprView::Integer(42)])]),
                Seq::empty(),
            ),
        ),
{
    let ts = nested_42_tokens();
    let e42 = ExprView::Integer(42);
    let inner = ExprView::List(seq![e42]);
    assert(parse_items_spec(ts.skip(4)) == Ok::<(Seq<ExprView>, Seq<TokenView>), nat>(
        (Seq::empty(), ts.skip(5)),
    )) by {
        assert(ts.skip(4).drop_first() =~= ts.skip(5));
    }
    assert(parse_items_spec(ts.skip(3)) == Ok::<(Seq<ExprView>, Seq<TokenView>), nat>(
        (Seq::empty(), ts.skip(4)),
    )) by {
        assert(ts.skip(3).drop_first() =~= ts.skip(4));
    }
    assert(parse_expr_spec(ts.skip(2)) == Ok::<(ExprView, Seq<TokenView>), nat>(
        (e42, ts.skip(3)),
    )) by {
        assert(ts.skip(2).drop_first() =~= ts.skip(3));
    }
    assert(parse_items_spec(ts.skip(2)) == Ok::<(Seq<ExprView>, Seq<TokenView>), nat>(
        (seq![e42], ts.skip(4)),
    )) by {
        assert(seq![e42] + Seq::<ExprView>::empty() =~= seq![e42]);
    }
    assert(parse_expr_spec(ts.skip(1)) == Ok::<(ExprView, Seq<TokenView>), nat>(
        (inner, ts.skip(4)),
    )) by {
        assert(ts.skip(1).drop_first() =~= ts.skip(2));
        assert(parse_list_spec(ts.skip(1)) == Ok::<(ExprView, Seq<TokenView>), nat>(
            (inner, ts.skip(4)),
        ));
    }
    assert(parse_items_spec(ts.skip(1)) == Ok::<(Seq<ExprView>, Seq<TokenView>), nat>(
        (seq![inner], ts.skip(5)),
    )) by {
        assert(seq![inner] + Seq::<ExprView>::empty() =~= seq![inner]);
    }
    assert(ts.skip(5) =~= Seq::<TokenView>::empty());
    assert(ts.drop_first() =~= ts.skip(1));
    assert(parse_list_spec(ts) == Ok::<(ExprView, Seq<TokenView>), nat>(
        (ExprView::List(seq![inner]), Seq::empty()),
    ));
}

/// `( ( 42 ) )` reads as a list that holds a list that holds 42, whatever
/// whitespace stands between and around its tokens.
pub proof fn lemma_nested_42_any_spacing(
    w0: Seq<char>,
    w1: Seq<char>,
    w2: Seq<char>,
    w3: Seq<char>,
    w4: Seq<char>,
    w5: Seq<char>,
)
    requires
        all_space(w0),
        all_space(w1),
        all_space(w2),
        all_space(w3),
        all_space(w4),
        all_space(w5),
    ensures
        match lex(nested_42_text(w0, w1, w2, w3, w4, w5)) {
            Ok(ts) => parse_expr_spec(ts) == Ok::<(ExprView, Seq<TokenView>), nat>(
                (
                    ExprView::List(seq![ExprView::List(seq![ExprView::Integer(42)])]),
                    Seq::empty(),
                ),
            ),
            Err(_) => false,
        },
{
    lemma_lex_nested_42(w0, w1, w2, w3, w4, w5);
    lemma_parse_nested_42();
}

/// How a token changes the count of open parentheses.
pub open spec fn paren_weight(t: TokenView) -> int {
    match t {
        TokenView::LParan => 1,
        TokenView::RParan => -1,
        _ => 0,
    }
}

/// Left parentheses less right parentheses in `ts`.
pub open spec fn paren_depth(ts: Seq<TokenView>) -> int
    decreases ts.len(),
{
    if ts.len() == 0 {
        0
    } else {
        paren_weight(ts[0]) + paren_depth(ts.drop_first())
    }
}

/// `balance_end` is the first prefix at which the depth count closes the
/// `open` parentheses.
proof fn lemma_balance_end_depth(ts: Seq<TokenView>, open: nat)
    ensures
        match balance_end(ts, open) {
            Some(k) => {
                &&& 0 <= k <= ts.len()
                &&& open + paren_depth(ts.take(k)) == 0
                &&& forall|j: int| 0 <= j < k ==> open + paren_depth(#[trigger] ts.take(j)) > 0
            },
            None => forall|j: int|
                0 <= j <= ts.len() ==> open + paren_depth(#[trigger] ts.take(j)) > 0,
        },
    decreases ts.len(),
{
    assert(paren_depth(ts.take(0)) == 0);
    if open > 0 && ts.len() > 0 {
        let tail = ts.drop_first();
        let still_open: nat = match ts[0] {
            TokenView::LParan => open + 1,
            TokenView::RParan => (open - 1) as nat,
            _ => open,
        };
        lemma_balance_end_depth(tail, still_open);
        assert forall|j: int| 1 <= j <= ts.len() implies open + paren_depth(#[trigger] ts.take(j))
            == still_open + paren_depth(tail.take(j - 1)) by {
            assert(ts.take(j).drop_first() =~= tail.take(j - 1));
            assert(ts.take(j)[0] == ts[0]);
        }
        match balance_end(tail, still_open) {
            Some(m) => {
                assert forall|j: int| 0 <= j < m + 1 implies open + paren_depth(
                    #[trigger] ts.take(j),
                ) > 0 by {
                    if j >= 1 {
                        assert(still_open + paren_depth(tail.take(j - 1)) > 0);
                    }
                }
            },
            None => {
                assert forall|j: int| 0 <= j <= ts.len() implies open + paren_depth(
                    #[trigger] ts.take(j),
                ) > 0 by {
                    if j >= 1 {
                        assert(still_open + paren_depth(tail.take(j - 1)) > 0);
                    }
                }
            },
        }
    }
}

/// Parsing tokens as a list succeeds exactly when they start with a left
/// parenthesis and some prefix holds as many right parentheses as left ones;
/// the list then takes the shortest such prefix. So tokens that start with a
/// left parenthesis which no prefix balances fail to parse.
pub proof fn lemma_parse_list_iff_depth(ts: Seq<TokenView>)
    ensures
        parse_list_spec(ts) is Ok <==> (ts.len() > 0 && ts[0] is LParan && exists|k: int|
            1 <= k <= ts.len() && paren_depth(#[trigger] ts.take(k)) == 0),
        parse_list_spec(ts) is Ok ==> exists|k: int|
            {
                &&& 1 <= k <= ts.len()
                &&& paren_depth(#[trigger] ts.take(k)) == 0
                &&& forall|j: int| 1 <= j < k ==> paren_depth(#[trigger] ts.take(j)) > 0
                &&& parse_list_spec(ts)->Ok_0.1 == ts.skip(k)
            },
{
    lemma_parse_list_iff_balanced(ts);
    if ts.len() > 0 && ts[0] is LParan {
        let tail = ts.drop_first();
        lemma_balance_end_depth(tail, 1);
        assert forall|j: int| 1 <= j <= ts.len() implies paren_depth(#[trigger] ts.take(j)) == 1
            + paren_depth(tail.take(j - 1)) by {
            assert(ts.take(j).drop_first() =~= tail.take(j - 1));
            assert(ts.take(j)[0] == ts[0]);
        }
        match balance_end(tail, 1) {
            Some(m) => {
                let k = m + 1;
                assert(paren_depth(ts.take(k)) == 0);
                assert forall|j: int| 1 <= j < k implies paren_depth(#[trigger] ts.take(j)) > 0 by {
                    assert(1 + paren_depth(tail.take(j - 1)) > 0);
                }
            },
            None => {
                assert forall|k: int| 1 <= k <= ts.len() implies paren_depth(
                    #[trigger] ts.take(k),
                ) != 0 by {
                    assert(1 + paren_depth(tail.take(k - 1)) > 0);
                }
            },
        }
    }
}

} // verus!
