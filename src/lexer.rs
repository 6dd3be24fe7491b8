use vstd::prelude::*;
use vstd::string::StrSliceExecFns;
use vstd::string::StringSliceAdditionalSpecFns;

verus! {

broadcast use vstd::string::group_string_axioms;

/// One lexical unit of the notation.
#[derive(Clone, Debug)]
pub enum Token {
    LParan,
    RParan,
    Integer(i64),
    Symbol(String),
}

/// What a token stands for, with the symbol's text as a sequence of chars.
pub enum TokenView {
    LParan,
    RParan,
    Integer(int),
    Symbol(Seq<char>),
}

impl View for Token {
    type V = TokenView;

    open spec fn view(&self) -> TokenView {
        match self {
            Token::LParan => TokenView::LParan,
            Token::RParan => TokenView::RParan,
            Token::Integer(n) => TokenView::Integer(*n as int),
            Token::Symbol(s) => TokenView::Symbol(s@),
        }
    }
}

/// Two tokens are equal when they are of the same kind with the same payload.
impl PartialEq for Token {
    fn eq(&self, other: &Token) -> (r: bool) {
        match (self, other) {
            (Token::LParan, Token::LParan) => true,
            (Token::RParan, Token::RParan) => true,
            (Token::Integer(a), Token::Integer(b)) => *a == *b,
            (Token::Symbol(a), Token::Symbol(b)) => *a == *b,
            _ => false,
        }
    }
}

impl vstd::std_specs::cmp::PartialEqSpecImpl for Token {
    open spec fn obeys_eq_spec() -> bool {
        true
    }

    open spec fn eq_spec(&self, other: &Token) -> bool {
        self@ == other@
    }
}

pub open spec fn tokens_view(ts: Seq<Token>) -> Seq<TokenView> {
    ts.map_values(|t: Token| t@)
}

/// The failure of a tokenizing pass: no rule matches at `position`, the index
/// (in chars) of the first character that could not be consumed.
#[derive(Clone, Copy, PartialEq, Eq, Debug)]
pub struct LexError {
    pub position: usize,
}

pub open spec fn is_space(c: char) -> bool {
    c == ' ' || c == '\t' || c == '\n' || c == '\r'
}

pub open spec fn is_digit(c: char) -> bool {
    '0' <= c && c <= '9'
}

pub open spec fn is_symbol_char(c: char) -> bool {
    is_digit(c) || ('a' <= c && c <= 'z') || ('A' <= c && c <= 'Z') || c == '_'
}

/// The first index at or after `i` that does not hold whitespace.
pub open spec fn skip_space(s: Seq<char>, i: int) -> int
    decreases s.len() - i,
{
    if 0 <= i < s.len() && is_space(s[i]) {
        skip_space(s, i + 1)
    } else {
        i
    }
}

/// The end of the run of decimal digits that starts at `i`.
pub open spec fn digit_end(s: Seq<char>, i: int) -> int
    decreases s.len() - i,
{
    if 0 <= i < s.len() && is_digit(s[i]) {
        digit_end(s, i + 1)
    } else {
        i
    }
}

/// The end of the run of symbol characters that starts at `i`.
pub open spec fn symbol_end(s: Seq<char>, i: int) -> int
    decreases s.len() - i,
{
    if 0 <= i < s.len() && is_symbol_char(s[i]) {
        symbol_end(s, i + 1)
    } else {
        i
    }
}

/// The number that a run of decimal digits writes.
pub open spec fn digits_value(d: Seq<char>) -> nat
    decreases d.len(),
{
    if d.len() == 0 {
        0
    } else {
        digits_value(d.drop_last()) * 10 + (d.last() as nat - '0' as nat) as nat
    }
}

/// A signed decimal number at the start of `s`: an optional sign, then the
/// longest run of digits. Gives the value and the number of chars it takes,
/// or nothing when no digit follows the sign or the value is outside `i64`.
pub open spec fn int_prefix(s: Seq<char>) -> Option<(int, int)> {
    let sign: int = if s.len() > 0 && (s[0] == '-' || s[0] == '+') {
        1
    } else {
        0
    };
    let end = digit_end(s, sign);
    let mag = digits_value(s.subrange(sign, end)) as int;
    let v = if sign == 1 && s[0] == '-' {
        -mag
    } else {
        mag
    };
    if end > sign && i64::MIN <= v <= i64::MAX {
        Some((v, end))
    } else {
        None
    }
}

/// The token that starts at `j` and the index just after it, trying in turn a
/// left parenthesis, a right parenthesis, an integer (`-` or a digit first) and
/// a symbol.
pub open spec fn lex_token(s: Seq<char>, j: int) -> Option<(TokenView, int)> {
    if !(0 <= j < s.len()) {
        None
    } else if s[j] == '(' {
        Some((TokenView::LParan, j + 1))
    } else if s[j] == ')' {
        Some((TokenView::RParan, j + 1))
    } else if (s[j] == '-' || is_digit(s[j])) && int_prefix(s.subrange(j, s.len() as int)) is Some {
        let (v, e) = int_prefix(s.subrange(j, s.len() as int))->Some_0;
        Some((TokenView::Integer(v), j + e))
    } else if is_symbol_char(s[j]) {
        let e = symbol_end(s, j);
        Some((TokenView::Symbol(s.subrange(j, e)), e))
    } else {
        None
    }
}

/// Tokenizing `s` from index `i` to its end: the tokens, or the index at which
/// no rule matches.
pub open spec fn lex_from(s: Seq<char>, i: int) -> Result<Seq<TokenView>, int>
    decreases s.len() - i,
{
    let j = skip_space(s, i);
    if !(0 <= j < s.len()) {
        Ok(Seq::empty())
    } else {
        match lex_token(s, j) {
            None => Err(j),
            // A token takes at least one character; the bound only makes the
            // recursion visibly well-founded.
            Some((t, k)) => if i < k <= s.len() {
                match lex_from(s, k) {
                    Ok(ts) => Ok(seq![t] + ts),
                    Err(p) => Err(p),
                }
            } else {
                Err(j)
            },
        }
    }
}

/// Tokenizing the whole of `s`.
pub open spec fn lex(s: Seq<char>) -> Result<Seq<TokenView>, int> {
    lex_from(s, 0)
}

/// Relies on nom::character::complete::i64: it reads an optional sign and the
/// longest run of decimal digits that follows, and fails when no digit follows
/// or the value does not fit in an `i64`; on success it returns the rest.
#[verifier::external_body]
fn leading_i64<'a>(t: &'a str) -> (r: Option<(&'a str, i64)>)
    ensures
        match int_prefix(t@) {
            Some((v, e)) => r is Some && r->Some_0.1 as int == v && r->Some_0.0@ == t@.subrange(
                e,
                t@.len() as int,
            ),
            None => r is None,
        },
{
    match nom::character::complete::i64::<&str, nom::error::Error<&str>>(t) {
        Ok((rest, v)) => Some((rest, v)),
        Err(_) => None,
    }
}


fn is_space_char(c: char) -> (b: bool)
    ensures
        b == is_space(c),
{
    c == ' ' || c == '\t' || c == '\n' || c == '\r'
}

fn is_digit_char(c: char) -> (b: bool)
    ensures
        b == is_digit(c),
{
    '0' <= c && c <= '9'
}

fn is_symbol_char_exec(c: char) -> (b: bool)
    ensures
        b == is_symbol_char(c),
{
    ('0' <= c && c <= '9') || ('a' <= c && c <= 'z') || ('A' <= c && c <= 'Z') || c == '_'
}

/// The characters of `input`, one by one.
fn text_chars(input: &str, ascii: bool) -> (r: Vec<char>)
    requires
        ascii == input.is_ascii(),
    ensures
        r@ == input@,
{
    let mut v: Vec<char> = Vec::new();
    if ascii {
        proof {
            vstd::string::is_ascii_spec_bytes(input);
        }
        let n = input.as_bytes().len();
        let mut i: usize = 0;
        while i < n
            invariant
                input.is_ascii(),
                n == input@.len(),
                i <= n,
                v@ == input@.subrange(0, i as int),
            decreases n - i,
        {
            let b = input.get_ascii(i);
            let c = b as char;
            assert('\0' <= input@[i as int] <= '\u{7f}');
            assert(c == input@[i as int]);
            v.push(c);
            i += 1;
            assert(v@ =~= input@.subrange(0, i as int));
        }
    } else {
        // Each lookup walks the text from its start; text that is not ASCII
        // never tokenizes, so this path only serves to place the error.
        let n = input.unicode_len();
        let mut i: usize = 0;
        while i < n
            invariant
                n == input@.len(),
                i <= n,
                v@ == input@.subrange(0, i as int),
            decreases n - i,
        {
            v.push(input.get_char(i));
            i += 1;
            assert(v@ =~= input@.subrange(0, i as int));
        }
    }
    assert(v@ =~= input@);
    v
}

/// The part of `input` from `from` to `to`.
fn text_part<'a>(input: &'a str, ascii: bool, from: usize, to: usize) -> (r: &'a str)
    requires
        ascii == input.is_ascii(),
        from <= to <= input@.len(),
    ensures
        r@ == input@.subrange(from as int, to as int),
        ascii ==> r.is_ascii(),
{
    if ascii {
        input.substring_ascii(from, to)
    } else {
        input.substring_char(from, to)
    }
}

/// The number of characters of `t`.
fn char_len(t: &str, ascii: bool) -> (r: usize)
    requires
        ascii ==> t.is_ascii(),
    ensures
        r == t@.len(),
{
    if ascii {
        proof {
            vstd::string::is_ascii_spec_bytes(t);
        }
        t.as_bytes().len()
    } else {
        t.unicode_len()
    }
}

proof fn lemma_skip_space_bounds(s: Seq<char>, i: int)
    requires
        0 <= i <= s.len(),
    ensures
        i <= skip_space(s, i) <= s.len(),
    decreases s.len() - i,
{
    if i < s.len() && is_space(s[i]) {
        lemma_skip_space_bounds(s, i + 1);
    }
}

proof fn lemma_digit_end_bounds(s: Seq<char>, i: int)
    requires
        0 <= i <= s.len(),
    ensures
        i <= digit_end(s, i) <= s.len(),
    decreases s.len() - i,
{
    if i < s.len() && is_digit(s[i]) {
        lemma_digit_end_bounds(s, i + 1);
    }
}

proof fn lemma_symbol_end_bounds(s: Seq<char>, i: int)
    requires
        0 <= i <= s.len(),
    ensures
        i <= symbol_end(s, i) <= s.len(),
    decreases s.len() - i,
{
    if i < s.len() && is_symbol_char(s[i]) {
        lemma_symbol_end_bounds(s, i + 1);
    }
}

proof fn lemma_int_prefix_bounds(s: Seq<char>)
    ensures
        int_prefix(s) is Some ==> 0 < int_prefix(s)->Some_0.1 <= s.len(),
{
    let sign: int = if s.len() > 0 && (s[0] == '-' || s[0] == '+') {
        1
    } else {
        0
    };
    lemma_digit_end_bounds(s, sign);
}

/// The token that starts at `j`, which holds no whitespace, and the index just
/// after it.
fn lex_token_at(input: &str, ascii: bool, chars: &Vec<char>, j: usize) -> (r: Option<(Token, usize)>)
    requires
        ascii == input.is_ascii(),
        chars@ == input@,
        j < chars@.len(),
    ensures
        match lex_token(chars@, j as int) {
            Some((t, k)) => r is Some && r->Some_0.0@ == t && r->Some_0.1 as int == k,
            None => r is None,
        },
        r is Some ==> j < r->Some_0.1 <= chars@.len(),
{
    let n = chars.len();
    let c = chars[j];
    if c == '(' {
        return Some((Token::LParan, j + 1));
    }
    if c == ')' {
        return Some((Token::RParan, j + 1));
    }
    if c == '-' || is_digit_char(c) {
        let t = text_part(input, ascii, j, n);
        proof {
            lemma_int_prefix_bounds(t@);
        }
        match leading_i64(t) {
            Some((rest, v)) => {
                let rest_len = char_len(rest, ascii);
                let e = (n - j) - rest_len;
                return Some((Token::Integer(v), j + e));
            },
            None => {},
        }
    }
    if is_symbol_char_exec(c) {
        let mut k: usize = j;
        while k < n && is_symbol_char_exec(chars[k])
            invariant
                j <= k <= n,
                n == chars@.len(),
                symbol_end(chars@, j as int) == symbol_end(chars@, k as int),
            decreases n - k,
        {
            k += 1;
        }
        let text = text_part(input, ascii, j, k).to_owned();
        return Some((Token::Symbol(text), k));
    }
    None
}

/// `r` with `pre` put before its tokens.
pub open spec fn prepend_tokens(pre: Seq<TokenView>, r: Result<Seq<TokenView>, int>) -> Result<
    Seq<TokenView>,
    int,
> {
    match r {
        Ok(ts) => Ok(pre + ts),
        Err(p) => Err(p),
    }
}

/// Splits `input` into tokens, skipping whitespace between them; the whole
/// text must be consumed. Fails with the position of the first character at
/// which no token starts.
pub fn lexer(input: &str) -> (r: Result<Vec<Token>, LexError>)
    ensures
        match lex(input@) {
            Ok(ts) => r is Ok && tokens_view(r->Ok_0@) == ts,
            Err(p) => r is Err && r->Err_0.position as int == p,
        },
{
    let ascii = input.is_ascii();
    let chars = text_chars(input, ascii);
    let n = chars.len();
    let mut tokens: Vec<Token> = Vec::new();
    let mut pos: usize = 0;
    proof {
        assert(tokens_view(tokens@) =~= Seq::<TokenView>::empty());
        assert(prepend_tokens(Seq::empty(), lex_from(chars@, 0)) =~= lex_from(chars@, 0));
    }
    loop
        invariant
            pos <= n,
            n == chars@.len(),
            chars@ == input@,
            ascii == input.is_ascii(),
            lex(input@) == prepend_tokens(tokens_view(tokens@), lex_from(chars@, pos as int)),
        decreases n - pos,
    {
        let mut j: usize = pos;
        while j < n && is_space_char(chars[j])
            invariant
                pos <= j <= n,
                n == chars@.len(),
                skip_space(chars@, pos as int) == skip_space(chars@, j as int),
            decreases n - j,
        {
            j += 1;
        }
        assert(skip_space(chars@, pos as int) == j);
        if j >= n {
            proof {
                assert(tokens_view(tokens@) + Seq::<TokenView>::empty() =~= tokens_view(tokens@));
            }
            return Ok(tokens);
        }
        match lex_token_at(input, ascii, &chars, j) {
            None => {
                return Err(LexError { position: j });
            },
            Some((t, k)) => {
                proof {
                    let s = chars@;
                    let before = tokens_view(tokens@);
                    let rest = lex_from(s, k as int);
                    assert(lex_from(s, pos as int) == prepend_tokens(seq![t@], rest));
                    assert(tokens_view(tokens@.push(t)) =~= before.push(t@));
                    match rest {
                        Ok(ts) => {
                            assert(before + (seq![t@] + ts) =~= before.push(t@) + ts);
                        },
                        Err(_) => {},
                    }
                }
                tokens.push(t);
                pos = k;
            },
        }
    }
}

proof fn lemma_skip_spaces(s: Seq<char>, i: int, m: int)
    requires
        0 <= i <= m <= s.len(),
        forall|j: int| i <= j < m ==> is_space(#[trigger] s[j]),
    ensures
        skip_space(s, i) == skip_space(s, m),
    decreases m - i,
{
    if i < m {
        lemma_skip_spaces(s, i + 1, m);
    }
}

proof fn lemma_skip_space_is_space(s: Seq<char>, i: int)
    requires
        0 <= i <= s.len(),
    ensures
        forall|j: int| i <= j < skip_space(s, i) ==> is_space(#[trigger] s[j]),
    decreases s.len() - i,
{
    if i < s.len() && is_space(s[i]) {
        lemma_skip_space_is_space(s, i + 1);
    }
}

proof fn lemma_symbol_run(s: Seq<char>, i: int, m: int)
    requires
        0 <= i <= m <= s.len(),
        forall|j: int| i <= j < m ==> is_symbol_char(#[trigger] s[j]),
        m == s.len() || !is_symbol_char(s[m]),
    ensures
        symbol_end(s, i) == m,
    decreases m - i,
{
    if i < m {
        lemma_symbol_run(s, i + 1, m);
    }
}

proof fn lemma_symbol_end_chars(s: Seq<char>, i: int)
    requires
        0 <= i <= s.len(),
    ensures
        forall|j: int| i <= j < symbol_end(s, i) ==> is_symbol_char(#[trigger] s[j]),
    decreases s.len() - i,
{
    if i < s.len() && is_symbol_char(s[i]) {
        lemma_symbol_end_chars(s, i + 1);
    }
}

proof fn lemma_digit_end_chars(s: Seq<char>, i: int)
    requires
        0 <= i <= s.len(),
    ensures
        forall|j: int| i <= j < digit_end(s, i) ==> is_digit(#[trigger] s[j]),
    decreases s.len() - i,
{
    if i < s.len() && is_digit(s[i]) {
        lemma_digit_end_chars(s, i + 1);
    }
}

/// A digit run inside `u` ends where it ends in `u + v`, when `v` does not
/// start with a digit.
proof fn lemma_digit_end_append(u: Seq<char>, v: Seq<char>, i: int)
    requires
        0 <= i <= u.len(),
        v.len() == 0 || !is_digit(v[0]),
    ensures
        digit_end(u + v, i) == digit_end(u, i),
    decreases u.len() - i,
{
    if i < u.len() && is_digit(u[i]) {
        lemma_digit_end_append(u, v, i + 1);
    }
}

/// What follows a number, when it does not start with a digit, does not
/// change how the number reads.
pub(crate) proof fn lemma_int_prefix_append(u: Seq<char>, v: Seq<char>)
    requires
        u.len() > 0,
        v.len() == 0 || !is_digit(v[0]),
    ensures
        int_prefix(u + v) == int_prefix(u),
{
    let x = u + v;
    let sign: int = if u[0] == '-' || u[0] == '+' {
        1
    } else {
        0
    };
    assert(x[0] == u[0]);
    lemma_digit_end_append(u, v, sign);
    lemma_digit_end_bounds(u, sign);
    let end = digit_end(u, sign);
    assert(x.subrange(sign, end) =~= u.subrange(sign, end));
}

proof fn lemma_lex_token_bounds(s: Seq<char>, j: int)
    requires
        lex_token(s, j) is Some,
    ensures
        j < lex_token(s, j)->Some_0.1 <= s.len(),
{
    let t = s.subrange(j, s.len() as int);
    lemma_int_prefix_bounds(t);
    lemma_symbol_end_bounds(s, j + 1);
}

/// Whitespace from `i` up to `j`, then a token at `j`: the token comes first,
/// and tokenizing goes on after it.
pub(crate) proof fn lemma_lex_step(s: Seq<char>, i: int, j: int)
    requires
        0 <= i <= j < s.len(),
        forall|m: int| i <= m < j ==> is_space(#[trigger] s[m]),
        !is_space(s[j]),
        lex_token(s, j) is Some,
    ensures
        lex_from(s, i) == prepend_tokens(
            seq![lex_token(s, j)->Some_0.0],
            lex_from(s, lex_token(s, j)->Some_0.1),
        ),
{
    lemma_skip_spaces(s, i, j);
    lemma_lex_token_bounds(s, j);
    match lex_from(s, lex_token(s, j)->Some_0.1) {
        Ok(ts) => {},
        Err(_) => {},
    }
}

/// Text that is whitespace from `i` on gives no more tokens.
pub(crate) proof fn lemma_lex_blank(s: Seq<char>, i: int)
    requires
        0 <= i <= s.len(),
        forall|m: int| i <= m < s.len() ==> is_space(#[trigger] s[m]),
    ensures
        lex_from(s, i) == Ok::<Seq<TokenView>, int>(Seq::empty()),
{
    lemma_skip_spaces(s, i, s.len() as int);
}

/// A run of symbol characters with whitespace around it tokenizes to that one
/// symbol, unless its leading digits read as an `i64`: those become an
/// integer.
pub proof fn lemma_lex_padded_symbol(pre: Seq<char>, sym: Seq<char>, post: Seq<char>)
    requires
        forall|i: int| 0 <= i < pre.len() ==> is_space(#[trigger] pre[i]),
        forall|i: int| 0 <= i < post.len() ==> is_space(#[trigger] post[i]),
        sym.len() > 0,
        forall|i: int| 0 <= i < sym.len() ==> is_symbol_char(#[trigger] sym[i]),
        !(is_digit(sym[0]) && int_prefix(sym) is Some),
    ensures
        lex(pre + sym + post) == Ok::<Seq<TokenView>, int>(seq![TokenView::Symbol(sym)]),
{
    let s = pre + sym + post;
    let a = pre.len() as int;
    let b = a + sym.len();
    assert(s.subrange(a, b) =~= sym);
    assert forall|m: int| 0 <= m < a implies is_space(#[trigger] s[m]) by {
        assert(s[m] == pre[m]);
    }
    assert forall|m: int| a <= m < b implies is_symbol_char(#[trigger] s[m]) by {
        assert(s[m] == sym[m - a]);
    }
    assert forall|m: int| b <= m < s.len() implies is_space(#[trigger] s[m]) by {
        assert(s[m] == post[m - b]);
    }
    assert(s[a] == sym[0]);
    if is_digit(sym[0]) {
        assert(s.subrange(a, s.len() as int) =~= sym + post);
        if post.len() > 0 {
            assert(post[0] == s[b]);
        }
        lemma_int_prefix_append(sym, post);
    }
    lemma_symbol_run(s, a, b);
    lemma_lex_step(s, 0, a);
    lemma_lex_blank(s, b);
    assert(seq![TokenView::Symbol(sym)] + Seq::<TokenView>::empty() =~= seq![
        TokenView::Symbol(sym),
    ]);
}

/// The characters that some token, or whitespace, can hold.
pub open spec fn is_lexeme_char(c: char) -> bool {
    is_space(c) || c == '(' || c == ')' || c == '-' || is_symbol_char(c)
}

proof fn lemma_lex_ok_chars(s: Seq<char>, i: int)
    requires
        0 <= i <= s.len(),
        lex_from(s, i) is Ok,
    ensures
        forall|m: int| i <= m < s.len() ==> is_lexeme_char(#[trigger] s[m]),
        forall|m: int|
            i <= m < s.len() && #[trigger] s[m] == '-' ==> m + 1 < s.len() && is_digit(s[m + 1]),
    decreases s.len() - i,
{
    let j = skip_space(s, i);
    lemma_skip_space_bounds(s, i);
    lemma_skip_space_is_space(s, i);
    if j < s.len() {
        let (t, k) = lex_token(s, j)->Some_0;
        lemma_lex_token_bounds(s, j);
        lemma_lex_ok_chars(s, k);
        if s[j] == '(' || s[j] == ')' {
        } else if (s[j] == '-' || is_digit(s[j])) && int_prefix(s.subrange(j, s.len() as int)) is Some {
            let x = s.subrange(j, s.len() as int);
            let sign: int = if x[0] == '-' || x[0] == '+' {
                1
            } else {
                0
            };
            lemma_digit_end_chars(x, sign);
            assert forall|m: int| j <= m < k implies is_lexeme_char(#[trigger] s[m]) by {
                assert(s[m] == x[m - j]);
            }
            assert forall|m: int|
                j <= m < k && #[trigger] s[m] == '-' implies m + 1 < s.len() && is_digit(
                s[m + 1],
            ) by {
                assert(s[m] == x[m - j]);
                if m > j {
                    assert(is_digit(x[m - j]));
                }
                assert(m == j);
                assert(x[1] == s[j + 1]);
            }
        } else {
            lemma_symbol_end_chars(s, j);
        }
    }
}

/// Text with a `-` that no digit follows does not tokenize: a `-` only
/// starts a negative integer.
pub proof fn lemma_lex_rejects_lone_minus(s: Seq<char>, i: int)
    requires
        0 <= i < s.len(),
        s[i] == '-',
        i + 1 == s.len() || !is_digit(s[i + 1]),
    ensures
        lex(s) is Err,
{
    if lex(s) is Ok {
        lemma_lex_ok_chars(s, 0);
    }
}

/// Text that holds a character which neither whitespace nor any token can
/// hold does not tokenize.
pub proof fn lemma_lex_rejects_foreign_char(s: Seq<char>, i: int)
    requires
        0 <= i < s.len(),
        !is_lexeme_char(s[i]),
    ensures
        lex(s) is Err,
{
    if lex(s) is Ok {
        lemma_lex_ok_chars(s, 0);
    }
}

/// The character of a decimal digit.
pub open spec fn digit_char(d: int) -> char {
    if d == 0 {
        '0'
    } else if d == 1 {
        '1'
    } else if d == 2 {
        '2'
    } else if d == 3 {
        '3'
    } else if d == 4 {
        '4'
    } else if d == 5 {
        '5'
    } else if d == 6 {
        '6'
    } else if d == 7 {
        '7'
    } else if d == 8 {
        '8'
    } else {
        '9'
    }
}

/// The decimal digits of `m`, without leading zeros.
pub open spec fn digits_of(m: nat) -> Seq<char>
    decreases m,
{
    if m < 10 {
        seq![digit_char(m as int)]
    } else {
        digits_of(m / 10).push(digit_char((m % 10) as int))
    }
}

/// `n` written in decimal, with a `-` when it is negative.
pub open spec fn decimal(n: int) -> Seq<char> {
    if n < 0 {
        seq!['-'] + digits_of((-n) as nat)
    } else {
        digits_of(n as nat)
    }
}

proof fn lemma_digit_char(d: int)
    requires
        0 <= d <= 9,
    ensures
        is_digit(digit_char(d)),
        digit_char(d) as int - '0' as int == d,
{
}

proof fn lemma_digits_of(m: nat)
    ensures
        digits_of(m).len() > 0,
        forall|i: int| 0 <= i < digits_of(m).len() ==> is_digit(#[trigger] digits_of(m)[i]),
        digits_value(digits_of(m)) == m,
    decreases m,
{
    if m >= 10 {
        lemma_digits_of(m / 10);
        lemma_digit_char((m % 10) as int);
        let d = digits_of(m / 10);
        let c = digit_char((m % 10) as int);
        assert(digits_of(m) == d.push(c));
        assert(d.push(c).drop_last() =~= d);
        assert(d.push(c).last() == c);
        assert((c as nat - '0' as nat) as nat == m % 10);
        assert(digits_value(d.push(c)) == digits_value(d) * 10 + (m % 10));
        assert(m == (m / 10) * 10 + m % 10);
    } else {
        lemma_digit_char(m as int);
        let c = digit_char(m as int);
        assert(seq![c].drop_last() =~= Seq::<char>::empty());
        assert(seq![c].last() == c);
        assert(digits_value(Seq::<char>::empty()) == 0);
        assert(digits_value(seq![c]) == 0 * 10 + (c as nat - '0' as nat) as nat);
    }
}

pub(crate) proof fn lemma_digit_run(s: Seq<char>, i: int, m: int)
    requires
        0 <= i <= m <= s.len(),
        forall|j: int| i <= j < m ==> is_digit(#[trigger] s[j]),
        m == s.len() || !is_digit(s[m]),
    ensures
        digit_end(s, i) == m,
    decreases m - i,
{
    if i < m {
        lemma_digit_run(s, i + 1, m);
    }
}

/// Every `i64`, written in decimal, reads back as itself.
proof fn lemma_int_prefix_decimal(n: int)
    requires
        i64::MIN <= n <= i64::MAX,
    ensures
        int_prefix(decimal(n)) == Some((n, decimal(n).len() as int)),
{
    let x = decimal(n);
    if n < 0 {
        let d = digits_of((-n) as nat);
        lemma_digits_of((-n) as nat);
        assert forall|j: int| 1 <= j < x.len() implies is_digit(#[trigger] x[j]) by {
            assert(x[j] == d[j - 1]);
        }
        lemma_digit_run(x, 1, x.len() as int);
        assert(x.subrange(1, x.len() as int) =~= d);
    } else {
        lemma_digits_of(n as nat);
        lemma_digit_run(x, 0, x.len() as int);
        assert(x.subrange(0, x.len() as int) =~= x);
    }
}

/// An `i64` written in decimal, with whitespace around it, tokenizes to that
/// one integer.
pub proof fn lemma_lex_padded_integer(pre: Seq<char>, n: i64, post: Seq<char>)
    requires
        forall|i: int| 0 <= i < pre.len() ==> is_space(#[trigger] pre[i]),
        forall|i: int| 0 <= i < post.len() ==> is_space(#[trigger] post[i]),
    ensures
        lex(pre + decimal(n as int) + post) == Ok::<Seq<TokenView>, int>(
            seq![TokenView::Integer(n as int)],
        ),
{
    let d = decimal(n as int);
    let s = pre + d + post;
    let a = pre.len() as int;
    let b = a + d.len();
    lemma_int_prefix_decimal(n as int);
    if n < 0 {
    } else {
        lemma_digits_of(n as nat);
    }
    assert(d.len() > 0);
    assert forall|m: int| 0 <= m < a implies is_space(#[trigger] s[m]) by {
        assert(s[m] == pre[m]);
    }
    assert forall|m: int| b <= m < s.len() implies is_space(#[trigger] s[m]) by {
        assert(s[m] == post[m - b]);
    }
    assert(s[a] == d[0]);
    assert(s.subrange(a, s.len() as int) =~= d + post);
    if post.len() > 0 {
        assert(post[0] == s[b]);
    }
    lemma_int_prefix_append(d, post);
    lemma_lex_step(s, 0, a);
    lemma_lex_blank(s, b);
    assert(seq![TokenView::Integer(n as int)] + Seq::<TokenView>::empty() =~= seq![
        TokenView::Integer(n as int),
    ]);
}

/// Relies on nom::bytes::complete::tag: it succeeds exactly when `input`
/// starts with `t`, and then returns the rest of `input` and the part that
/// matched.
#[verifier::external_body]
fn leading_tag<'a>(t: &str, input: &'a str) -> (r: Option<(&'a str, &'a str)>)
    ensures
        match r {
            Some((rest, matched)) => {
                &&& input@.len() >= t@.len()
                &&& input@.take(t@.len() as int) == t@
                &&& matched@ == t@
                &&& rest@ == input@.skip(t@.len() as int)
            },
            None => !(input@.len() >= t@.len() && input@.take(t@.len() as int) == t@),
        },
{
    match nom::bytes::complete::tag::<&str, &str, nom::error::Error<&str>>(t)(input) {
        Ok((rest, matched)) => Some((rest, matched)),
        Err(_) => None,
    }
}

/// Recognises nothing: all of `i` is left, and the empty text is returned.
pub fn do_nothing<'a>(i: &'a str) -> (r: Option<(&'a str, &'a str)>)
    ensures
        r is Some,
        r->Some_0.0@ == i@,
        r->Some_0.1@ == Seq::<char>::empty(),
{
    let empty = "";
    proof {
        reveal_strlit("");
    }
    Some((i, empty))
}

/// Recognises the word `add` at the start of `i`: the rest, then the word.
pub fn tag_add<'a>(i: &'a str) -> (r: Option<(&'a str, &'a str)>)
    ensures
        match r {
            Some((rest, word)) => i@.len() >= 3 && i@.take(3) == seq!['a', 'd', 'd'] && word@ == seq![
                'a',
                'd',
                'd',
            ] && rest@ == i@.skip(3),
            None => !(i@.len() >= 3 && i@.take(3) == seq!['a', 'd', 'd']),
        },
{
    let word = "add";
    proof {
        reveal_strlit("add");
        assert(word@ =~= seq!['a', 'd', 'd']);
    }
    leading_tag(word, i)
}

} // verus!
