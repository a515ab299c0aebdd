//! The lexer: one line of input text becomes an ordered sequence of
//! tokens. Words are split on ASCII whitespace; a word opening with a
//! quote swallows following words until one closes the quote, and the
//! span becomes a single text token with the quotes stripped; numerals
//! become digit tokens; the six fixed symbols become operator or
//! punctuation tokens; everything else is a text token. Only an
//! unterminated quoted string is rejected.

use vstd::prelude::*;
use vstd::string::StrSliceExecFns;
use crate::num::{parse_i32, parse_i32_chars, push_char};
use crate::value::{Error, TokenId};

verus! {

/// One token: its kind and, for digit and text tokens, its literal text.
#[derive(Debug)]
pub struct Token {
    pub id: TokenId,
    pub itself: Option<String>,
}

/// The mathematical model of a token.
pub struct AbsToken {
    pub id: TokenId,
    pub text: Option<Seq<char>>,
}

/// The model of a token.
pub open spec fn abs_token(t: Token) -> AbsToken {
    AbsToken {
        id: t.id,
        text: match t.itself {
            Some(s) => Some(s@),
            None => None,
        },
    }
}

/// The models of a sequence of tokens.
pub open spec fn abs_tokens(ts: Seq<Token>) -> Seq<AbsToken> {
    ts.map_values(|t: Token| abs_token(t))
}

/// The character sequences behind a sequence of words.
pub open spec fn words_view(ws: Seq<Vec<char>>) -> Seq<Seq<char>> {
    ws.map_values(|w: Vec<char>| w@)
}

/// Is `c` ASCII whitespace?
pub open spec fn is_ws(c: char) -> bool {
    c == ' ' || c == '\t' || c == '\n' || c == '\r' || c == '\x0C'
}

/// The length of the whitespace-free word starting at `i`.
pub open spec fn wlen(s: Seq<char>, i: int) -> int
    decreases s.len() - i,
{
    if i < 0 || i >= s.len() || is_ws(s[i]) {
        0
    } else {
        1 + wlen(s, i + 1)
    }
}

/// A word has at least one character and stops at or before the end.
pub proof fn lemma_wlen_bounds(s: Seq<char>, i: int)
    requires
        0 <= i <= s.len(),
    ensures
        0 <= wlen(s, i) <= s.len() - i,
        i < s.len() && !is_ws(s[i]) ==> wlen(s, i) >= 1,
    decreases s.len() - i,
{
    if i < s.len() && !is_ws(s[i]) {
        lemma_wlen_bounds(s, i + 1);
    }
}

/// A scan that ran from `i` to `j` over word characters measures the word.
pub proof fn lemma_wlen_scan(s: Seq<char>, i: int, j: int)
    requires
        0 <= i <= j <= s.len(),
        forall|k: int| i <= k < j ==> !is_ws(#[trigger] s[k]),
        j == s.len() || is_ws(s[j]),
    ensures
        wlen(s, i) == j - i,
    decreases j - i,
{
    if i < j {
        lemma_wlen_scan(s, i + 1, j);
    }
}

/// The line split on ASCII whitespace into its words, in order,
/// starting at position `i`.
pub open spec fn split_from(s: Seq<char>, i: int) -> Seq<Seq<char>>
    decreases s.len() - i,
    via split_from_dec
{
    if i < 0 || i >= s.len() {
        Seq::empty()
    } else if is_ws(s[i]) {
        split_from(s, i + 1)
    } else {
        seq![s.subrange(i, i + wlen(s, i))] + split_from(s, i + wlen(s, i))
    }
}

#[via_fn]
proof fn split_from_dec(s: Seq<char>, i: int) {
    if 0 <= i < s.len() && !is_ws(s[i]) {
        lemma_wlen_bounds(s, i);
    }
}

/// Does `w` open with a quote?
pub open spec fn starts_quote(w: Seq<char>) -> bool {
    w.len() > 0 && w[0] == '"'
}

/// Does `w` close with a quote?
pub open spec fn ends_quote(w: Seq<char>) -> bool {
    w.len() > 0 && w[w.len() - 1] == '"'
}

/// `w` without its first and last character.
pub open spec fn strip_quotes(w: Seq<char>) -> Seq<char> {
    w.subrange(1, w.len() - 1)
}

/// The first position at or after `k` whose word closes a quote;
/// the word count when there is none.
pub open spec fn quote_end(words: Seq<Seq<char>>, k: int) -> int
    decreases words.len() - k,
{
    if k < 0 || k >= words.len() {
        words.len() as int
    } else if ends_quote(words[k]) {
        k
    } else {
        quote_end(words, k + 1)
    }
}

/// Where the quote scan lands: at or after `k`, at most the word count,
/// and on a closing word if anywhere before the end.
pub proof fn lemma_quote_end_bounds(words: Seq<Seq<char>>, k: int)
    requires
        0 <= k <= words.len(),
    ensures
        k <= quote_end(words, k) <= words.len(),
        quote_end(words, k) < words.len() ==> ends_quote(words[quote_end(words, k)]),
        forall|m: int| k <= m < quote_end(words, k) ==> !ends_quote(#[trigger] words[m]),
    decreases words.len() - k,
{
    if k < words.len() && !ends_quote(words[k]) {
        lemma_quote_end_bounds(words, k + 1);
    }
}

/// The words `i` through `j`, joined with single spaces.
pub open spec fn join_sp(words: Seq<Seq<char>>, i: int, j: int) -> Seq<char>
    decreases j - i,
{
    if i < j {
        words[i] + seq![' '] + join_sp(words, i + 1, j)
    } else {
        words[j]
    }
}

/// Joining one more word on the right.
pub proof fn lemma_join_extend(words: Seq<Seq<char>>, i: int, j: int)
    requires
        i <= j,
    ensures
        join_sp(words, i, j + 1) == join_sp(words, i, j) + seq![' '] + words[j + 1],
    decreases j - i,
{
    if i < j {
        lemma_join_extend(words, i + 1, j);
        assert(join_sp(words, i, j + 1) == words[i] + seq![' '] + join_sp(words, i + 1, j + 1));
        assert(words[i] + seq![' '] + (join_sp(words, i + 1, j) + seq![' '] + words[j + 1]) =~= (
        words[i] + seq![' '] + join_sp(words, i + 1, j)) + seq![' '] + words[j + 1]);
    } else {
        assert(join_sp(words, i + 1, j + 1) == words[j + 1]);
        assert(join_sp(words, i, j + 1) == words[i] + seq![' '] + words[j + 1]);
        assert(join_sp(words, i, j) == words[j]);
    }
}

/// The token a plain word (no quote at either end) becomes: a digit
/// token when it denotes a 32-bit integer, one of the six fixed symbols
/// when it is that symbol, otherwise a text token carrying the word.
pub open spec fn classify(w: Seq<char>) -> AbsToken {
    if parse_i32(w) is Some {
        AbsToken { id: TokenId::Digit, text: Some(w) }
    } else if w == seq!['+'] {
        AbsToken { id: TokenId::Plus, text: None }
    } else if w == seq!['-'] {
        AbsToken { id: TokenId::Minus, text: None }
    } else if w == seq!['*'] {
        AbsToken { id: TokenId::Star, text: None }
    } else if w == seq!['/'] {
        AbsToken { id: TokenId::Slash, text: None }
    } else if w == seq![':'] {
        AbsToken { id: TokenId::Colon, text: None }
    } else if w == seq![';'] {
        AbsToken { id: TokenId::Semicolon, text: None }
    } else {
        AbsToken { id: TokenId::Text, text: Some(w) }
    }
}

/// A text token carrying `s`.
pub open spec fn text_tok(s: Seq<char>) -> AbsToken {
    AbsToken { id: TokenId::Text, text: Some(s) }
}

/// A token prepended to a lexing that may have failed.
pub open spec fn cons_tok(t: AbsToken, rest: Option<Seq<AbsToken>>) -> Option<Seq<AbsToken>> {
    match rest {
        Some(ts) => Some(seq![t] + ts),
        None => None,
    }
}

/// The tokens of the words from position `i` on: quote-opening words
/// swallow up to their closing word, words that close an unopened quote
/// are leftovers of a swallow and are skipped, and the rest classify
/// one for one. `None` when a quote never closes.
pub open spec fn lex_from(words: Seq<Seq<char>>, i: int) -> Option<Seq<AbsToken>>
    decreases words.len() - i,
    via lex_from_dec
{
    if i < 0 || i >= words.len() {
        Some(Seq::empty())
    } else {
        let w = words[i];
        if starts_quote(w) {
            if w.len() >= 2 && ends_quote(w) {
                cons_tok(text_tok(strip_quotes(w)), lex_from(words, i + 1))
            } else {
                let j = quote_end(words, i + 1);
                if j >= words.len() {
                    None
                } else {
                    cons_tok(text_tok(strip_quotes(join_sp(words, i, j))), lex_from(words, j + 1))
                }
            }
        } else if ends_quote(w) {
            lex_from(words, i + 1)
        } else {
            cons_tok(classify(w), lex_from(words, i + 1))
        }
    }
}

#[via_fn]
proof fn lex_from_dec(words: Seq<Seq<char>>, i: int) {
    if 0 <= i < words.len() {
        lemma_quote_end_bounds(words, i + 1);
    }
}

/// What lexing a whole line yields: its words in order, each mapped to
/// its token, with quoted spans reassembled; `None` on an unterminated
/// quoted string.
pub open spec fn tokenize_spec(line: Seq<char>) -> Option<Seq<AbsToken>> {
    lex_from(split_from(line, 0), 0)
}

/// A joined span is at least as long as its last word.
pub proof fn lemma_join_len(words: Seq<Seq<char>>, i: int, j: int)
    requires
        i <= j,
    ensures
        join_sp(words, i, j).len() >= words[j].len(),
        i < j ==> join_sp(words, i, j).len() >= words[i].len() + 1 + words[j].len(),
    decreases j - i,
{
    if i < j {
        lemma_join_len(words, i + 1, j);
    }
}

/// The position the closing-quote scan stopped at is where `quote_end` points.
pub proof fn lemma_quote_end_scan(words: Seq<Seq<char>>, k: int, j: int)
    requires
        0 <= k <= j <= words.len(),
        forall|m: int| k <= m < j ==> !ends_quote(#[trigger] words[m]),
        j == words.len() || ends_quote(words[j]),
    ensures
        quote_end(words, k) == j,
    decreases j - k,
{
    if k < j {
        lemma_quote_end_scan(words, k + 1, j);
    }
}

/// The running state of the lexing loop: what it has emitted so far,
/// together with the tokens of the remaining words, is the whole lexing.
pub open spec fn lex_invariant(wv: Seq<Seq<char>>, i: int, done: Seq<AbsToken>) -> bool {
    match lex_from(wv, i) {
        Some(ts) => lex_from(wv, 0) == Some(done + ts),
        None => lex_from(wv, 0) is None,
    }
}

/// Emitting one token keeps the lexing-loop state.
pub proof fn lemma_lex_step(
    wv: Seq<Seq<char>>,
    i: int,
    done: Seq<AbsToken>,
    t: AbsToken,
    ni: int,
)
    requires
        lex_invariant(wv, i, done),
        lex_from(wv, i) == cons_tok(t, lex_from(wv, ni)),
    ensures
        lex_invariant(wv, ni, done + seq![t]),
{
    match lex_from(wv, ni) {
        Some(ts) => {
            assert(lex_from(wv, i) == Some(seq![t] + ts));
            assert(done + (seq![t] + ts) =~= (done + seq![t]) + ts);
        },
        None => {
        },
    }
}

/// Is `c` ASCII whitespace, executably.
pub fn is_ws_char(c: char) -> (b: bool)
    ensures
        b == is_ws(c),
{
    c == ' ' || c == '\t' || c == '\n' || c == '\r' || c == '\x0C'
}

/// Does `w` close a quote, executably.
pub fn ends_quote_word(w: &Vec<char>) -> (b: bool)
    ensures
        b == ends_quote(w@),
{
    let l: usize = w.len();
    l > 0 && w[l - 1] == '"'
}

/// The characters of `s`, in order.
pub fn to_chars(s: &str) -> (r: Vec<char>)
    ensures
        r@ == s@,
{
    let n: usize = s.unicode_len();
    let mut r: Vec<char> = Vec::new();
    let mut i: usize = 0;
    proof {
        assert(r@ =~= s@.take(0));
    }
    while i < n
        invariant
            i <= n,
            n == s@.len(),
            r@ == s@.take(i as int),
        decreases n - i,
    {
        let c: char = s.get_char(i);
        r.push(c);
        proof {
            assert(s@.take(i as int).push(s@[i as int]) =~= s@.take(i + 1));
        }
        i = i + 1;
    }
    proof {
        assert(s@.take(n as int) =~= s@);
    }
    r
}

/// The characters of `cs` from `a` up to `b`, as a string.
pub fn string_of_range(cs: &Vec<char>, a: usize, b: usize) -> (r: String)
    requires
        a <= b <= cs@.len(),
    ensures
        r@ == cs@.subrange(a as int, b as int),
{
    let mut r: String = String::new();
    let mut i: usize = a;
    proof {
        assert(r@ =~= cs@.subrange(a as int, a as int));
    }
    while i < b
        invariant
            a <= i <= b <= cs@.len(),
            r@ == cs@.subrange(a as int, i as int),
        decreases b - i,
    {
        push_char(&mut r, cs[i]);
        proof {
            assert(cs@.subrange(a as int, i as int) + seq![cs@[i as int]] =~= cs@.subrange(
                a as int,
                i + 1,
            ));
        }
        i = i + 1;
    }
    r
}

/// The characters of `cs` from `a` up to `b`, as a fresh vector.
pub fn vec_of_range(cs: &Vec<char>, a: usize, b: usize) -> (r: Vec<char>)
    requires
        a <= b <= cs@.len(),
    ensures
        r@ == cs@.subrange(a as int, b as int),
{
    let mut r: Vec<char> = Vec::new();
    let mut i: usize = a;
    proof {
        assert(r@ =~= cs@.subrange(a as int, a as int));
    }
    while i < b
        invariant
            a <= i <= b <= cs@.len(),
            r@ == cs@.subrange(a as int, i as int),
        decreases b - i,
    {
        r.push(cs[i]);
        proof {
            assert(cs@.subrange(a as int, i as int).push(cs@[i as int]) =~= cs@.subrange(
                a as int,
                i + 1,
            ));
        }
        i = i + 1;
    }
    r
}

/// Appends every character of `src` to `dst`.
pub fn extend_chars(dst: &mut Vec<char>, src: &Vec<char>)
    ensures
        final(dst)@ == old(dst)@ + src@,
{
    let n: usize = src.len();
    let mut i: usize = 0;
    proof {
        assert(old(dst)@ + src@.take(0) =~= old(dst)@);
    }
    while i < n
        invariant
            i <= n,
            n == src@.len(),
            dst@ == old(dst)@ + src@.take(i as int),
        decreases n - i,
    {
        dst.push(src[i]);
        proof {
            assert((old(dst)@ + src@.take(i as int)).push(src@[i as int]) =~= old(dst)@
                + src@.take(i + 1));
        }
        i = i + 1;
    }
    proof {
        assert(old(dst)@ + src@.take(n as int) =~= old(dst)@ + src@);
    }
}

/// The words split out of `cs`, in order.
pub fn split_words(cs: &Vec<char>) -> (r: Vec<Vec<char>>)
    ensures
        words_view(r@) == split_from(cs@, 0),
{
    let n: usize = cs.len();
    let mut out: Vec<Vec<char>> = Vec::new();
    let mut i: usize = 0;
    proof {
        assert(words_view(out@) =~= Seq::<Seq<char>>::empty());
        assert(words_view(out@) + split_from(cs@, 0) =~= split_from(cs@, 0));
    }
    while i < n
        invariant
            i <= n,
            n == cs@.len(),
            split_from(cs@, 0) == words_view(out@) + split_from(cs@, i as int),
        decreases n - i,
    {
        if is_ws_char(cs[i]) {
            i = i + 1;
        } else {
            let mut j: usize = i;
            while j < n && !is_ws_char(cs[j])
                invariant
                    i <= j <= n,
                    n == cs@.len(),
                    forall|k: int| i <= k < j ==> !is_ws(#[trigger] cs@[k]),
                decreases n - j,
            {
                j = j + 1;
            }
            proof {
                lemma_wlen_scan(cs@, i as int, j as int);
            }
            let w: Vec<char> = vec_of_range(cs, i, j);
            let ghost out_old = out@;
            out.push(w);
            proof {
                assert(words_view(out@) =~= words_view(out_old) + seq![w@]);
                assert(split_from(cs@, i as int) == seq![w@] + split_from(cs@, j as int));
                assert(words_view(out_old) + (seq![w@] + split_from(cs@, j as int)) =~= (
                words_view(out_old) + seq![w@]) + split_from(cs@, j as int));
            }
            i = j;
        }
    }
    proof {
        assert(words_view(out@) + split_from(cs@, n as int) =~= words_view(out@));
    }
    out
}

/// The token a plain word becomes, executably.
pub fn classify_word(w: &Vec<char>) -> (t: Token)
    ensures
        abs_token(t) == classify(w@),
{
    if parse_i32_chars(w).is_some() {
        let txt = string_of_range(w, 0, w.len());
        proof {
            assert(w@.subrange(0, w@.len() as int) =~= w@);
        }
        Token { id: TokenId::Digit, itself: Some(txt) }
    } else if w.len() == 1 {
        let c: char = w[0];
        proof {
            assert(w@ =~= seq![w@[0]]);
        }
        if c == '+' {
            Token { id: TokenId::Plus, itself: None }
        } else if c == '-' {
            Token { id: TokenId::Minus, itself: None }
        } else if c == '*' {
            Token { id: TokenId::Star, itself: None }
        } else if c == '/' {
            Token { id: TokenId::Slash, itself: None }
        } else if c == ':' {
            Token { id: TokenId::Colon, itself: None }
        } else if c == ';' {
            Token { id: TokenId::Semicolon, itself: None }
        } else {
            let txt = string_of_range(w, 0, w.len());
            proof {
                assert(w@.subrange(0, w@.len() as int) =~= w@);
            }
            Token { id: TokenId::Text, itself: Some(txt) }
        }
    } else {
        proof {
            assert(w@.len() != 1);
        }
        let txt = string_of_range(w, 0, w.len());
        proof {
            assert(w@.subrange(0, w@.len() as int) =~= w@);
        }
        Token { id: TokenId::Text, itself: Some(txt) }
    }
}

/// The tokens of a word sequence; the lexical error on an unterminated
/// quoted string.
pub fn lex_words(words: &Vec<Vec<char>>) -> (r: Result<Vec<Token>, Error>)
    ensures
        match r {
            Ok(ts) => lex_from(words_view(words@), 0) == Some(abs_tokens(ts@)),
            Err(e) => lex_from(words_view(words@), 0) is None && e == Error::LexicalError,
        },
{
    let ghost wv = words_view(words@);
    let n: usize = words.len();
    let mut out: Vec<Token> = Vec::new();
    let mut i: usize = 0;
    proof {
        assert(abs_tokens(out@) =~= Seq::<AbsToken>::empty());
        assert(wv.len() == n);
    }
    while i < n
        invariant
            i <= n,
            n == words@.len(),
            wv == words_view(words@),
            wv.len() == n,
            forall|k: int| 0 <= k < n ==> wv[k] == #[trigger] words@[k]@,
            lex_invariant(wv, i as int, abs_tokens(out@)),
        decreases n - i,
    {
        let ghost done = abs_tokens(out@);
        let w: &Vec<char> = &words[i];
        let wn: usize = w.len();
        proof {
            assert(wv[i as int] == w@);
        }
        if wn > 0 && w[0] == '"' {
            if wn >= 2 && w[wn - 1] == '"' {
                let txt = string_of_range(w, 1, wn - 1);
                let t = Token { id: TokenId::Text, itself: Some(txt) };
                proof {
                    assert(abs_token(t) == text_tok(strip_quotes(wv[i as int])));
                    assert(lex_from(wv, i as int) == cons_tok(
                        text_tok(strip_quotes(wv[i as int])),
                        lex_from(wv, i + 1),
                    ));
                    lemma_lex_step(wv, i as int, done, abs_token(t), i + 1);
                    assert(abs_tokens(out@.push(t)) =~= done + seq![abs_token(t)]);
                }
                out.push(t);
                i = i + 1;
            } else {
                let mut j: usize = i + 1;
                while j < n && !ends_quote_word(&words[j])
                    invariant
                        i + 1 <= j <= n,
                        n == words@.len(),
                        wv == words_view(words@),
                        wv.len() == n,
                        forall|k: int| 0 <= k < n ==> wv[k] == #[trigger] words@[k]@,
                        forall|m: int| i + 1 <= m < j ==> !ends_quote(#[trigger] wv[m]),
                    decreases n - j,
                {
                    j = j + 1;
                }
                proof {
                    lemma_quote_end_scan(wv, i + 1, j as int);
                }
                if j == n {
                    proof {
                        assert(lex_from(wv, i as int) is None);
                    }
                    return Err(Error::LexicalError);
                }
                let mut jv: Vec<char> = vec_of_range(w, 0, wn);
                proof {
                    assert(jv@ =~= wv[i as int]);
                    assert(join_sp(wv, i as int, i as int) == wv[i as int]);
                }
                let mut k: usize = i + 1;
                while k <= j
                    invariant
                        i + 1 <= k <= j + 1,
                        j < n,
                        n == words@.len(),
                        wv == words_view(words@),
                        wv.len() == n,
                        forall|kk: int| 0 <= kk < n ==> wv[kk] == #[trigger] words@[kk]@,
                        jv@ == join_sp(wv, i as int, k - 1),
                    decreases j + 1 - k,
                {
                    jv.push(' ');
                    extend_chars(&mut jv, &words[k]);
                    proof {
                        lemma_join_extend(wv, i as int, k - 1);
                        assert(join_sp(wv, i as int, k - 1) + seq![' '] + wv[k as int] =~= (
                        join_sp(wv, i as int, k - 1).push(' ')) + wv[k as int]);
                    }
                    k = k + 1;
                }
                proof {
                    assert(jv@ == join_sp(wv, i as int, j as int));
                    lemma_join_len(wv, i as int, j as int);
                    assert(wv[j as int].len() >= 1);
                    assert(jv@.len() >= 2);
                }
                let jn: usize = jv.len();
                let txt = string_of_range(&jv, 1, jn - 1);
                let t = Token { id: TokenId::Text, itself: Some(txt) };
                proof {
                    assert(abs_token(t) == text_tok(strip_quotes(join_sp(wv, i as int, j as int))));
                    assert(lex_from(wv, i as int) == cons_tok(
                        text_tok(strip_quotes(join_sp(wv, i as int, j as int))),
                        lex_from(wv, j + 1),
                    ));
                    lemma_lex_step(wv, i as int, done, abs_token(t), j + 1);
                    assert(abs_tokens(out@.push(t)) =~= done + seq![abs_token(t)]);
                }
                out.push(t);
                i = j + 1;
            }
        } else if wn > 0 && w[wn - 1] == '"' {
            proof {
                assert(!starts_quote(wv[i as int]));
                assert(ends_quote(wv[i as int]));
                assert(lex_from(wv, i as int) == lex_from(wv, i + 1));
            }
            i = i + 1;
        } else {
            let t = classify_word(w);
            proof {
                assert(!starts_quote(wv[i as int]));
                assert(!ends_quote(wv[i as int]));
                assert(lex_from(wv, i as int) == cons_tok(classify(wv[i as int]), lex_from(wv, i + 1)));
                lemma_lex_step(wv, i as int, done, abs_token(t), i + 1);
                assert(abs_tokens(out@.push(t)) =~= done + seq![abs_token(t)]);
            }
            out.push(t);
            i = i + 1;
        }
    }
    proof {
        assert(lex_from(wv, n as int) == Some(Seq::<AbsToken>::empty()));
        assert(abs_tokens(out@) + Seq::<AbsToken>::empty() =~= abs_tokens(out@));
    }
    Ok(out)
}

/// The tokens of one input line; the lexical error on an unterminated
/// quoted string.
pub fn tokenize_line(command: &str) -> (r: Result<Vec<Token>, Error>)
    ensures
        match r {
            Ok(ts) => tokenize_spec(command@) == Some(abs_tokens(ts@)),
            Err(e) => tokenize_spec(command@) is None && e == Error::LexicalError,
        },
{
    let cs = to_chars(command);
    let words = split_words(&cs);
    lex_words(&words)
}

} // verus!
