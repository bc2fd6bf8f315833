use vstd::prelude::*;

use crate::parse::ParseError;
use crate::token::{
    is_bool_text, is_digit, is_ident_char, is_ident_start, is_int_text, is_string_text, token_wf,
    tokens_wf, Token, TokenModel,
};

verus! {

/// Whitespace skipped between tokens.
pub open spec fn is_ws(c: char) -> bool {
    c == ' ' || c == '\n' || c == '\t' || c == '\r'
}

/// The first index at or after `i` that does not carry a digit.
pub open spec fn scan_digits_end(s: Seq<char>, i: int) -> int
    decreases s.len() - i,
{
    if 0 <= i < s.len() && is_digit(s[i]) {
        scan_digits_end(s, i + 1)
    } else {
        i
    }
}

/// The first index at or after `i` that does not continue an identifier.
pub open spec fn scan_ident_end(s: Seq<char>, i: int) -> int
    decreases s.len() - i,
{
    if 0 <= i < s.len() && is_ident_char(s[i]) {
        scan_ident_end(s, i + 1)
    } else {
        i
    }
}

/// The first index at or after `i` that carries a double quote, or the
/// end of the text.
pub open spec fn scan_string_end(s: Seq<char>, i: int) -> int
    decreases s.len() - i,
{
    if 0 <= i < s.len() && s[i] != '"' {
        scan_string_end(s, i + 1)
    } else {
        i
    }
}

/// Bounds and content of a digit scan.
pub proof fn lemma_scan_digits(s: Seq<char>, i: int)
    requires
        0 <= i <= s.len(),
    ensures
        i <= scan_digits_end(s, i) <= s.len(),
        forall|q: int| i <= q < scan_digits_end(s, i) ==> is_digit(#[trigger] s[q]),
        scan_digits_end(s, i) < s.len() ==> !is_digit(s[scan_digits_end(s, i)]),
    decreases s.len() - i,
{
    if i < s.len() && is_digit(s[i]) {
        lemma_scan_digits(s, i + 1);
    }
}

/// Bounds and content of an identifier scan.
pub proof fn lemma_scan_ident(s: Seq<char>, i: int)
    requires
        0 <= i <= s.len(),
    ensures
        i <= scan_ident_end(s, i) <= s.len(),
        forall|q: int| i <= q < scan_ident_end(s, i) ==> is_ident_char(#[trigger] s[q]),
        scan_ident_end(s, i) < s.len() ==> !is_ident_char(s[scan_ident_end(s, i)]),
    decreases s.len() - i,
{
    if i < s.len() && is_ident_char(s[i]) {
        lemma_scan_ident(s, i + 1);
    }
}

/// Bounds and content of a string scan.
pub proof fn lemma_scan_string(s: Seq<char>, i: int)
    requires
        0 <= i <= s.len(),
    ensures
        i <= scan_string_end(s, i) <= s.len(),
        forall|q: int| i <= q < scan_string_end(s, i) ==> #[trigger] s[q] != '"',
        scan_string_end(s, i) < s.len() ==> s[scan_string_end(s, i)] == '"',
    decreases s.len() - i,
{
    if i < s.len() && s[i] != '"' {
        lemma_scan_string(s, i + 1);
    }
}

/// Prepend one token to the outcome of lexing a remainder.
pub open spec fn lex_cons(t: TokenModel, rest: Option<Seq<TokenModel>>) -> Option<
    Seq<TokenModel>,
> {
    match rest {
        Some(ts) => Some(seq![t] + ts),
        None => None,
    }
}

/// What lexing the text from position `i` yields: the token stream of
/// the remainder, or nothing on the first character no token can start,
/// an unterminated string, or a dot with no digits after it.
pub open spec fn spec_lex(s: Seq<char>, i: int) -> Option<Seq<TokenModel>>
    decreases s.len() - i,
{
    if i < 0 || i >= s.len() {
        Some(Seq::empty())
    } else {
        let c = s[i];
        if is_ws(c) {
            spec_lex(s, i + 1)
        } else if c == '{' {
            lex_cons(TokenModel::LBrace, spec_lex(s, i + 1))
        } else if c == '}' {
            lex_cons(TokenModel::RBrace, spec_lex(s, i + 1))
        } else if c == '[' {
            lex_cons(TokenModel::LBracket, spec_lex(s, i + 1))
        } else if c == ']' {
            lex_cons(TokenModel::RBracket, spec_lex(s, i + 1))
        } else if c == ':' {
            lex_cons(TokenModel::Colon, spec_lex(s, i + 1))
        } else if c == ',' {
            lex_cons(TokenModel::Comma, spec_lex(s, i + 1))
        } else if c == '"' {
            let e = scan_string_end(s, i + 1);
            if !(i + 1 <= e <= s.len()) {
                None
            } else if e == s.len() {
                None
            } else {
                lex_cons(TokenModel::StrLit(s.subrange(i + 1, e)), spec_lex(s, e + 1))
            }
        } else if is_digit(c) {
            let e = scan_digits_end(s, i);
            if !(i < e <= s.len()) {
                None
            } else if e < s.len() && s[e] == '.' {
                let f = scan_digits_end(s, e + 1);
                if !(e + 1 <= f <= s.len()) {
                    None
                } else if f == e + 1 {
                    None
                } else {
                    lex_cons(TokenModel::FloatLit(s.subrange(i, f)), spec_lex(s, f))
                }
            } else {
                lex_cons(TokenModel::IntLit(s.subrange(i, e)), spec_lex(s, e))
            }
        } else if is_ident_start(c) {
            let e = scan_ident_end(s, i);
            if !(i < e <= s.len()) {
                None
            } else {
                let t = s.subrange(i, e);
                if is_bool_text(t) {
                    lex_cons(TokenModel::BoolLit(t), spec_lex(s, e))
                } else {
                    lex_cons(TokenModel::Ident(t), spec_lex(s, e))
                }
            }
        } else {
            None
        }
    }
}

/// Prepend an already-lexed prefix to the outcome of the remainder.
pub open spec fn lex_prepend(pre: Seq<TokenModel>, rest: Option<Seq<TokenModel>>) -> Option<
    Seq<TokenModel>,
> {
    match rest {
        Some(ts) => Some(pre + ts),
        None => None,
    }
}

/// Moving one token from the remainder to the prefix changes nothing.
proof fn lemma_lex_step(pre: Seq<TokenModel>, t: TokenModel, rest: Option<Seq<TokenModel>>)
    ensures
        lex_prepend(pre, lex_cons(t, rest)) == lex_prepend(pre.push(t), rest),
{
    match rest {
        Some(ts) => {
            assert(pre + (seq![t] + ts) =~= pre.push(t) + ts);
        },
        None => {},
    }
}

fn ws_char(c: char) -> (b: bool)
    ensures
        b == is_ws(c),
{
    c == ' ' || c == '\n' || c == '\t' || c == '\r'
}

fn digit_char(c: char) -> (b: bool)
    ensures
        b == is_digit(c),
{
    '0' <= c && c <= '9'
}

fn ident_start_char(c: char) -> (b: bool)
    ensures
        b == is_ident_start(c),
{
    ('a' <= c && c <= 'z') || ('A' <= c && c <= 'Z') || c == '_'
}

fn ident_continue_char(c: char) -> (b: bool)
    ensures
        b == is_ident_char(c),
{
    ident_start_char(c) || digit_char(c)
}

/// Split the input text into tokens.
///
/// Whitespace separates tokens and is dropped. The result is `Ok`
/// exactly when `spec_lex` accepts the whole text, and it holds the
/// token stream `spec_lex` names, every token of it well-formed. The
/// text is refused at the first character no token can start, at an
/// unterminated string literal, and at a fraction dot with no digits
/// after it.
#[verifier::loop_isolation(false)]
pub fn tokenize(s: &str) -> (r: Result<Vec<Token>, ParseError>)
    ensures
        match r {
            Ok(v) => spec_lex(s@, 0) == Some(v.deep_view()) && tokens_wf(v.deep_view()),
            Err(_) => spec_lex(s@, 0) is None,
        },
{
    let n = s.unicode_len();
    let mut out: Vec<Token> = Vec::new();
    let mut pos: usize = 0;
    while pos < n
        invariant
            pos <= n,
            n == s@.len(),
            spec_lex(s@, 0) == lex_prepend(out.deep_view(), spec_lex(s@, pos as int)),
            tokens_wf(out.deep_view()),
        decreases n - pos,
    {
        let c = s.get_char(pos);
        if ws_char(c) {
            pos += 1;
        } else if c == '{' || c == '}' || c == '[' || c == ']' || c == ':' || c == ',' {
            let t = if c == '{' {
                Token::LBrace
            } else if c == '}' {
                Token::RBrace
            } else if c == '[' {
                Token::LBracket
            } else if c == ']' {
                Token::RBracket
            } else if c == ':' {
                Token::Colon
            } else {
                Token::Comma
            };
            proof {
                lemma_lex_step(out.deep_view(), t.deep_view(), spec_lex(s@, pos as int + 1));
                assert(out.deep_view().push(t.deep_view()) =~= out.deep_view() + seq![
                    t.deep_view(),
                ]);
            }
            let ghost prev = out.deep_view();
            out.push(t);
            proof {
                assert(out.deep_view() =~= prev.push(out@.last().deep_view()));
            }
            pos += 1;
        } else if c == '"' {
            let mut j = pos + 1;
            while j < n && s.get_char(j) != '"'
                invariant
                    pos + 1 <= j <= n,
                    scan_string_end(s@, pos as int + 1) == scan_string_end(s@, j as int),
                decreases n - j,
            {
                j += 1;
            }
            proof {
                lemma_scan_string(s@, pos as int + 1);
            }
            if j == n {
                return Err(ParseError { msg: String::from_str("unterminated string"), pos });
            }
            let sub = s.substring_char(pos + 1, j);
            let t = Token::StrLit(String::from_str(sub));
            proof {
                assert(scan_string_end(s@, pos as int + 1) == j as int);
                assert(t.deep_view() == TokenModel::StrLit(s@.subrange(pos as int + 1, j as int)));
                assert(token_wf(t.deep_view())) by {
                    assert(forall|q: int|
                        0 <= q < j - (pos + 1) ==> #[trigger] s@.subrange(pos as int + 1, j as int)[q]
                            == s@[pos + 1 + q]);
                }
                lemma_lex_step(out.deep_view(), t.deep_view(), spec_lex(s@, j as int + 1));
            }
            let ghost prev = out.deep_view();
            out.push(t);
            proof {
                assert(out.deep_view() =~= prev.push(out@.last().deep_view()));
            }
            pos = j + 1;
        } else if digit_char(c) {
            let mut e = pos;
            while e < n && digit_char(s.get_char(e))
                invariant
                    pos <= e <= n,
                    scan_digits_end(s@, pos as int) == scan_digits_end(s@, e as int),
                decreases n - e,
            {
                e += 1;
            }
            proof {
                lemma_scan_digits(s@, pos as int);
                assert(scan_digits_end(s@, pos as int) == e as int);
            }
            if e < n && s.get_char(e) == '.' {
                let mut f = e + 1;
                while f < n && digit_char(s.get_char(f))
                    invariant
                        e + 1 <= f <= n,
                        scan_digits_end(s@, e as int + 1) == scan_digits_end(s@, f as int),
                    decreases n - f,
                {
                    f += 1;
                }
                proof {
                    lemma_scan_digits(s@, e as int + 1);
                    assert(scan_digits_end(s@, e as int + 1) == f as int);
                }
                if f == e + 1 {
                    return Err(ParseError { msg: String::from_str("not json"), pos: e });
                }
                let sub = s.substring_char(pos, f);
                let t = Token::FloatLit(String::from_str(sub));
                proof {
                    let txt = s@.subrange(pos as int, f as int);
                    assert(token_wf(t.deep_view())) by {
                        let k = e as int - pos as int;
                        assert(txt[k] == s@[e as int]);
                        assert(is_int_text(txt.subrange(0, k))) by {
                            assert(forall|q: int|
                                0 <= q < k ==> #[trigger] txt.subrange(0, k)[q] == s@[pos + q]);
                        }
                        assert(is_int_text(txt.subrange(k + 1, txt.len() as int))) by {
                            assert(forall|q: int|
                                0 <= q < txt.len() - k - 1 ==> #[trigger] txt.subrange(
                                    k + 1,
                                    txt.len() as int,
                                )[q] == s@[e + 1 + q]);
                        }
                        assert(0 <= k < txt.len() && txt[k] == '.');
                    }
                    lemma_lex_step(out.deep_view(), t.deep_view(), spec_lex(s@, f as int));
                }
                let ghost prev = out.deep_view();
                out.push(t);
                proof {
                    assert(out.deep_view() =~= prev.push(out@.last().deep_view()));
                }
                pos = f;
            } else {
                let sub = s.substring_char(pos, e);
                let t = Token::IntLit(String::from_str(sub));
                proof {
                    assert(token_wf(t.deep_view())) by {
                        assert(forall|q: int|
                            0 <= q < e - pos ==> #[trigger] s@.subrange(pos as int, e as int)[q]
                                == s@[pos + q]);
                    }
                    lemma_lex_step(out.deep_view(), t.deep_view(), spec_lex(s@, e as int));
                }
                let ghost prev = out.deep_view();
                out.push(t);
                proof {
                    assert(out.deep_view() =~= prev.push(out@.last().deep_view()));
                }
                pos = e;
            }
        } else if ident_start_char(c) {
            let mut e = pos;
            while e < n && ident_continue_char(s.get_char(e))
                invariant
                    pos <= e <= n,
                    scan_ident_end(s@, pos as int) == scan_ident_end(s@, e as int),
                decreases n - e,
            {
                e += 1;
            }
            proof {
                lemma_scan_ident(s@, pos as int);
                assert(scan_ident_end(s@, pos as int) == e as int);
            }
            let sub = s.substring_char(pos, e);
            let text = String::from_str(sub);
            let true_text = String::from_str("true");
            let false_text = String::from_str("false");
            let is_bool = text.eq(&true_text) || text.eq(&false_text);
            let t = if is_bool {
                Token::BoolLit(text)
            } else {
                Token::Ident(text)
            };
            proof {
                assert(token_wf(t.deep_view())) by {
                    assert(forall|q: int|
                        0 <= q < e - pos ==> #[trigger] s@.subrange(pos as int, e as int)[q] == s@[
                            pos + q
                        ]);
                    assert(s@.subrange(pos as int, e as int)[0] == s@[pos as int]);
                }
                lemma_lex_step(out.deep_view(), t.deep_view(), spec_lex(s@, e as int));
            }
            let ghost prev = out.deep_view();
            out.push(t);
            proof {
                assert(out.deep_view() =~= prev.push(out@.last().deep_view()));
            }
            pos = e;
        } else {
            return Err(ParseError { msg: String::from_str("not json"), pos });
        }
    }
    proof {
        assert(out.deep_view() + Seq::<TokenModel>::empty() =~= out.deep_view());
    }
    Ok(out)
}

} // verus!
