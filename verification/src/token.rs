//! The tokenizer: from source text to the token stream the parser consumes.
//!
//! Scanning is byte-wise over the text's UTF-8 form. A byte that opens no
//! token makes the whole text unscannable — the result is absent — as does a
//! number with a leading zero or one too large for its 32-bit encoding.

use vstd::prelude::*;
use vstd::string::StringSliceAdditionalSpecFns;

verus! {

/// One token of the surface syntax. An identifier carries its bytes.
#[derive(Debug, Clone, PartialEq, Eq)]
pub enum Token {
    KwInt,
    Int(i32),
    KwBool,
    Bool(bool),
    KwNode,
    KwFunc,
    KwData,
    KwInit,
    Dot,
    Comma,
    At,
    RParen,
    LParen,
    RBrace,
    LBrace,
    RBracket,
    LBracket,
    Plus,
    Minus,
    Astarisk,
    Semicoron,
    Eq,
    Gt,
    Lt,
    Ge,
    Le,
    Eof,
    Id(Vec<u8>),
}

/// The mathematical shape of a token: identifier bytes as a sequence.
pub enum TokenV {
    KwInt,
    Int(i32),
    KwBool,
    Bool(bool),
    KwNode,
    KwFunc,
    KwData,
    KwInit,
    Dot,
    Comma,
    At,
    RParen,
    LParen,
    RBrace,
    LBrace,
    RBracket,
    LBracket,
    Plus,
    Minus,
    Astarisk,
    Semicoron,
    Eq,
    Gt,
    Lt,
    Ge,
    Le,
    Eof,
    Id(Seq<u8>),
}

impl Token {
    /// The mathematical shape of this token.
    pub open spec fn deep(self) -> TokenV {
        match self {
            Token::KwInt => TokenV::KwInt,
            Token::Int(i) => TokenV::Int(i),
            Token::KwBool => TokenV::KwBool,
            Token::Bool(b) => TokenV::Bool(b),
            Token::KwNode => TokenV::KwNode,
            Token::KwFunc => TokenV::KwFunc,
            Token::KwData => TokenV::KwData,
            Token::KwInit => TokenV::KwInit,
            Token::Dot => TokenV::Dot,
            Token::Comma => TokenV::Comma,
            Token::At => TokenV::At,
            Token::RParen => TokenV::RParen,
            Token::LParen => TokenV::LParen,
            Token::RBrace => TokenV::RBrace,
            Token::LBrace => TokenV::LBrace,
            Token::RBracket => TokenV::RBracket,
            Token::LBracket => TokenV::LBracket,
            Token::Plus => TokenV::Plus,
            Token::Minus => TokenV::Minus,
            Token::Astarisk => TokenV::Astarisk,
            Token::Semicoron => TokenV::Semicoron,
            Token::Eq => TokenV::Eq,
            Token::Gt => TokenV::Gt,
            Token::Lt => TokenV::Lt,
            Token::Ge => TokenV::Ge,
            Token::Le => TokenV::Le,
            Token::Eof => TokenV::Eof,
            Token::Id(v) => TokenV::Id(v@),
        }
    }
}

/// The mathematical shape of a token stream.
pub open spec fn deep_tokens(s: Seq<Token>) -> Seq<TokenV>
    decreases s,
{
    if s.len() == 0 {
        Seq::empty()
    } else {
        seq![s[0].deep()] + deep_tokens(s.drop_first())
    }
}

/// `deep_tokens` maps element by element.
pub proof fn lemma_deep_tokens_index(s: Seq<Token>)
    ensures
        deep_tokens(s).len() == s.len(),
        forall|k: int| 0 <= k < s.len() ==> #[trigger] deep_tokens(s)[k] == s[k].deep(),
    decreases s,
{
    if s.len() > 0 {
        lemma_deep_tokens_index(s.drop_first());
        assert forall|k: int| 0 <= k < s.len() implies #[trigger] deep_tokens(s)[k] == s[k].deep()
        by {
            if k > 0 {
                assert(deep_tokens(s)[k] == deep_tokens(s.drop_first())[k - 1]);
                assert(s.drop_first()[k - 1] == s[k]);
            }
        }
    }
}

/// The bytes that scan as whitespace: the byte values whose one-byte
/// character form is a whitespace character.
pub open spec fn is_ws(b: u8) -> bool {
    b == 9 || b == 10 || b == 11 || b == 12 || b == 13 || b == 32 || b == 133 || b == 160
}

/// A decimal digit.
pub open spec fn is_digit(b: u8) -> bool {
    48 <= b <= 57
}

/// A letter.
pub open spec fn is_alpha(b: u8) -> bool {
    (65 <= b <= 90) || (97 <= b <= 122)
}

/// A letter or digit: what may continue an identifier or follow a number.
pub open spec fn is_alnum(b: u8) -> bool {
    is_digit(b) || is_alpha(b)
}

/// The position just after a run of digits starting at `j`.
pub open spec fn digits_end(v: Seq<u8>, j: int) -> int
    decreases v.len() - j,
{
    if 0 <= j < v.len() && is_digit(v[j]) {
        digits_end(v, j + 1)
    } else {
        j
    }
}

/// The position just after a run of letters and digits starting at `j`.
pub open spec fn ident_end(v: Seq<u8>, j: int) -> int
    decreases v.len() - j,
{
    if 0 <= j < v.len() && is_alnum(v[j]) {
        ident_end(v, j + 1)
    } else {
        j
    }
}

/// The decimal value of the digits `v[st..ed]`, most significant first.
pub open spec fn digits_val(v: Seq<u8>, st: int, ed: int) -> int
    decreases ed - st,
{
    if st >= ed {
        0
    } else {
        digits_val(v, st, ed - 1) * 10 + (v[ed - 1] - 48)
    }
}

/// The keyword a run of letters spells, if any.
pub open spec fn kw_of(s: Seq<u8>) -> Option<TokenV> {
    if s == seq![73u8, 110u8, 116u8] {
        Option::Some(TokenV::KwInt)
    } else if s == seq![66u8, 111u8, 111u8, 108u8] {
        Option::Some(TokenV::KwBool)
    } else if s == seq![105u8, 110u8, 105u8, 116u8] {
        Option::Some(TokenV::KwInit)
    } else if s == seq![100u8, 97u8, 116u8, 97u8] {
        Option::Some(TokenV::KwData)
    } else if s == seq![110u8, 111u8, 100u8, 101u8] {
        Option::Some(TokenV::KwNode)
    } else if s == seq![102u8, 117u8, 110u8, 99u8] {
        Option::Some(TokenV::KwFunc)
    } else {
        Option::None
    }
}

/// The number token starting at `start`, and how many bytes it spans: a
/// lone zero, or a run of digits with no leading zero whose value fits in
/// 32 bits. Anything else — a leading zero followed by more, or a value too
/// large — scans as nothing.
pub open spec fn spec_num(v: Seq<u8>, start: int) -> Option<(int, TokenV)> {
    if v[start] == 48 {
        if start + 1 < v.len() && is_alnum(v[start + 1]) {
            Option::None
        } else {
            Option::Some((1, TokenV::Int(0)))
        }
    } else {
        let ed = digits_end(v, start + 1);
        if digits_val(v, start, ed) <= i32::MAX {
            Option::Some((ed - start, TokenV::Int(digits_val(v, start, ed) as i32)))
        } else {
            Option::None
        }
    }
}

/// The token stream of `v` from position `i` on, appended to `acc`: the
/// scan of the remaining text, ending in `Eof`, or nothing if a byte opens
/// no token.
pub open spec fn spec_tokenize(v: Seq<u8>, i: int, acc: Seq<TokenV>) -> Option<Seq<TokenV>>
    decreases v.len() - i,
{
    if i < 0 {
        Option::None
    } else if i >= v.len() {
        Option::Some(acc.push(TokenV::Eof))
    } else {
        let c = v[i];
        if is_ws(c) {
            spec_tokenize(v, i + 1, acc)
        } else if c == 46 {
            spec_tokenize(v, i + 1, acc.push(TokenV::Dot))
        } else if c == 44 {
            spec_tokenize(v, i + 1, acc.push(TokenV::Comma))
        } else if c == 40 {
            spec_tokenize(v, i + 1, acc.push(TokenV::RParen))
        } else if c == 41 {
            spec_tokenize(v, i + 1, acc.push(TokenV::LParen))
        } else if c == 123 {
            spec_tokenize(v, i + 1, acc.push(TokenV::RBrace))
        } else if c == 125 {
            spec_tokenize(v, i + 1, acc.push(TokenV::LBrace))
        } else if c == 91 {
            spec_tokenize(v, i + 1, acc.push(TokenV::RBracket))
        } else if c == 93 {
            spec_tokenize(v, i + 1, acc.push(TokenV::LBracket))
        } else if c == 43 {
            spec_tokenize(v, i + 1, acc.push(TokenV::Plus))
        } else if c == 45 {
            spec_tokenize(v, i + 1, acc.push(TokenV::Minus))
        } else if c == 42 {
            spec_tokenize(v, i + 1, acc.push(TokenV::Astarisk))
        } else if c == 59 {
            spec_tokenize(v, i + 1, acc.push(TokenV::Semicoron))
        } else if c == 61 {
            if i + 1 < v.len() && v[i + 1] == 62 {
                spec_tokenize(v, i + 2, acc.push(TokenV::Ge))
            } else {
                spec_tokenize(v, i + 1, acc.push(TokenV::Eq))
            }
        } else if c == 62 {
            spec_tokenize(v, i + 1, acc.push(TokenV::Gt))
        } else if c == 60 {
            if i + 1 < v.len() && v[i + 1] == 61 {
                spec_tokenize(v, i + 2, acc.push(TokenV::Le))
            } else {
                spec_tokenize(v, i + 1, acc.push(TokenV::Lt))
            }
        } else if is_digit(c) {
            match spec_num(v, i) {
                Option::Some((len, tok)) => {
                    if len >= 1 && i + len <= v.len() {
                        spec_tokenize(v, i + len, acc.push(tok))
                    } else {
                        Option::None
                    }
                },
                Option::None => Option::None,
            }
        } else if is_alpha(c) {
            let j = ident_end(v, i + 1);
            if i < j <= v.len() {
                let word = v.subrange(i, j);
                match kw_of(word) {
                    Option::Some(tok) => spec_tokenize(v, j, acc.push(tok)),
                    Option::None => spec_tokenize(v, j, acc.push(TokenV::Id(word))),
                }
            } else {
                Option::None
            }
        } else {
            Option::None
        }
    }
}

/// Appending a token appends its shape.
proof fn lemma_deep_tokens_push(s: Seq<Token>, x: Token)
    ensures
        deep_tokens(s.push(x)) =~= deep_tokens(s) + seq![x.deep()],
{
    lemma_deep_tokens_index(s);
    lemma_deep_tokens_index(s.push(x));
    assert forall|j: int| 0 <= j < s.len() + 1 implies #[trigger] deep_tokens(s.push(x))[j] == (
    deep_tokens(s) + seq![x.deep()])[j] by {
        if j < s.len() {
            assert(s.push(x)[j] == s[j]);
        } else {
            assert(s.push(x)[j] == x);
        }
    }
}

/// Whether a byte scans as whitespace.
fn ws_x(b: u8) -> (r: bool)
    ensures
        r == is_ws(b),
{
    b == 9 || b == 10 || b == 11 || b == 12 || b == 13 || b == 32 || b == 133 || b == 160
}

/// Whether a byte is a decimal digit.
fn digit_x(b: u8) -> (r: bool)
    ensures
        r == is_digit(b),
{
    48 <= b && b <= 57
}

/// Whether a byte is a letter.
fn alpha_x(b: u8) -> (r: bool)
    ensures
        r == is_alpha(b),
{
    (65 <= b && b <= 90) || (97 <= b && b <= 122)
}

/// Whether a byte is a letter or digit.
fn alnum_x(b: u8) -> (r: bool)
    ensures
        r == is_alnum(b),
{
    digit_x(b) || alpha_x(b)
}

/// The keyword a run of letters spells, if any: exactly [`kw_of`].
fn some_if_kw(s: &[u8]) -> (r: Option<Token>)
    ensures
        match kw_of(s@) {
            Option::Some(tv) => r matches Some(t) && t.deep() == tv,
            Option::None => r is None,
        },
{
    if s.len() == 3 && s[0] == 73 && s[1] == 110 && s[2] == 116 {
        proof {
            assert(s@ =~= seq![73u8, 110u8, 116u8]);
        }
        return Option::Some(Token::KwInt);
    }
    if s.len() == 4 && s[0] == 66 && s[1] == 111 && s[2] == 111 && s[3] == 108 {
        proof {
            assert(s@ =~= seq![66u8, 111u8, 111u8, 108u8]);
        }
        return Option::Some(Token::KwBool);
    }
    if s.len() == 4 && s[0] == 105 && s[1] == 110 && s[2] == 105 && s[3] == 116 {
        proof {
            assert(s@ =~= seq![105u8, 110u8, 105u8, 116u8]);
        }
        return Option::Some(Token::KwInit);
    }
    if s.len() == 4 && s[0] == 100 && s[1] == 97 && s[2] == 116 && s[3] == 97 {
        proof {
            assert(s@ =~= seq![100u8, 97u8, 116u8, 97u8]);
        }
        return Option::Some(Token::KwData);
    }
    if s.len() == 4 && s[0] == 110 && s[1] == 111 && s[2] == 100 && s[3] == 101 {
        proof {
            assert(s@ =~= seq![110u8, 111u8, 100u8, 101u8]);
        }
        return Option::Some(Token::KwNode);
    }
    if s.len() == 4 && s[0] == 102 && s[1] == 117 && s[2] == 110 && s[3] == 99 {
        proof {
            assert(s@ =~= seq![102u8, 117u8, 110u8, 99u8]);
        }
        return Option::Some(Token::KwFunc);
    }
    proof {
        if s@ == seq![73u8, 110u8, 116u8] {
            assert(s@[0] == 73 && s@[1] == 110 && s@[2] == 116);
        }
        if s@ == seq![66u8, 111u8, 111u8, 108u8] {
            assert(s@[0] == 66 && s@[1] == 111 && s@[2] == 111 && s@[3] == 108);
        }
        if s@ == seq![105u8, 110u8, 105u8, 116u8] {
            assert(s@[0] == 105 && s@[1] == 110 && s@[2] == 105 && s@[3] == 116);
        }
        if s@ == seq![100u8, 97u8, 116u8, 97u8] {
            assert(s@[0] == 100 && s@[1] == 97 && s@[2] == 116 && s@[3] == 97);
        }
        if s@ == seq![110u8, 111u8, 100u8, 101u8] {
            assert(s@[0] == 110 && s@[1] == 111 && s@[2] == 100 && s@[3] == 101);
        }
        if s@ == seq![102u8, 117u8, 110u8, 99u8] {
            assert(s@[0] == 102 && s@[1] == 117 && s@[2] == 110 && s@[3] == 99);
        }
    }
    Option::None
}

/// Scans the number starting at `start`: exactly [`spec_num`], its length
/// in bytes beside it.
pub fn tokenize_num(start: usize, v: &[u8]) -> (r: Option<(usize, Token)>)
    requires
        start < v@.len(),
        is_digit(v@[start as int]),
    ensures
        match spec_num(v@, start as int) {
            Option::Some((len, tok)) => (match r {
                Option::Some((l2, t2)) => l2 == len && t2.deep() == tok,
                Option::None => false,
            }),
            Option::None => r is None,
        },
{
    let n = v.len();
    if v[start] == 48 {
        if start + 1 < n && alnum_x(v[start + 1]) {
            Option::None
        } else {
            Option::Some((1, Token::Int(0)))
        }
    } else {
        let mut i = start + 1;
        let mut val: u64 = (v[start] - 48) as u64;
        proof {
            assert(digits_val(v@, start as int, start as int) == 0);
            assert(digits_val(v@, start as int, start + 1) == v@[start as int] - 48);
        }
        while i < n && digit_x(v[i])
            invariant
                start < i <= n,
                n == v@.len(),
                digits_end(v@, start + 1) == digits_end(v@, i as int),
                val <= i32::MAX ==> val == digits_val(v@, start as int, i as int),
                val > i32::MAX ==> digits_val(v@, start as int, i as int) > i32::MAX,
            decreases n - i,
        {
            let d = v[i] - 48;
            if val <= i32::MAX as u64 {
                val = val * 10 + (d as u64);
            }
            proof {
                assert(digits_val(v@, start as int, i + 1) == digits_val(v@, start as int, i as int)
                    * 10 + (v@[i as int] - 48));
            }
            i = i + 1;
        }
        proof {
            assert(digits_end(v@, i as int) == i);
        }
        if val <= i32::MAX as u64 {
            Option::Some((i - start, Token::Int(val as i32)))
        } else {
            Option::None
        }
    }
}

/// Scans the whole text: exactly [`spec_tokenize`] over its UTF-8 form,
/// from the beginning, with nothing accumulated.
pub fn tokenize(input: &str) -> (r: Option<Vec<Token>>)
    ensures
        match spec_tokenize(input.spec_bytes(), 0, Seq::empty()) {
            Option::Some(toks) => (match r {
                Option::Some(out) => deep_tokens(out@) == toks,
                Option::None => false,
            }),
            Option::None => r is None,
        },
{
    let v: &[u8] = input.as_bytes();
    let ghost bytes = v@;
    let n = v.len();
    let mut ret: Vec<Token> = Vec::new();
    let mut i: usize = 0;
    proof {
        assert(deep_tokens(ret@) =~= Seq::<TokenV>::empty());
    }
    while i < n
        invariant
            i <= n,
            n == bytes.len(),
            bytes == v@,
            bytes == input.spec_bytes(),
            spec_tokenize(bytes, 0, Seq::empty()) == spec_tokenize(
                bytes,
                i as int,
                deep_tokens(ret@),
            ),
        decreases n - i,
    {
        let c = v[i];
        let ghost acc0 = deep_tokens(ret@);
        if ws_x(c) {
            i = i + 1;
        } else if c == 46 {
            proof {
                lemma_deep_tokens_push(ret@, Token::Dot);
            }
            ret.push(Token::Dot);
            i = i + 1;
            proof {
                assert(deep_tokens(ret@) =~= acc0.push(TokenV::Dot));
            }
        } else if c == 44 {
            proof {
                lemma_deep_tokens_push(ret@, Token::Comma);
            }
            ret.push(Token::Comma);
            i = i + 1;
            proof {
                assert(deep_tokens(ret@) =~= acc0.push(TokenV::Comma));
            }
        } else if c == 40 {
            proof {
                lemma_deep_tokens_push(ret@, Token::RParen);
            }
            ret.push(Token::RParen);
            i = i + 1;
            proof {
                assert(deep_tokens(ret@) =~= acc0.push(TokenV::RParen));
            }
        } else if c == 41 {
            proof {
                lemma_deep_tokens_push(ret@, Token::LParen);
            }
            ret.push(Token::LParen);
            i = i + 1;
            proof {
                assert(deep_tokens(ret@) =~= acc0.push(TokenV::LParen));
            }
        } else if c == 123 {
            proof {
                lemma_deep_tokens_push(ret@, Token::RBrace);
            }
            ret.push(Token::RBrace);
            i = i + 1;
            proof {
                assert(deep_tokens(ret@) =~= acc0.push(TokenV::RBrace));
            }
        } else if c == 125 {
            proof {
                lemma_deep_tokens_push(ret@, Token::LBrace);
            }
            ret.push(Token::LBrace);
            i = i + 1;
            proof {
                assert(deep_tokens(ret@) =~= acc0.push(TokenV::LBrace));
            }
        } else if c == 91 {
            proof {
                lemma_deep_tokens_push(ret@, Token::RBracket);
            }
            ret.push(Token::RBracket);
            i = i + 1;
            proof {
                assert(deep_tokens(ret@) =~= acc0.push(TokenV::RBracket));
            }
        } else if c == 93 {
            proof {
                lemma_deep_tokens_push(ret@, Token::LBracket);
            }
            ret.push(Token::LBracket);
            i = i + 1;
            proof {
                assert(deep_tokens(ret@) =~= acc0.push(TokenV::LBracket));
            }
        } else if c == 43 {
            proof {
                lemma_deep_tokens_push(ret@, Token::Plus);
            }
            ret.push(Token::Plus);
            i = i + 1;
            proof {
                assert(deep_tokens(ret@) =~= acc0.push(TokenV::Plus));
            }
        } else if c == 45 {
            proof {
                lemma_deep_tokens_push(ret@, Token::Minus);
            }
            ret.push(Token::Minus);
            i = i + 1;
            proof {
                assert(deep_tokens(ret@) =~= acc0.push(TokenV::Minus));
            }
        } else if c == 42 {
            proof {
                lemma_deep_tokens_push(ret@, Token::Astarisk);
            }
            ret.push(Token::Astarisk);
            i = i + 1;
            proof {
                assert(deep_tokens(ret@) =~= acc0.push(TokenV::Astarisk));
            }
        } else if c == 59 {
            proof {
                lemma_deep_tokens_push(ret@, Token::Semicoron);
            }
            ret.push(Token::Semicoron);
            i = i + 1;
            proof {
                assert(deep_tokens(ret@) =~= acc0.push(TokenV::Semicoron));
            }
        } else if c == 61 {
            if i + 1 < n && v[i + 1] == 62 {
                proof {
                    lemma_deep_tokens_push(ret@, Token::Ge);
                }
                ret.push(Token::Ge);
                i = i + 2;
                proof {
                    assert(deep_tokens(ret@) =~= acc0.push(TokenV::Ge));
                }
            } else {
                proof {
                    lemma_deep_tokens_push(ret@, Token::Eq);
                }
                ret.push(Token::Eq);
                i = i + 1;
                proof {
                    assert(deep_tokens(ret@) =~= acc0.push(TokenV::Eq));
                }
            }
        } else if c == 62 {
            proof {
                lemma_deep_tokens_push(ret@, Token::Gt);
            }
            ret.push(Token::Gt);
            i = i + 1;
            proof {
                assert(deep_tokens(ret@) =~= acc0.push(TokenV::Gt));
            }
        } else if c == 60 {
            if i + 1 < n && v[i + 1] == 61 {
                proof {
                    lemma_deep_tokens_push(ret@, Token::Le);
                }
                ret.push(Token::Le);
                i = i + 2;
                proof {
                    assert(deep_tokens(ret@) =~= acc0.push(TokenV::Le));
                }
            } else {
                proof {
                    lemma_deep_tokens_push(ret@, Token::Lt);
                }
                ret.push(Token::Lt);
                i = i + 1;
                proof {
                    assert(deep_tokens(ret@) =~= acc0.push(TokenV::Lt));
                }
            }
        } else if digit_x(c) {
            match tokenize_num(i, v) {
                Option::Some((len, tkn)) => {
                    proof {
                        lemma_deep_tokens_push(ret@, tkn);
                        let sn = spec_num(bytes, i as int);
                        assert(sn matches Option::Some((l2, _)) && l2 == len);
                        assert(len >= 1 && i + len <= n) by {
                            if bytes[i as int] == 48 {
                            } else {
                                lemma_digits_end_bounds(bytes, i + 1);
                            }
                        }
                    }
                    let ghost tv = tkn.deep();
                    ret.push(tkn);
                    i = i + len;
                    proof {
                        assert(deep_tokens(ret@) =~= acc0.push(tv));
                    }
                },
                Option::None => {
                    return Option::None;
                },
            }
        } else if alpha_x(c) {
            let mut j = i + 1;
            while j < n && alnum_x(v[j])
                invariant
                    i < j <= n,
                    n == v@.len(),
                    bytes == v@,
                    ident_end(bytes, i + 1) == ident_end(bytes, j as int),
                decreases n - j,
            {
                j = j + 1;
            }
            proof {
                assert(ident_end(bytes, j as int) == j);
            }
            let word_sl: &[u8] = slice_range(v, i, j);
            let tkn: Token = match some_if_kw(word_sl) {
                Option::Some(kw) => kw,
                Option::None => {
                    let mut word: Vec<u8> = Vec::new();
                    let mut k = i;
                    while k < j
                        invariant
                            i <= k <= j <= n,
                            n == v@.len(),
                            word@ =~= v@.subrange(i as int, k as int),
                        decreases j - k,
                    {
                        let ghost w0 = word@;
                        word.push(v[k]);
                        proof {
                            assert(v@.subrange(i as int, k + 1) =~= v@.subrange(
                                i as int,
                                k as int,
                            ).push(v@[k as int]));
                            assert(word@ =~= v@.subrange(i as int, k + 1));
                        }
                        k = k + 1;
                    }
                    Token::Id(word)
                },
            };
            proof {
                lemma_deep_tokens_push(ret@, tkn);
                assert(word_sl@ == bytes.subrange(i as int, j as int));
            }
            let ghost tv = tkn.deep();
            ret.push(tkn);
            i = j;
            proof {
                assert(deep_tokens(ret@) =~= acc0.push(tv));
            }
        } else {
            return Option::None;
        }
    }
    proof {
        lemma_deep_tokens_push(ret@, Token::Eof);
    }
    let ghost accn = deep_tokens(ret@);
    ret.push(Token::Eof);
    proof {
        assert(deep_tokens(ret@) =~= accn.push(TokenV::Eof));
    }
    Option::Some(ret)
}

/// The sub-slice `v[st..ed]`.
fn slice_range<'a>(v: &'a [u8], st: usize, ed: usize) -> (r: &'a [u8])
    requires
        st <= ed <= v@.len(),
    ensures
        r@ == v@.subrange(st as int, ed as int),
{
    &v[st..ed]
}

/// A digit run ends within the text and after where it starts.
proof fn lemma_digits_end_bounds(v: Seq<u8>, j: int)
    requires
        0 <= j <= v.len(),
    ensures
        j <= digits_end(v, j) <= v.len(),
    decreases v.len() - j,
{
    if j < v.len() && is_digit(v[j]) {
        lemma_digits_end_bounds(v, j + 1);
    }
}

} // verus!
