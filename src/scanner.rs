use vstd::prelude::*;
use vstd::slice::slice_subrange;
use vstd::std_specs::iter::IteratorSpec;

verus! {

/// One lexical unit of a JSON text.
#[derive(Debug, PartialEq, Eq)]
pub enum Token {
    OpenBrace,
    ClosingBrace,
    OpenBracket,
    ClosingBracket,
    Comma,
    Colon,
    /// The characters between the quotes, escape sequences left as written.
    StringLiteral(String),
    /// The text of a number, as it stood in the input.
    Number(String),
    True,
    False,
    Null,
}

/// The mathematical model of a token.
pub enum TokenView {
    OpenBrace,
    ClosingBrace,
    OpenBracket,
    ClosingBracket,
    Comma,
    Colon,
    StringLiteral(Seq<char>),
    Number(Seq<char>),
    True,
    False,
    Null,
}

impl View for Token {
    type V = TokenView;

    open spec fn view(&self) -> TokenView {
        match self {
            Token::OpenBrace => TokenView::OpenBrace,
            Token::ClosingBrace => TokenView::ClosingBrace,
            Token::OpenBracket => TokenView::OpenBracket,
            Token::ClosingBracket => TokenView::ClosingBracket,
            Token::Comma => TokenView::Comma,
            Token::Colon => TokenView::Colon,
            Token::StringLiteral(s) => TokenView::StringLiteral(s@),
            Token::Number(s) => TokenView::Number(s@),
            Token::True => TokenView::True,
            Token::False => TokenView::False,
            Token::Null => TokenView::Null,
        }
    }
}

/// The model of a token sequence.
pub open spec fn tokens_view(ts: Seq<Token>) -> Seq<TokenView> {
    ts.map_values(|t: Token| t@)
}

/// Why a text could not be scanned.
#[derive(Debug, PartialEq, Eq)]
pub enum ScanError {
    /// A run of digits, dots and a leading minus that is not a number.
    InvalidNumber(String),
    /// The input ended inside a string.
    UnterminatedString,
    /// A word other than `true`, `false` and `null`.
    UnexpectedIdentifier(String),
    /// A character that starts no token.
    InvalidCharacter(char),
}

pub enum ScanErrorView {
    InvalidNumber(Seq<char>),
    UnterminatedString,
    UnexpectedIdentifier(Seq<char>),
    InvalidCharacter(char),
}

impl View for ScanError {
    type V = ScanErrorView;

    open spec fn view(&self) -> ScanErrorView {
        match self {
            ScanError::InvalidNumber(s) => ScanErrorView::InvalidNumber(s@),
            ScanError::UnterminatedString => ScanErrorView::UnterminatedString,
            ScanError::UnexpectedIdentifier(s) => ScanErrorView::UnexpectedIdentifier(s@),
            ScanError::InvalidCharacter(c) => ScanErrorView::InvalidCharacter(*c),
        }
    }
}

/// The characters with the Unicode property White_Space.
pub open spec fn is_space(c: char) -> bool {
    ||| '\t' <= c <= '\r'
    ||| c == ' '
    ||| c == '\u{85}'
    ||| c == '\u{a0}'
    ||| c == '\u{1680}'
    ||| '\u{2000}' <= c <= '\u{200a}'
    ||| c == '\u{2028}'
    ||| c == '\u{2029}'
    ||| c == '\u{202f}'
    ||| c == '\u{205f}'
    ||| c == '\u{3000}'
}

pub open spec fn is_digit(c: char) -> bool {
    '0' <= c <= '9'
}

/// The characters that continue a number once it has begun.
pub open spec fn is_number_char(c: char) -> bool {
    is_digit(c) || c == '.'
}

/// Whether Unicode counts `c` as alphabetic or numeric.
pub uninterp spec fn alphanumeric(c: char) -> bool;

/// The characters that continue a word: among ASCII characters the letters
/// and the digits, beyond ASCII what Unicode counts as alphabetic or numeric.
pub open spec fn is_word_char(c: char) -> bool {
    if (c as u32) < 128 {
        'a' <= c <= 'z' || 'A' <= c <= 'Z' || is_digit(c)
    } else {
        alphanumeric(c)
    }
}

/// The token of a one-character punctuation mark.
pub open spec fn punctuation(c: char) -> Option<TokenView> {
    if c == '{' {
        Some(TokenView::OpenBrace)
    } else if c == '}' {
        Some(TokenView::ClosingBrace)
    } else if c == '[' {
        Some(TokenView::OpenBracket)
    } else if c == ']' {
        Some(TokenView::ClosingBracket)
    } else if c == ',' {
        Some(TokenView::Comma)
    } else if c == ':' {
        Some(TokenView::Colon)
    } else {
        None
    }
}

/// The token of a keyword.
pub open spec fn keyword(w: Seq<char>) -> Option<TokenView> {
    if w == seq!['t', 'r', 'u', 'e'] {
        Some(TokenView::True)
    } else if w == seq!['f', 'a', 'l', 's', 'e'] {
        Some(TokenView::False)
    } else if w == seq!['n', 'u', 'l', 'l'] {
        Some(TokenView::Null)
    } else {
        None
    }
}

/// `s` without its leading minus, if it has one.
pub open spec fn unsigned_part(s: Seq<char>) -> Seq<char> {
    if s.len() > 0 && s[0] == '-' {
        s.drop_first()
    } else {
        s
    }
}

/// Whether a decimal floating-point reader accepts `s`, a text made of an
/// optional leading minus followed by digits and dots: at least one digit, at
/// most one dot.
pub open spec fn is_number_text(s: Seq<char>) -> bool {
    let body = unsigned_part(s);
    &&& exists|k: int| 0 <= k < body.len() && is_digit(#[trigger] body[k])
    &&& forall|a: int, b: int|
        0 <= a < b < body.len() && #[trigger] body[a] == '.' ==> #[trigger] body[b] != '.'
}

/// How many digits and dots follow from position `i` on.
pub open spec fn number_run(s: Seq<char>, i: int) -> nat
    decreases s.len() - i,
{
    if 0 <= i < s.len() && is_number_char(s[i]) {
        1 + number_run(s, i + 1)
    } else {
        0
    }
}

/// How many word characters follow from position `i` on.
pub open spec fn word_run(s: Seq<char>, i: int) -> nat
    decreases s.len() - i,
{
    if 0 <= i < s.len() && is_word_char(s[i]) {
        1 + word_run(s, i + 1)
    } else {
        0
    }
}

/// How many characters from position `i` on come before the closing quote of a
/// string, a backslash taking the character after it into the string; `None`
/// where the input ends first.
pub open spec fn string_run(s: Seq<char>, i: int) -> Option<nat>
    decreases s.len() - i,
{
    if i < 0 || i >= s.len() {
        None
    } else if s[i] == '"' {
        Some(0)
    } else if s[i] == '\\' {
        if i + 1 >= s.len() {
            None
        } else {
            match string_run(s, i + 2) {
                Some(n) => Some(n + 2),
                None => None,
            }
        }
    } else {
        match string_run(s, i + 1) {
            Some(n) => Some(n + 1),
            None => None,
        }
    }
}

pub proof fn lemma_number_run_bound(s: Seq<char>, i: int)
    requires
        0 <= i <= s.len(),
    ensures
        i + number_run(s, i) <= s.len(),
    decreases s.len() - i,
{
    if i < s.len() {
        lemma_number_run_bound(s, i + 1);
    }
}

pub proof fn lemma_word_run_bound(s: Seq<char>, i: int)
    requires
        0 <= i <= s.len(),
    ensures
        i + word_run(s, i) <= s.len(),
    decreases s.len() - i,
{
    if i < s.len() {
        lemma_word_run_bound(s, i + 1);
    }
}

pub proof fn lemma_string_run_bound(s: Seq<char>, i: int)
    requires
        0 <= i,
    ensures
        string_run(s, i) matches Some(n) ==> i + n < s.len() && s[i + n] == '"',
    decreases s.len() - i,
{
    if 0 <= i < s.len() && s[i] != '"' {
        if s[i] == '\\' {
            if i + 1 < s.len() {
                lemma_string_run_bound(s, i + 2);
            }
        } else {
            lemma_string_run_bound(s, i + 1);
        }
    }
}

/// Puts `pre` in front of the tokens of a successful scan.
pub open spec fn prepend(
    pre: Seq<TokenView>,
    r: Result<Seq<TokenView>, ScanErrorView>,
) -> Result<Seq<TokenView>, ScanErrorView> {
    match r {
        Ok(ts) => Ok(pre + ts),
        Err(e) => Err(e),
    }
}

/// The result of scanning `s` from position `i` to its end.
pub open spec fn scan_from(s: Seq<char>, i: int) -> Result<Seq<TokenView>, ScanErrorView>
    decreases s.len() - i,
{
    if i < 0 || i >= s.len() {
        Ok(Seq::empty())
    } else {
        let c = s[i];
        proof {
            lemma_number_run_bound(s, i + 1);
            lemma_word_run_bound(s, i + 1);
            lemma_string_run_bound(s, i + 1);
        }
        if is_space(c) {
            scan_from(s, i + 1)
        } else if punctuation(c) is Some {
            prepend(seq![punctuation(c)->0], scan_from(s, i + 1))
        } else if is_digit(c) || c == '-' {
            let j = i + 1 + number_run(s, i + 1);
            let text = s.subrange(i, j);
            if is_number_text(text) {
                prepend(seq![TokenView::Number(text)], scan_from(s, j))
            } else {
                Err(ScanErrorView::InvalidNumber(text))
            }
        } else if c == '"' {
            match string_run(s, i + 1) {
                Some(n) => prepend(
                    seq![TokenView::StringLiteral(s.subrange(i + 1, i + 1 + n))],
                    scan_from(s, i + 2 + n),
                ),
                None => Err(ScanErrorView::UnterminatedString),
            }
        } else if 'a' <= c <= 'z' {
            let j = i + 1 + word_run(s, i + 1);
            let w = s.subrange(i, j);
            match keyword(w) {
                Some(t) => prepend(seq![t], scan_from(s, j)),
                None => Err(ScanErrorView::UnexpectedIdentifier(w)),
            }
        } else {
            Err(ScanErrorView::InvalidCharacter(c))
        }
    }
}

proof fn lemma_prepend_push(pre: Seq<TokenView>, t: TokenView, r: Result<Seq<TokenView>, ScanErrorView>)
    ensures
        prepend(pre, prepend(seq![t], r)) == prepend(pre.push(t), r),
{
    if let Ok(ts) = r {
        assert(pre + (seq![t] + ts) =~= pre.push(t) + ts);
    }
}

/// The result of scanning the text `s`.
pub open spec fn scan_text(s: Seq<char>) -> Result<Seq<TokenView>, ScanErrorView> {
    scan_from(s, 0)
}

/// Scanning depends on the text alone: scanning equal texts, or one text
/// twice, gives equal results.
pub proof fn lemma_scan_deterministic(a: Seq<char>, b: Seq<char>)
    requires
        a == b,
    ensures
        scan_text(a) == scan_text(b),
{
}


/// Turns a JSON text into its tokens: fails on the first lexical error.
pub fn scan(input: String) -> (r: Result<Vec<Token>, ScanError>)
    ensures
        match r {
            Ok(ts) => scan_text(input@) == Ok::<Seq<TokenView>, ScanErrorView>(tokens_view(ts@)),
            Err(e) => scan_text(input@) == Err::<Seq<TokenView>, ScanErrorView>(e@),
        },
{
    let cs = chars_of(input.as_str());
    let ghost s = cs@;
    let mut tokens: Vec<Token> = Vec::new();
    let mut i: usize = 0;
    while i < cs.len()
        invariant
            s == cs@,
            s == input@,
            i <= cs@.len(),
            scan_text(s) == prepend(tokens_view(tokens@), scan_from(s, i as int)),
        decreases cs@.len() - i,
    {
        let c = cs[i];
        proof {
            lemma_number_run_bound(s, i + 1);
            lemma_word_run_bound(s, i + 1);
            lemma_string_run_bound(s, i + 1);
        }
        let ghost pre = tokens_view(tokens@);
        if is_space_char(c) {
            i = i + 1;
            continue;
        }
        let (token, next) = if c == '{' {
            (Token::OpenBrace, i + 1)
        } else if c == '}' {
            (Token::ClosingBrace, i + 1)
        } else if c == '[' {
            (Token::OpenBracket, i + 1)
        } else if c == ']' {
            (Token::ClosingBracket, i + 1)
        } else if c == ',' {
            (Token::Comma, i + 1)
        } else if c == ':' {
            (Token::Colon, i + 1)
        } else if ('0' <= c && c <= '9') || c == '-' {
            let j = number_end(&cs, i + 1);
            let text = text_of(slice_subrange(cs.as_slice(), i, j));
            if !number_text_ok(&cs, i, j) {
                return Err(ScanError::InvalidNumber(text));
            }
            (Token::Number(text), j)
        } else if c == '"' {
            match string_end(&cs, i + 1) {
                Some(j) => (Token::StringLiteral(text_of(slice_subrange(cs.as_slice(), i + 1, j))), j + 1),
                None => {
                    return Err(ScanError::UnterminatedString);
                },
            }
        } else if 'a' <= c && c <= 'z' {
            let j = word_end(&cs, i + 1);
            match keyword_token(&cs, i, j) {
                Some(t) => (t, j),
                None => {
                    return Err(ScanError::UnexpectedIdentifier(text_of(slice_subrange(cs.as_slice(), i, j))));
                },
            }
        } else {
            return Err(ScanError::InvalidCharacter(c));
        };
        proof {
            assert(scan_from(s, i as int) == prepend(seq![token@], scan_from(s, next as int)));
            lemma_prepend_push(pre, token@, scan_from(s, next as int));
        }
        tokens.push(token);
        proof {
            assert(tokens_view(tokens@) =~= pre.push(token@));
        }
        i = next;
    }
    proof {
        assert(tokens_view(tokens@) + Seq::<TokenView>::empty() =~= tokens_view(tokens@));
    }
    Ok(tokens)
}

fn is_space_char(c: char) -> (r: bool)
    ensures
        r == is_space(c),
{
    ('\t' <= c && c <= '\r') || c == ' ' || c == '\u{85}' || c == '\u{a0}' || c == '\u{1680}'
        || ('\u{2000}' <= c && c <= '\u{200a}') || c == '\u{2028}' || c == '\u{2029}'
        || c == '\u{202f}' || c == '\u{205f}' || c == '\u{3000}'
}

/// The end of the run of digits and dots that starts at `i`.
fn number_end(cs: &Vec<char>, i: usize) -> (j: usize)
    requires
        i <= cs@.len(),
    ensures
        j == i + number_run(cs@, i as int),
{
    let mut j = i;
    while j < cs.len() && (('0' <= cs[j] && cs[j] <= '9') || cs[j] == '.')
        invariant
            i <= j <= cs@.len(),
            number_run(cs@, i as int) == (j - i) + number_run(cs@, j as int),
        decreases cs@.len() - j,
    {
        j = j + 1;
    }
    j
}

/// Whether `c` continues a word.
fn word_char(c: char) -> (r: bool)
    ensures
        r == is_word_char(c),
{
    if (c as u32) < 128 {
        ('a' <= c && c <= 'z') || ('A' <= c && c <= 'Z') || ('0' <= c && c <= '9')
    } else {
        is_alphanumeric(c)
    }
}

/// The end of the run of word characters that starts at `i`.
fn word_end(cs: &Vec<char>, i: usize) -> (j: usize)
    requires
        i <= cs@.len(),
    ensures
        j == i + word_run(cs@, i as int),
{
    let mut j = i;
    while j < cs.len() && word_char(cs[j])
        invariant
            i <= j <= cs@.len(),
            word_run(cs@, i as int) == (j - i) + word_run(cs@, j as int),
        decreases cs@.len() - j,
    {
        j = j + 1;
    }
    j
}

/// The position of the quote that closes a string whose body starts at `i`.
fn string_end(cs: &Vec<char>, i: usize) -> (r: Option<usize>)
    requires
        i <= cs@.len(),
    ensures
        r == (match string_run(cs@, i as int) {
            Some(n) => Some((i + n) as usize),
            None => None::<usize>,
        }),
{
    let mut j = i;
    while j < cs.len()
        invariant
            i <= j <= cs@.len(),
            string_run(cs@, i as int) == (match string_run(cs@, j as int) {
                Some(n) => Some(((j - i) + n) as nat),
                None => None::<nat>,
            }),
        decreases cs@.len() - j,
    {
        if cs[j] == '"' {
            return Some(j);
        } else if cs[j] == '\\' {
            if j + 1 >= cs.len() {
                return None;
            }
            j = j + 2;
        } else {
            j = j + 1;
        }
    }
    None
}

/// Whether the characters from `start` to `end` are a number.
fn number_text_ok(cs: &Vec<char>, start: usize, end: usize) -> (r: bool)
    requires
        start < end <= cs@.len(),
    ensures
        r == is_number_text(cs@.subrange(start as int, end as int)),
{
    let ghost text = cs@.subrange(start as int, end as int);
    let b = if cs[start] == '-' {
        start + 1
    } else {
        start
    };
    let ghost body = cs@.subrange(b as int, end as int);
    assert(body =~= unsigned_part(text));
    let mut seen_digit = false;
    let mut seen_dot = false;
    let mut k = b;
    while k < end
        invariant
            b <= k <= end <= cs@.len(),
            body == cs@.subrange(b as int, end as int),
            body == unsigned_part(text),
            text == cs@.subrange(start as int, end as int),
            seen_digit == exists|m: int| 0 <= m < k - b && is_digit(#[trigger] body[m]),
            seen_dot == exists|m: int| 0 <= m < k - b && #[trigger] body[m] == '.',
            forall|x: int, y: int|
                0 <= x < y < k - b && #[trigger] body[x] == '.' ==> #[trigger] body[y] != '.',
        decreases end - k,
    {
        let c = cs[k];
        assert(body[k - b] == c);
        if c == '.' {
            if seen_dot {
                let ghost m = choose|m: int| 0 <= m < k - b && #[trigger] body[m] == '.';
                assert(body[m] == '.' && body[k - b] == '.');
                assert(unsigned_part(text)[m] == '.' && unsigned_part(text)[k - b] == '.');
                assert(0 <= m < k - b < unsigned_part(text).len());
                assert(!is_number_text(text));
                return false;
            }
            seen_dot = true;
        } else if '0' <= c && c <= '9' {
            seen_digit = true;
        }
        k = k + 1;
    }
    assert(seen_digit == is_number_text(text));
    seen_digit
}

/// The token of the keyword that stands from `start` to `end`, if it is one.
fn keyword_token(cs: &Vec<char>, start: usize, end: usize) -> (r: Option<Token>)
    requires
        start <= end <= cs@.len(),
    ensures
        r is Some ==> keyword(cs@.subrange(start as int, end as int)) == Some(r->0@),
        r is None ==> keyword(cs@.subrange(start as int, end as int)) is None,
{
    let ghost w = cs@.subrange(start as int, end as int);
    let n = end - start;
    if n == 4 && cs[start] == 't' && cs[start + 1] == 'r' && cs[start + 2] == 'u' && cs[start + 3] == 'e' {
        assert(w =~= seq!['t', 'r', 'u', 'e']);
        assert(keyword(w) == Some(TokenView::True));
        Some(Token::True)
    } else if n == 5 && cs[start] == 'f' && cs[start + 1] == 'a' && cs[start + 2] == 'l'
        && cs[start + 3] == 's' && cs[start + 4] == 'e' {
        assert(w =~= seq!['f', 'a', 'l', 's', 'e']);
        Some(Token::False)
    } else if n == 4 && cs[start] == 'n' && cs[start + 1] == 'u' && cs[start + 2] == 'l' && cs[start + 3] == 'l' {
        assert(w =~= seq!['n', 'u', 'l', 'l']);
        Some(Token::Null)
    } else {
        proof {
            let t = seq!['t', 'r', 'u', 'e'];
            let f = seq!['f', 'a', 'l', 's', 'e'];
            let z = seq!['n', 'u', 'l', 'l'];
            assert(t.len() == 4 && t[0] == 't' && t[1] == 'r' && t[2] == 'u' && t[3] == 'e');
            assert(f.len() == 5 && f[0] == 'f' && f[1] == 'a' && f[2] == 'l' && f[3] == 's'
                && f[4] == 'e');
            assert(z.len() == 4 && z[0] == 'n' && z[1] == 'u' && z[2] == 'l' && z[3] == 'l');
            assert(w.len() == n);
            if w == t {
                assert(w[0] == cs@[start as int] && w[1] == cs@[start + 1] && w[2] == cs@[start + 2]
                    && w[3] == cs@[start + 3]);
            }
            if w == f {
                assert(w[0] == cs@[start as int] && w[1] == cs@[start + 1] && w[2] == cs@[start + 2]
                    && w[3] == cs@[start + 3] && w[4] == cs@[start + 4]);
            }
            if w == z {
                assert(w[0] == cs@[start as int] && w[1] == cs@[start + 1] && w[2] == cs@[start + 2]
                    && w[3] == cs@[start + 3]);
            }
        }
        None
    }
}

/// Relies on char::is_alphanumeric, which reports whether Unicode counts the
/// character as alphabetic or numeric.
#[verifier::external_body]
fn is_alphanumeric(c: char) -> (r: bool)
    ensures
        r == alphanumeric(c),
{
    c.is_alphanumeric()
}

/// Relies on String's FromIterator<char>, which appends the characters in
/// order.
#[verifier::external_body]
fn text_of(cs: &[char]) -> (r: String)
    ensures
        r@ == cs@,
{
    cs.iter().collect()
}

/// The characters of `s`, in order.
fn chars_of(s: &str) -> (r: Vec<char>)
    ensures
        r@ == s@,
{
    broadcast use vstd::string::axiom_spec_iter, vstd::string::next_postcondition;

    let mut it = s.chars();
    let mut out: Vec<char> = Vec::new();
    loop
        invariant
            it.obeys_prophetic_iter_laws(),
            it.decrease() is Some,
            s@ == out@ + it.remaining(),
        decreases it.decrease()->0,
    {
        match it.next() {
            Some(c) => {
                proof {
                    assert(s@ == out@.push(c) + it.remaining());
                }
                out.push(c);
            },
            None => {
                assert(s@ == out@);
                return out;
            },
        }
    }
}

} // verus!
