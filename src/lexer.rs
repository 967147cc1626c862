//! Splits a search query into tags and operators, with the byte offsets where they stand.
use vstd::prelude::*;
use vstd::std_specs::iter::IteratorSpec;
use vstd::utf8::{char_is_scalar, encode_scalar, encode_utf8};

verus! {

/// An operator of the query language.
#[derive(Clone, Copy, Debug, PartialEq, Eq, Structural)]
pub enum OperatorKind {
    OpenParen,
    CloseParen,
    Fuzzy,
    Not,
    And,
    Or,
}

/// A token of a query, with byte offsets into it.
#[derive(Debug, PartialEq, Eq)]
pub enum Token {
    Tag { value: String, start: usize, end: usize },
    Operator { kind: OperatorKind, position: usize },
}

/// Why a query cannot be read.
#[derive(Debug, PartialEq, Eq)]
pub enum ParseError {
    /// A quote at this byte offset opens a phrase that no quote closes.
    UnpairedQuote { position: usize },
    /// An operator of this kind was expected before this token.
    MissingOperator { expected: OperatorKind, token: Token },
}

/// A token as the contracts speak of it.
pub enum TokenModel {
    Tag { value: Seq<char>, start: int, end: int },
    Operator { kind: OperatorKind, position: int },
}

pub open spec fn model(t: Token) -> TokenModel {
    match t {
        Token::Tag { value, start, end } => TokenModel::Tag {
            value: value@,
            start: start as int,
            end: end as int,
        },
        Token::Operator { kind, position } => TokenModel::Operator {
            kind,
            position: position as int,
        },
    }
}

pub open spec fn models(v: Seq<Token>) -> Seq<TokenModel> {
    v.map_values(|t: Token| model(t))
}

/// The Unicode White_Space property: U+0009 to U+000D, U+0020, U+0085, U+00A0, U+1680,
/// U+2000 to U+200A, U+2028, U+2029, U+202F, U+205F and U+3000.
pub open spec fn white_space(c: char) -> bool {
    let v = c as u32;
    ||| 0x09 <= v <= 0x0D
    ||| v == 0x20
    ||| v == 0x85
    ||| v == 0xA0
    ||| v == 0x1680
    ||| 0x2000 <= v <= 0x200A
    ||| v == 0x2028
    ||| v == 0x2029
    ||| v == 0x202F
    ||| v == 0x205F
    ||| v == 0x3000
}

/// Whether `c` has the White_Space property, as `char::is_whitespace` decides it.
fn is_white_space(c: char) -> (r: bool)
    ensures
        r == white_space(c),
{
    let v = c as u32;
    (0x09 <= v && v <= 0x0D) || v == 0x20 || v == 0x85 || v == 0xA0 || v == 0x1680 || (0x2000
        <= v && v <= 0x200A) || v == 0x2028 || v == 0x2029 || v == 0x202F || v == 0x205F || v
        == 0x3000
}

/// The classes of characters that make up runs in a query.
#[derive(Clone, Copy, PartialEq, Eq, Structural)]
pub enum CharClass {
    /// Whitespace between tokens.
    Space,
    /// ASCII letters, which may spell an operator word.
    Letter,
    /// Anything but a quote, inside a quoted phrase.
    Quoted,
    /// Anything but whitespace and `~`, `(`, `)`, in a bare tag.
    Bare,
}

pub open spec fn is_operator_char(c: char) -> bool {
    c == '(' || c == ')' || c == '~'
}

pub open spec fn is_ascii_letter(c: char) -> bool {
    ('a' as int <= c as int <= 'z' as int) || ('A' as int <= c as int <= 'Z' as int)
}

pub open spec fn fits(class: CharClass, c: char) -> bool {
    match class {
        CharClass::Space => white_space(c),
        CharClass::Letter => is_ascii_letter(c),
        CharClass::Quoted => c != '"',
        CharClass::Bare => !is_operator_char(c) && !white_space(c),
    }
}

/// The number of characters of `class` from `i` on.
pub open spec fn run(s: Seq<char>, i: int, class: CharClass) -> int
    decreases s.len() - i,
{
    if 0 <= i < s.len() && fits(class, s[i]) {
        1 + run(s, i + 1, class)
    } else {
        0
    }
}

/// The byte offset of character `i`: the length of the UTF-8 encoding of those before it.
pub open spec fn byte_offset(s: Seq<char>, i: int) -> int {
    encode_utf8(s.take(i)).len() as int
}

/// `w` is `lower` up to the case of ASCII letters; `lower` is in lower case.
pub open spec fn folds_to(w: Seq<char>, lower: Seq<char>) -> bool {
    w.len() == lower.len() && forall|k: int|
        0 <= k < w.len() ==> w[k] == lower[k] || w[k] as u32 + 32 == lower[k] as u32
}

/// The operator a word of letters spells, in any case.
pub open spec fn keyword(w: Seq<char>) -> Option<OperatorKind> {
    if folds_to(w, seq!['a', 'n', 'd']) {
        Some(OperatorKind::And)
    } else if folds_to(w, seq!['o', 'r']) {
        Some(OperatorKind::Or)
    } else if folds_to(w, seq!['n', 'o', 't']) {
        Some(OperatorKind::Not)
    } else {
        None
    }
}

pub open spec fn operator_of(c: char) -> OperatorKind {
    if c == '(' {
        OperatorKind::OpenParen
    } else if c == ')' {
        OperatorKind::CloseParen
    } else {
        OperatorKind::Fuzzy
    }
}

/// One step of the lexer from character `i`: whitespace is skipped; then comes an operator
/// character, an operator word, a quoted phrase, or a bare tag. Gives the token, or the
/// byte offset of an unpaired quote, or nothing at the end, and where the next step starts.
pub open spec fn step(s: Seq<char>, i: int) -> (Option<Result<TokenModel, int>>, int) {
    let j = i + run(s, i, CharClass::Space);
    if j >= s.len() {
        (None, j)
    } else if is_operator_char(s[j]) {
        (
            Some(Ok(TokenModel::Operator { kind: operator_of(s[j]), position: byte_offset(s, j) })),
            j + 1,
        )
    } else if keyword(s.subrange(j, j + run(s, j, CharClass::Letter))) is Some {
        let n = run(s, j, CharClass::Letter);
        (
            Some(
                Ok(
                    TokenModel::Operator {
                        kind: keyword(s.subrange(j, j + n))->Some_0,
                        position: byte_offset(s, j),
                    },
                ),
            ),
            j + n,
        )
    } else if s[j] == '"' {
        let m = run(s, j + 1, CharClass::Quoted);
        if j + 1 + m >= s.len() {
            (Some(Err(byte_offset(s, j))), j + 1)
        } else {
            (
                Some(
                    Ok(
                        TokenModel::Tag {
                            value: s.subrange(j + 1, j + 1 + m),
                            start: byte_offset(s, j),
                            end: byte_offset(s, j + m + 2),
                        },
                    ),
                ),
                j + m + 2,
            )
        }
    } else {
        let m = run(s, j, CharClass::Bare);
        (
            Some(
                Ok(
                    TokenModel::Tag {
                        value: s.subrange(j, j + m),
                        start: byte_offset(s, j),
                        end: byte_offset(s, j + m),
                    },
                ),
            ),
            j + m,
        )
    }
}

/// All the tokens from character `i` on, or the offset of the first unpaired quote.
pub open spec fn lex_all(s: Seq<char>, i: int) -> Result<Seq<TokenModel>, int>
    decreases s.len() - i,
{
    let (t, k) = step(s, i);
    match t {
        None => Ok(Seq::empty()),
        Some(Err(p)) => Err(p),
        Some(Ok(tok)) => if i < k <= s.len() {
            match lex_all(s, k) {
                Ok(rest) => Ok(seq![tok] + rest),
                Err(p) => Err(p),
            }
        } else {
            Ok(seq![tok])
        },
    }
}

proof fn lemma_encode_concat(a: Seq<char>, b: Seq<char>)
    ensures
        encode_utf8(a + b) == encode_utf8(a) + encode_utf8(b),
    decreases a.len(),
{
    if a.len() > 0 {
        lemma_encode_concat(a.drop_first(), b);
        assert((a + b).drop_first() =~= a.drop_first() + b);
        assert(encode_utf8(a + b) =~= encode_utf8(a) + encode_utf8(b));
    } else {
        assert(a + b =~= b);
        assert(encode_utf8(a) =~= Seq::<u8>::empty());
        assert(encode_utf8(a) + encode_utf8(b) =~= encode_utf8(b));
    }
}

proof fn lemma_offset_step(s: Seq<char>, i: int)
    requires
        0 <= i < s.len(),
    ensures
        byte_offset(s, i + 1) == byte_offset(s, i) + encode_scalar(s[i] as u32).len(),
{
    assert(s.take(i + 1) =~= s.take(i) + seq![s[i]]);
    lemma_encode_concat(s.take(i), seq![s[i]]);
    assert(seq![s[i]].drop_first() =~= Seq::<char>::empty());
    assert(encode_utf8(Seq::<char>::empty()) =~= Seq::<u8>::empty());
    assert(encode_utf8(seq![s[i]]) =~= encode_scalar(s[i] as u32));
}

proof fn lemma_offset_mono(s: Seq<char>, i: int, k: int)
    requires
        0 <= i <= k <= s.len(),
    ensures
        byte_offset(s, i) <= byte_offset(s, k),
{
    assert(s.take(k) =~= s.take(i) + s.subrange(i, k));
    lemma_encode_concat(s.take(i), s.subrange(i, k));
}

/// The number of bytes of `c` in UTF-8, as `char::len_utf8` gives it.
fn char_width(c: char) -> (r: usize)
    ensures
        r == encode_scalar(c as u32).len(),
        1 <= r <= 4,
{
    proof {
        char_is_scalar(c);
    }
    let v = c as u32;
    if v <= 0x7F {
        1
    } else if v <= 0x7FF {
        2
    } else if v <= 0xFFFF {
        3
    } else {
        4
    }
}

/// The characters of the string, in order.
fn chars_of(s: &str) -> (r: Vec<char>)
    ensures
        r@ == s@,
{
    broadcast use vstd::string::axiom_spec_iter, vstd::string::next_postcondition;

    let mut out: Vec<char> = Vec::new();
    let mut it = s.chars();
    loop
        invariant
            out@ + it.remaining() == s@,
            it.decrease() is Some,
        decreases it.decrease()->0,
    {
        match it.next() {
            Some(c) => {
                out.push(c);
                assert(out@ + it.remaining() =~= s@);
            },
            None => {
                assert(out@ + Seq::<char>::empty() =~= out@);
                return out;
            },
        }
    }
}

/// Relies on `String: FromIterator<&char>`: the string of the characters, in order.
#[verifier::external_body]
fn string_of(cs: &[char]) -> (r: String)
    ensures
        r@ == cs@,
{
    String::from_iter(cs.iter())
}

/// Reads a query token by token.
pub struct Tokenizer {
    pub chars: Vec<char>,
    pub idx: usize,
    pub position: usize,
}

impl Tokenizer {
    /// The position is the byte offset of the next character, and every offset fits.
    pub open spec fn wf(&self) -> bool {
        &&& self.idx <= self.chars@.len()
        &&& self.position == byte_offset(self.chars@, self.idx as int)
        &&& byte_offset(self.chars@, self.chars@.len() as int) <= usize::MAX
    }

    /// A tokenizer at the start of `input`.
    pub fn from(input: &str) -> (r: Tokenizer)
        ensures
            r.wf(),
            r.chars@ == input@,
            r.idx == 0,
    {
        let chars = chars_of(input);
        let _ = input.as_bytes().len();
        proof {
            assert(chars@.take(chars@.len() as int) =~= chars@);
            assert(chars@.take(0) =~= Seq::<char>::empty());
            assert(encode_utf8(Seq::<char>::empty()) =~= Seq::<u8>::empty());
        }
        Tokenizer { chars, idx: 0, position: 0 }
    }

    /// The length of the run of `class` from character `from` on, in characters and in
    /// bytes.
    fn scan(&self, from: usize, class: CharClass) -> (r: (usize, usize))
        requires
            self.wf(),
            from <= self.chars@.len(),
        ensures
            r.0 == run(self.chars@, from as int, class),
            from + r.0 <= self.chars@.len(),
            from + r.0 < self.chars@.len() ==> !fits(class, self.chars@[from + r.0]),
            forall|x: int| from <= x < from + r.0 ==> fits(class, #[trigger] self.chars@[x]),
            r.1 == byte_offset(self.chars@, from + r.0) - byte_offset(self.chars@, from as int),
    {
        let ghost s = self.chars@;
        let mut k: usize = from;
        let mut bytes: usize = 0;
        proof {
            lemma_offset_mono(s, from as int, s.len() as int);
        }
        while k < self.chars.len()
            invariant
                self.wf(),
                s == self.chars@,
                from <= k <= s.len(),
                run(s, from as int, class) == (k - from) + run(s, k as int, class),
                bytes == byte_offset(s, k as int) - byte_offset(s, from as int),
                byte_offset(s, from as int) <= byte_offset(s, k as int),
                forall|x: int| from <= x < k ==> fits(class, #[trigger] s[x]),
            ensures
                from <= k <= s.len(),
                run(s, from as int, class) == (k - from) + run(s, k as int, class),
                run(s, k as int, class) == 0,
                k < s.len() ==> !fits(class, s[k as int]),
                bytes == byte_offset(s, k as int) - byte_offset(s, from as int),
                forall|x: int| from <= x < k ==> fits(class, #[trigger] s[x]),
            decreases s.len() - k,
        {
            let c = self.chars[k];
            let fit = match class {
                CharClass::Space => is_white_space(c),
                CharClass::Letter => ('a' <= c && c <= 'z') || ('A' <= c && c <= 'Z'),
                CharClass::Quoted => c != '"',
                CharClass::Bare => !(c == '(' || c == ')' || c == '~') && !is_white_space(c),
            };
            assert(fit == fits(class, c));
            if !fit {
                break;
            }
            proof {
                lemma_offset_step(s, k as int);
                lemma_offset_mono(s, k + 1, s.len() as int);
            }
            bytes = bytes + char_width(c);
            k += 1;
        }
        (k - from, bytes)
    }

    /// Moves past `n` characters that take `bytes` bytes.
    fn advance(&mut self, n: usize, bytes: usize)
        requires
            old(self).wf(),
            old(self).idx + n <= old(self).chars@.len(),
            bytes == byte_offset(old(self).chars@, old(self).idx + n) - byte_offset(
                old(self).chars@,
                old(self).idx as int,
            ),
        ensures
            final(self).wf(),
            final(self).chars == old(self).chars,
            final(self).idx == old(self).idx + n,
    {
        proof {
            lemma_offset_mono(self.chars@, self.idx + n, self.chars@.len() as int);
        }
        let _ = self.chars.len();
        self.idx = self.idx + n;
        self.position = self.position + bytes;
    }

    /// The characters from `from` to `to`, as a string.
    fn text(&self, from: usize, to: usize) -> (r: String)
        requires
            from <= to <= self.chars@.len(),
        ensures
            r@ == self.chars@.subrange(from as int, to as int),
    {
        let (head, _) = self.chars.as_slice().split_at(to);
        let (_, part) = head.split_at(from);
        string_of(part)
    }

    /// The next token, an unpaired quote, or nothing at the end of the query.
    pub fn next(&mut self) -> (r: Option<Result<Token, ParseError>>)
        requires
            old(self).wf(),
        ensures
            final(self).wf(),
            final(self).chars == old(self).chars,
            ({
                let (t, k) = step(old(self).chars@, old(self).idx as int);
                &&& final(self).idx == k
                &&& match r {
                    None => t is None,
                    Some(Ok(tok)) => t == Some(Ok::<TokenModel, int>(model(tok))),
                    Some(Err(ParseError::UnpairedQuote { position })) => t == Some(
                        Err::<TokenModel, int>(position as int),
                    ),
                    Some(Err(ParseError::MissingOperator { .. })) => false,
                }
            }),
            r is Some ==> old(self).idx < final(self).idx,
    {
        let ghost s = self.chars@;
        let (n, bytes) = self.scan(self.idx, CharClass::Space);
        self.advance(n, bytes);
        let j = self.idx;
        if j >= self.chars.len() {
            return None;
        }
        let position = self.position;
        let c = self.chars[j];
        if c == '(' || c == ')' || c == '~' {
            let kind = if c == '(' {
                OperatorKind::OpenParen
            } else if c == ')' {
                OperatorKind::CloseParen
            } else {
                OperatorKind::Fuzzy
            };
            proof {
                lemma_offset_step(s, j as int);
            }
            self.advance(1, char_width(c));
            return Some(Ok(Token::Operator { kind, position }));
        }
        let (n, bytes) = self.scan(j, CharClass::Letter);
        let word = self.keyword_at(j, n);
        if let Some(kind) = word {
            self.advance(n, bytes);
            return Some(Ok(Token::Operator { kind, position }));
        }
        if c == '"' {
            proof {
                lemma_offset_step(s, j as int);
            }
            self.advance(1, char_width(c));
            let (m, bytes) = self.scan(j + 1, CharClass::Quoted);
            if j + 1 + m >= self.chars.len() {
                return Some(Err(ParseError::UnpairedQuote { position }));
            }
            let value = self.text(j + 1, j + 1 + m);
            self.advance(m, bytes);
            proof {
                lemma_offset_step(s, j + 1 + m);
            }
            self.advance(1, char_width(self.chars[j + 1 + m]));
            return Some(Ok(Token::Tag { value, start: position, end: self.position }));
        }
        let (m, bytes) = self.scan(j, CharClass::Bare);
        let value = self.text(j, j + m);
        self.advance(m, bytes);
        Some(Ok(Token::Tag { value, start: position, end: self.position }))
    }

    /// The operator that the `n` letters from `j` spell, if any.
    fn keyword_at(&self, j: usize, n: usize) -> (r: Option<OperatorKind>)
        requires
            j + n <= self.chars@.len(),
        ensures
            r == keyword(self.chars@.subrange(j as int, j + n)),
    {
        if self.folds_to_at(j, n, 'a', 'n', 'd', 3) {
            Some(OperatorKind::And)
        } else if self.folds_to_at(j, n, 'o', 'r', ' ', 2) {
            Some(OperatorKind::Or)
        } else if self.folds_to_at(j, n, 'n', 'o', 't', 3) {
            Some(OperatorKind::Not)
        } else {
            None
        }
    }

    /// Whether the `n` characters from `j` are the first `len` of `a`, `b`, `c`, in any
    /// case.
    fn folds_to_at(&self, j: usize, n: usize, a: char, b: char, c: char, len: usize) -> (r: bool)
        requires
            j + n <= self.chars@.len(),
            len == 2 || len == 3,
        ensures
            r == folds_to(
                self.chars@.subrange(j as int, j + n),
                seq![a, b, c].take(len as int),
            ),
    {
        let ghost w = self.chars@.subrange(j as int, j + n);
        let ghost lower = seq![a, b, c].take(len as int);
        if n != len {
            return false;
        }
        let _ = self.chars.len();
        let mut k: usize = 0;
        while k < len
            invariant
                n == len,
                len == 2 || len == 3,
                self.chars@.len() <= usize::MAX,
                j + n <= self.chars@.len(),
                w == self.chars@.subrange(j as int, j + n),
                lower == seq![a, b, c].take(len as int),
                k <= len,
                forall|x: int|
                    0 <= x < k ==> w[x] == lower[x] || w[x] as u32 + 32 == lower[x] as u32,
            decreases len - k,
        {
            let want = if k == 0 {
                a
            } else if k == 1 {
                b
            } else {
                c
            };
            assert(want == lower[k as int]);
            let got = self.chars[j + k];
            assert(got == w[k as int]);
            proof {
                char_is_scalar(got);
            }
            if got != want && (got as u32) + 32 != want as u32 {
                return false;
            }
            k += 1;
        }
        true
    }
}

/// Every token of `query`, or the first unpaired quote.
pub fn tokenize(query: &str) -> (r: Result<Vec<Token>, ParseError>)
    ensures
        match r {
            Ok(v) => lex_all(query@, 0) == Ok::<Seq<TokenModel>, int>(models(v@)),
            Err(ParseError::UnpairedQuote { position }) => lex_all(query@, 0) == Err::<
                Seq<TokenModel>,
                int,
            >(position as int),
            Err(ParseError::MissingOperator { .. }) => false,
        },
{
    let mut t = Tokenizer::from(query);
    let mut out: Vec<Token> = Vec::new();
    loop
        invariant
            t.wf(),
            t.chars@ == query@,
            lex_all(query@, 0) == match lex_all(query@, t.idx as int) {
                Ok(rest) => Ok::<Seq<TokenModel>, int>(models(out@) + rest),
                Err(p) => Err(p),
            },
        decreases query@.len() - t.idx,
    {
        let ghost i = t.idx as int;
        match t.next() {
            None => {
                proof {
                    assert(models(out@) + Seq::<TokenModel>::empty() =~= models(out@));
                }
                return Ok(out);
            },
            Some(Err(e)) => {
                return Err(e);
            },
            Some(Ok(tok)) => {
                let ghost m = model(tok);
                let ghost before = out@;
                out.push(tok);
                proof {
                    assert(lex_all(query@, i) == match lex_all(query@, t.idx as int) {
                        Ok(rest) => Ok::<Seq<TokenModel>, int>(seq![m] + rest),
                        Err(p) => Err(p),
                    });
                    let prev = models(before);
                    assert(models(out@) =~= prev.push(m));
                    match lex_all(query@, t.idx as int) {
                        Ok(rest) => {
                            assert(prev + (seq![m] + rest) =~= prev.push(m) + rest);
                        },
                        Err(p) => {},
                    }
                }
            },
        }
    }
}

} // verus!
