//! Masked byte patterns: a sequence of positions, each either a byte that
//! must be matched exactly or a wildcard that matches any byte.

use vstd::prelude::*;
use vstd::string::*;
use crate::errors::{InvalidFormat, LimeError};
use crate::text::{
    chars_of,
    digit_of,
    digit_value,
    all_words,
    gaps_fit,
    join_spaced,
    law_split_ignores_gaps,
    law_split_ignores_layout,
    spread,
    split_tokens,
    spans_text,
    text_between,
    tokens,
};

verus! {

/// What one token of a pattern text stands for.
#[derive(Clone, Copy, Debug, PartialEq, Eq, Structural)]
pub enum TokenMeaning {
    /// A position that must hold this byte.
    Byte(u8),
    /// A position that matches any byte.
    Wildcard,
    /// Not two bytes long, and no wildcard.
    BadShape,
    /// Two bytes long, but not two hexadecimal digits.
    BadDigits,
}

/// The token without a leading `0x` or `0X`.
pub open spec fn strip_hex_prefix(t: Seq<char>) -> Seq<char> {
    if t.len() >= 2 && t[0] == '0' && (t[1] == 'x' || t[1] == 'X') {
        t.skip(2)
    } else {
        t
    }
}

/// Whether `t` takes exactly two bytes in UTF-8: two characters of one byte
/// each, or one character of two.
pub open spec fn two_bytes_long(t: Seq<char>) -> bool {
    ||| t.len() == 2 && (t[0] as u32) < 0x80 && (t[1] as u32) < 0x80
    ||| t.len() == 1 && 0x80 <= (t[0] as u32) < 0x800
}

/// What a token means once its prefix is gone.
pub open spec fn body_meaning(t: Seq<char>) -> TokenMeaning {
    if t =~= seq!['?'] || t =~= seq!['?', '?'] {
        TokenMeaning::Wildcard
    } else if !two_bytes_long(t) {
        TokenMeaning::BadShape
    } else if t.len() == 2 && digit_value(t[0], 16) is Some && digit_value(t[1], 16) is Some {
        TokenMeaning::Byte((digit_value(t[0], 16)->0 * 16 + digit_value(t[1], 16)->0) as u8)
    } else {
        TokenMeaning::BadDigits
    }
}

/// What a token of a pattern text means.
pub open spec fn token_meaning(t: Seq<char>) -> TokenMeaning {
    body_meaning(strip_hex_prefix(t))
}

/// The position that a well-formed token contributes to a pattern. A wildcard
/// holds the byte zero.
pub open spec fn token_cell(t: Seq<char>) -> (u8, bool) {
    match token_meaning(t) {
        TokenMeaning::Byte(b) => (b, true),
        _ => (0u8, false),
    }
}

/// Whether a token is malformed.
pub open spec fn token_bad(t: Seq<char>) -> bool {
    token_meaning(t) == TokenMeaning::BadShape || token_meaning(t) == TokenMeaning::BadDigits
}

/// Index of the first malformed token at or after `i`, or the number of tokens.
pub open spec fn first_bad_from(ts: Seq<Seq<char>>, i: int) -> int
    decreases ts.len() - i,
{
    if 0 <= i < ts.len() && !token_bad(ts[i]) {
        first_bad_from(ts, i + 1)
    } else {
        i
    }
}

/// The positions that a list of well-formed tokens writes.
pub open spec fn token_cells(ts: Seq<Seq<char>>) -> Seq<(u8, bool)> {
    Seq::new(ts.len(), |i: int| token_cell(ts[i]))
}

/// The text that accompanies a token with bad digits.
pub open spec fn bad_digits_text() -> Seq<char> {
    "invalid digit found in string"@
}

/// Whether `outcome` is what parsing the pattern text `text` gives: the
/// positions of its tokens in order where all are well formed, else the
/// failure of the first malformed token.
pub open spec fn is_parse_of(
    text: Seq<char>,
    outcome: Result<Seq<(u8, bool)>, LimeError>,
) -> bool {
    let ts = tokens(text);
    let k = first_bad_from(ts, 0);
    match outcome {
        Ok(cells) => k == ts.len() && cells == token_cells(ts),
        Err(LimeError::Format(InvalidFormat::IsNonValidPattern(m))) => 0 <= k < ts.len()
            && token_meaning(ts[k]) == TokenMeaning::BadShape && m@ == ts[k],
        Err(LimeError::Format(InvalidFormat::ContainsInvalidCharacters(m))) => 0 <= k < ts.len()
            && token_meaning(ts[k]) == TokenMeaning::BadDigits && m@ == bad_digits_text(),
        Err(_) => false,
    }
}

/// Whether the pattern `p` matches at the start of `bytes`: there are at
/// least as many bytes as positions, and each significant position holds its
/// byte.
pub open spec fn pattern_matches(p: Seq<(u8, bool)>, bytes: Seq<u8>) -> bool {
    &&& bytes.len() >= p.len()
    &&& forall|i: int| 0 <= i < p.len() && (#[trigger] p[i]).1 ==> bytes[i] == p[i].0
}

/// What the token between `a` and `b` of `chars` means.
fn read_token(chars: &[char], a: usize, b: usize) -> (m: TokenMeaning)
    requires
        a <= b <= chars.len(),
    ensures
        m == token_meaning(chars@.subrange(a as int, b as int)),
{
    let ghost t = chars@.subrange(a as int, b as int);
    let prefixed: bool = b - a >= 2 && chars[a] == '0' && (chars[a + 1] == 'x' || chars[a + 1]
        == 'X');
    let from: usize = if prefixed {
        a + 2
    } else {
        a
    };
    let ghost body = chars@.subrange(from as int, b as int);
    assert(body =~= strip_hex_prefix(t));
    let n: usize = b - from;
    if n == 1 && chars[from] == '?' {
        assert(body =~= seq!['?']);
        return TokenMeaning::Wildcard;
    }
    if n == 2 && chars[from] == '?' && chars[from + 1] == '?' {
        assert(body =~= seq!['?', '?']);
        return TokenMeaning::Wildcard;
    }
    assert(!(body =~= seq!['?'])) by {
        if body =~= seq!['?'] {
            assert(body[0] == '?');
        }
    }
    assert(!(body =~= seq!['?', '?'])) by {
        if body =~= seq!['?', '?'] {
            assert(body[0] == '?' && body[1] == '?');
        }
    }
    if n == 1 {
        let u: u32 = chars[from] as u32;
        if 0x80 <= u && u < 0x800 {
            TokenMeaning::BadDigits
        } else {
            TokenMeaning::BadShape
        }
    } else if n == 2 {
        let u0: u32 = chars[from] as u32;
        let u1: u32 = chars[from + 1] as u32;
        if u0 >= 0x80 || u1 >= 0x80 {
            return TokenMeaning::BadShape;
        }
        match (digit_of(chars[from], 16), digit_of(chars[from + 1], 16)) {
            (Some(hi), Some(lo)) => TokenMeaning::Byte((hi * 16 + lo) as u8),
            _ => TokenMeaning::BadDigits,
        }
    } else {
        TokenMeaning::BadShape
    }
}

/// A parsed pattern. It does not change once it is made.
#[derive(Debug)]
pub struct Pattern {
    bytes: Vec<u8>,
    mask: Vec<bool>,
}

impl View for Pattern {
    type V = Seq<(u8, bool)>;

    /// The positions in order: each a byte and whether it is significant.
    closed spec fn view(&self) -> Seq<(u8, bool)> {
        Seq::new(self.bytes@.len(), |i: int| (self.bytes@[i], self.mask@[i]))
    }
}

impl Pattern {
    #[verifier::type_invariant]
    spec fn same_lengths(&self) -> bool {
        self.bytes@.len() == self.mask@.len()
    }

    /// Parses a pattern text: tokens separated by whitespace, each with an
    /// optional `0x` or `0X` in front, then `?` or `??` for a wildcard or two
    /// hexadecimal digits for a byte.
    pub fn from_str(pattern: &str) -> (parsed: Result<Pattern, LimeError>)
        ensures
            is_parse_of(
                pattern@,
                match parsed {
                    Ok(p) => Ok(p@),
                    Err(e) => Err(e),
                },
            ),
    {
        let chars = chars_of(pattern);
        let spans = split_tokens(chars.as_slice());
        let ghost ts = tokens(pattern@);
        let mut bytes: Vec<u8> = Vec::new();
        let mut mask: Vec<bool> = Vec::new();
        let mut k: usize = 0;
        while k < spans.len()
            invariant
                chars@ == pattern@,
                ts == tokens(pattern@),
                ts == spans_text(chars@, spans@),
                forall|j: int|
                    0 <= j < spans.len() ==> (#[trigger] spans[j]).0 < spans[j].1 <= chars.len(),
                0 <= k <= spans.len(),
                first_bad_from(ts, 0) == first_bad_from(ts, k as int),
                bytes.len() == k,
                mask.len() == k,
                forall|j: int| 0 <= j < k ==> (bytes[j], mask[j]) == #[trigger] token_cell(ts[j]),
            decreases spans.len() - k,
        {
            let (a, b) = spans[k];
            assert(ts[k as int] == chars@.subrange(a as int, b as int));
            match read_token(chars.as_slice(), a, b) {
                TokenMeaning::Byte(v) => {
                    bytes.push(v);
                    mask.push(true);
                },
                TokenMeaning::Wildcard => {
                    bytes.push(0);
                    mask.push(false);
                },
                TokenMeaning::BadShape => {
                    let shown = text_between(chars.as_slice(), a, b);
                    return Err(LimeError::Format(InvalidFormat::IsNonValidPattern(shown)));
                },
                TokenMeaning::BadDigits => {
                    let shown = String::from_str("invalid digit found in string");
                    return Err(LimeError::Format(InvalidFormat::ContainsInvalidCharacters(shown)));
                },
            }
            k += 1;
        }
        let parsed = Pattern { bytes, mask };
        assert(parsed@ =~= token_cells(ts));
        Ok(parsed)
    }

    /// Whether the pattern matches at the start of `slice`.
    pub fn matches(&self, slice: &[u8]) -> (hit: bool)
        ensures
            hit == pattern_matches(self@, slice@),
    {
        proof {
            use_type_invariant(self);
        }
        if slice.len() < self.bytes.len() {
            return false;
        }
        let mut i: usize = 0;
        while i < self.bytes.len()
            invariant
                self.bytes@.len() == self.mask@.len(),
                slice.len() >= self.bytes.len(),
                0 <= i <= self.bytes.len(),
                forall|j: int| 0 <= j < i && (#[trigger] self@[j]).1 ==> slice[j] == self@[j].0,
            decreases self.bytes.len() - i,
        {
            if self.mask[i] && slice[i] != self.bytes[i] {
                assert(self@[i as int].1 && slice[i as int] != self@[i as int].0);
                return false;
            }
            i += 1;
        }
        true
    }

    /// The number of positions.
    pub fn len(&self) -> (n: usize)
        ensures
            n == self@.len(),
    {
        self.bytes.len()
    }

    /// The byte of each position, zero at a wildcard.
    pub fn bytes(&self) -> (bytes: &Vec<u8>)
        ensures
            bytes@ == self@.map_values(|c: (u8, bool)| c.0),
    {
        proof {
            use_type_invariant(self);
            assert(self.bytes@ =~= self@.map_values(|c: (u8, bool)| c.0));
        }
        &self.bytes
    }

    /// For each position, whether it is significant.
    pub fn mask(&self) -> (mask: &Vec<bool>)
        ensures
            mask@ == self@.map_values(|c: (u8, bool)| c.1),
    {
        proof {
            use_type_invariant(self);
            assert(self.mask@ =~= self@.map_values(|c: (u8, bool)| c.1));
        }
        &self.mask
    }
}

/// A pattern matches a buffer exactly when the buffer is long enough and
/// holds, at each significant position, the byte of that position.
pub proof fn law_match_reads_significant_positions(p: Seq<(u8, bool)>, bytes: Seq<u8>)
    ensures
        pattern_matches(p, bytes) <==> bytes.len() >= p.len() && forall|i: int|
            0 <= i < p.len() && (#[trigger] p[i]).1 ==> bytes[i] == p[i].0,
{
}

/// A parsed pattern matches a buffer exactly when the buffer has a byte for
/// every token and holds, wherever a token writes a byte, that byte.
pub proof fn law_parsed_pattern_matches(text: Seq<char>, bytes: Seq<u8>)
    requires
        first_bad_from(tokens(text), 0) == tokens(text).len(),
    ensures
        pattern_matches(token_cells(tokens(text)), bytes) <==> bytes.len() >= tokens(text).len()
            && forall|i: int|
            0 <= i < tokens(text).len() && (#[trigger] token_meaning(tokens(text)[i]))
                is Byte ==> bytes[i] == token_meaning(tokens(text)[i])->Byte_0,
{
    let ts = tokens(text);
    let p = token_cells(ts);
    if pattern_matches(p, bytes) {
        assert forall|i: int|
            0 <= i < ts.len() && (#[trigger] token_meaning(ts[i])) is Byte implies bytes[i]
            == token_meaning(ts[i])->Byte_0 by {
            assert(p[i].1);
        }
    }
    if bytes.len() >= ts.len() && forall|i: int|
        0 <= i < ts.len() && (#[trigger] token_meaning(ts[i])) is Byte ==> bytes[i]
            == token_meaning(ts[i])->Byte_0 {
        assert forall|i: int| 0 <= i < p.len() && (#[trigger] p[i]).1 implies bytes[i]
            == p[i].0 by {
            assert(token_meaning(ts[i]) is Byte);
        }
    }
}

/// At a wildcard the byte of the buffer does not matter: two buffers that
/// differ only there match alike.
pub proof fn law_wildcard_ignores_byte(p: Seq<(u8, bool)>, b1: Seq<u8>, b2: Seq<u8>, i: int)
    requires
        0 <= i < p.len(),
        !p[i].1,
        b1.len() == b2.len(),
        forall|j: int| 0 <= j < b1.len() && j != i ==> b1[j] == b2[j],
    ensures
        pattern_matches(p, b1) == pattern_matches(p, b2),
{
    if pattern_matches(p, b1) {
        assert forall|j: int| 0 <= j < p.len() && (#[trigger] p[j]).1 implies b2[j] == p[j].0 by {
            assert(b1[j] == p[j].0);
        }
    }
    if pattern_matches(p, b2) {
        assert forall|j: int| 0 <= j < p.len() && (#[trigger] p[j]).1 implies b1[j] == p[j].0 by {
            assert(b2[j] == p[j].0);
        }
    }
}

/// Only the tokens of a pattern text matter: two texts with the same tokens,
/// whatever whitespace lies around them, parse alike.
pub proof fn law_parse_depends_on_tokens(
    a: Seq<char>,
    b: Seq<char>,
    outcome: Result<Seq<(u8, bool)>, LimeError>,
)
    requires
        tokens(a) == tokens(b),
    ensures
        is_parse_of(a, outcome) == is_parse_of(b, outcome),
{
}

/// A pattern text parses as the text that writes its tokens with single
/// spaces between them.
pub proof fn law_parse_ignores_layout(text: Seq<char>, outcome: Result<Seq<(u8, bool)>, LimeError>)
    ensures
        is_parse_of(join_spaced(tokens(text)), outcome) == is_parse_of(text, outcome),
{
    law_split_ignores_layout(text);
}

/// The whitespace around the tokens of a pattern text is free: the same
/// words, written with any two choices of gaps, parse alike.
pub proof fn law_parse_ignores_gaps(
    ws: Seq<Seq<char>>,
    gaps: Seq<Seq<char>>,
    other_gaps: Seq<Seq<char>>,
    outcome: Result<Seq<(u8, bool)>, LimeError>,
)
    requires
        all_words(ws),
        gaps_fit(ws, gaps),
        gaps_fit(ws, other_gaps),
    ensures
        is_parse_of(spread(ws, gaps), outcome) == is_parse_of(spread(ws, other_gaps), outcome),
{
    law_split_ignores_gaps(ws, gaps);
    law_split_ignores_gaps(ws, other_gaps);
}

/// `0x` and `0X` in front of a token are the same and change nothing: the
/// token means what stands behind the prefix, and a token without a prefix
/// means what it holds.
pub proof fn law_prefix_is_optional(body: Seq<char>)
    ensures
        token_meaning(seq!['0', 'x'] + body) == body_meaning(body),
        token_meaning(seq!['0', 'X'] + body) == body_meaning(body),
        strip_hex_prefix(body) == body ==> token_meaning(body) == body_meaning(body),
{
    assert((seq!['0', 'x'] + body).skip(2) =~= body);
    assert((seq!['0', 'X'] + body).skip(2) =~= body);
}

} // verus!
