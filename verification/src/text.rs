//! Text as sequences of characters: whitespace-separated tokens and unsigned
//! numbers in a radix.

use vstd::prelude::*;
use vstd::string::*;

verus! {

/// The characters that separate tokens: Unicode's `White_Space` property.
pub open spec fn is_space(c: char) -> bool {
    let u = c as u32;
    ||| 0x09 <= u <= 0x0D
    ||| u == 0x20
    ||| u == 0x85
    ||| u == 0xA0
    ||| u == 0x1680
    ||| 0x2000 <= u <= 0x200A
    ||| u == 0x2028
    ||| u == 0x2029
    ||| u == 0x202F
    ||| u == 0x205F
    ||| u == 0x3000
}

/// First index at or after `i` that holds no separator, or the length.
pub open spec fn token_start(s: Seq<char>, i: int) -> int
    decreases s.len() - i,
{
    if 0 <= i < s.len() && is_space(s[i]) {
        token_start(s, i + 1)
    } else {
        i
    }
}

/// First index at or after `i` that holds a separator, or the length.
pub open spec fn token_end(s: Seq<char>, i: int) -> int
    decreases s.len() - i,
{
    if 0 <= i < s.len() && !is_space(s[i]) {
        token_end(s, i + 1)
    } else {
        i
    }
}

/// The tokens of `s` that begin at or after index `i`, in order.
pub open spec fn tokens_from(s: Seq<char>, i: int) -> Seq<Seq<char>>
    decreases s.len() - i,
    when 0 <= i
    via tokens_from_decreases
{
    let a = token_start(s, i);
    if a >= s.len() {
        Seq::empty()
    } else {
        let b = token_end(s, a);
        seq![s.subrange(a, b)] + tokens_from(s, b)
    }
}

#[via_fn]
proof fn tokens_from_decreases(s: Seq<char>, i: int) {
    let a = token_start(s, i);
    lemma_token_start(s, i);
    lemma_token_end(s, a);
}

/// The maximal runs of characters of `s` that hold no separator, in order.
pub open spec fn tokens(s: Seq<char>) -> Seq<Seq<char>> {
    tokens_from(s, 0)
}

/// Where the scan for the start of a token ends: at the first character
/// that does not separate, with only separators before it.
proof fn lemma_token_start(s: Seq<char>, i: int)
    requires
        0 <= i,
    ensures
        i <= token_start(s, i),
        i <= s.len() ==> token_start(s, i) <= s.len(),
        token_start(s, i) < s.len() ==> !is_space(s[token_start(s, i)]),
        forall|k: int| i <= k < token_start(s, i) ==> is_space(#[trigger] s[k]),
    decreases s.len() - i,
{
    if i < s.len() && is_space(s[i]) {
        lemma_token_start(s, i + 1);
    }
}

/// Where the scan for the end of a token ends: at the first separator, with
/// no separator before it.
proof fn lemma_token_end(s: Seq<char>, i: int)
    requires
        0 <= i,
    ensures
        i <= token_end(s, i),
        i <= s.len() ==> token_end(s, i) <= s.len(),
        i < s.len() && !is_space(s[i]) ==> i < token_end(s, i),
        token_end(s, i) < s.len() ==> is_space(s[token_end(s, i)]),
        forall|k: int| i <= k < token_end(s, i) ==> !is_space(#[trigger] s[k]),
    decreases s.len() - i,
{
    if i < s.len() && !is_space(s[i]) {
        lemma_token_end(s, i + 1);
    }
}

/// The value of `c` as a digit in `radix` (10 or 16), if it is one.
pub open spec fn digit_value(c: char, radix: int) -> Option<int> {
    if '0' <= c <= '9' {
        Some(c as int - '0' as int)
    } else if radix == 16 && 'a' <= c <= 'f' {
        Some(c as int - 'a' as int + 10)
    } else if radix == 16 && 'A' <= c <= 'F' {
        Some(c as int - 'A' as int + 10)
    } else {
        None
    }
}

/// Whether every character of `s` is a digit in `radix`.
pub open spec fn all_digits(s: Seq<char>, radix: int) -> bool {
    forall|i: int| 0 <= i < s.len() ==> (#[trigger] digit_value(s[i], radix)) is Some
}

/// The number that the digits of `s` write in `radix`, most significant first.
/// A character that is no digit counts as zero.
pub open spec fn digits_value(s: Seq<char>, radix: int) -> int
    decreases s.len(),
{
    if s.len() == 0 {
        0
    } else {
        let d = match digit_value(s.last(), radix) {
            Some(d) => d,
            None => 0,
        };
        digits_value(s.drop_last(), radix) * radix + d
    }
}

/// The digits of a number text: the text without one leading `+`.
pub open spec fn unsigned_digits(s: Seq<char>) -> Seq<char> {
    if s.len() > 0 && s[0] == '+' {
        s.skip(1)
    } else {
        s
    }
}

/// The 64-bit unsigned number that `s` writes in `radix`: an optional `+`, then
/// one or more digits whose value fits. `None` for every other text.
pub open spec fn parse_u64_spec(s: Seq<char>, radix: int) -> Option<u64> {
    let body = unsigned_digits(s);
    if body.len() > 0 && all_digits(body, radix) && digits_value(body, radix) <= u64::MAX {
        Some(digits_value(body, radix) as u64)
    } else {
        None
    }
}

/// The characters of `s`, in order.
pub fn chars_of(s: &str) -> (out: Vec<char>)
    ensures
        out@ == s@,
{
    let mut out: Vec<char> = Vec::new();
    for c in iter: s.chars()
        invariant
            out@ == iter.seq().take(iter.index()),
    {
        out.push(c);
    }
    out
}

/// Whether `c` separates tokens.
pub fn is_space_char(c: char) -> (b: bool)
    ensures
        b == is_space(c),
{
    let u: u32 = c as u32;
    (0x09 <= u && u <= 0x0D) || u == 0x20 || u == 0x85 || u == 0xA0 || u == 0x1680 || (0x2000 <= u
        && u <= 0x200A) || u == 0x2028 || u == 0x2029 || u == 0x202F || u == 0x205F || u == 0x3000
}

/// The tokens that a list of spans cuts out of `s`.
pub open spec fn spans_text(s: Seq<char>, spans: Seq<(usize, usize)>) -> Seq<Seq<char>> {
    Seq::new(spans.len(), |k: int| s.subrange(spans[k].0 as int, spans[k].1 as int))
}

/// Where the tokens of `s` lie: for each one, in order, the index of its first
/// character and the index after its last.
pub fn split_tokens(s: &[char]) -> (spans: Vec<(usize, usize)>)
    ensures
        spans_text(s@, spans@) == tokens(s@),
        forall|k: int|
            0 <= k < spans.len() ==> (#[trigger] spans[k]).0 < spans[k].1 <= s.len(),
{
    let n: usize = s.len();
    let mut spans: Vec<(usize, usize)> = Vec::new();
    let mut i: usize = 0;
    loop
        invariant
            n == s.len(),
            0 <= i <= n,
            tokens(s@) == spans_text(s@, spans@) + tokens_from(s@, i as int),
            forall|k: int| 0 <= k < spans.len() ==> (#[trigger] spans[k]).0 < spans[k].1 <= n,
        ensures
            tokens_from(s@, i as int) =~= Seq::<Seq<char>>::empty(),
        decreases n - i,
    {
        let mut a: usize = i;
        while a < n && is_space_char(s[a])
            invariant
                n == s.len(),
                i <= a <= n,
                token_start(s@, a as int) == token_start(s@, i as int),
            decreases n - a,
        {
            a += 1;
        }
        if a >= n {
            break ;
        }
        let mut b: usize = a + 1;
        proof {
            lemma_token_end(s@, a as int);
        }
        while b < n && !is_space_char(s[b])
            invariant
                n == s.len(),
                a < b <= n,
                token_end(s@, b as int) == token_end(s@, a as int),
            decreases n - b,
        {
            b += 1;
        }
        proof {
            let before = spans_text(s@, spans@);
            let after = spans_text(s@, spans@.push((a, b)));
            assert(after =~= before + seq![s@.subrange(a as int, b as int)]);
            assert(before + (seq![s@.subrange(a as int, b as int)] + tokens_from(s@, b as int))
                =~= after + tokens_from(s@, b as int));
        }
        spans.push((a, b));
        i = b;
    }
    assert(spans_text(s@, spans@) + Seq::<Seq<char>>::empty() =~= spans_text(s@, spans@));
    spans
}

/// The value of `c` as a digit in `radix`, if it is one.
pub fn digit_of(c: char, radix: u64) -> (d: Option<u64>)
    requires
        radix == 10 || radix == 16,
    ensures
        match d {
            Some(v) => digit_value(c, radix as int) == Some(v as int) && v < radix,
            None => digit_value(c, radix as int) is None,
        },
{
    let u: u32 = c as u32;
    if 0x30 <= u && u <= 0x39 {
        Some((u - 0x30) as u64)
    } else if radix == 16 && 0x61 <= u && u <= 0x66 {
        Some((u - 0x61 + 10) as u64)
    } else if radix == 16 && 0x41 <= u && u <= 0x46 {
        Some((u - 0x41 + 10) as u64)
    } else {
        None
    }
}

proof fn lemma_digits_value_prefix(s: Seq<char>, k: int, radix: int)
    requires
        0 <= k <= s.len(),
        radix >= 1,
    ensures
        0 <= digits_value(s.take(k), radix) <= digits_value(s, radix),
    decreases s.len(),
{
    if k == s.len() {
        assert(s.take(k) =~= s);
        if s.len() > 0 {
            lemma_digits_value_prefix(s.drop_last(), k - 1, radix);
            assert(s.drop_last().take(k - 1) =~= s.drop_last());
            assert(digits_value(s.drop_last(), radix) * radix >= 0) by (nonlinear_arith)
                requires
                    digits_value(s.drop_last(), radix) >= 0,
                    radix >= 1,
            ;
        }
    } else {
        lemma_digits_value_prefix(s.drop_last(), k, radix);
        assert(s.drop_last().take(k) =~= s.take(k));
        assert(digits_value(s.drop_last(), radix) * radix >= digits_value(s.drop_last(), radix))
            by (nonlinear_arith)
            requires
                digits_value(s.drop_last(), radix) >= 0,
                radix >= 1,
        ;
    }
}

/// The number that `s` writes in `radix`, where it writes one that fits.
pub fn parse_u64(s: &[char], radix: u64) -> (value: Option<u64>)
    requires
        radix == 10 || radix == 16,
    ensures
        value == parse_u64_spec(s@, radix as int),
{
    let n: usize = s.len();
    let first: usize = if n > 0 && s[0] == '+' {
        1
    } else {
        0
    };
    let ghost body = unsigned_digits(s@);
    assert(body =~= s@.skip(first as int));
    if first >= n {
        return None;
    }
    let mut acc: u64 = 0;
    let mut i: usize = first;
    while i < n
        invariant
            n == s.len(),
            first <= i <= n,
            radix == 10 || radix == 16,
            body == s@.skip(first as int),
            body == unsigned_digits(s@),
            all_digits(body.take(i - first), radix as int),
            acc == digits_value(body.take(i - first), radix as int),
        decreases n - i,
    {
        let ghost seen = body.take(i - first);
        let ghost next = body.take(i - first + 1);
        proof {
            assert(next.drop_last() =~= seen);
            assert(next.last() == s@[i as int]);
            lemma_digits_value_prefix(body, i - first + 1, radix as int);
            assert(next.len() > 0);
            assert(digits_value(next, radix as int) == acc * radix + match digit_value(
                s@[i as int],
                radix as int,
            ) {
                Some(d) => d,
                None => 0,
            });
        }
        match digit_of(s[i], radix) {
            None => {
                assert(digit_value(body[i - first], radix as int) is None);
                assert(!all_digits(body, radix as int));
                return None;
            },
            Some(d) => {
                let scaled = match acc.checked_mul(radix) {
                    Some(v) => v,
                    None => {
                        return None;
                    },
                };
                acc = match scaled.checked_add(d) {
                    Some(v) => v,
                    None => {
                        return None;
                    },
                };
                assert forall|k: int| 0 <= k < next.len() implies (#[trigger] digit_value(
                    next[k],
                    radix as int,
                )) is Some by {
                    if k < seen.len() {
                        assert(next[k] == seen[k]);
                    }
                }
            },
        }
        i += 1;
    }
    assert(body.take(i - first) =~= body);
    Some(acc)
}

/// The text made of the characters of `chars`, in order.
///
/// Calls `String::from_iter` of the standard library on the characters, which
/// collects them into a string one by one: the result holds exactly these
/// characters, in this order. That much is taken from its documentation and
/// not proved here.
#[verifier::external_body]
pub(crate) fn text_of(chars: &[char]) -> (text: String)
    ensures
        text@ == chars@,
{
    String::from_iter(chars.iter())
}

/// The text of the characters of `chars` from index `a` up to `b`.
pub fn text_between(chars: &[char], a: usize, b: usize) -> (text: String)
    requires
        a <= b <= chars.len(),
    ensures
        text@ == chars@.subrange(a as int, b as int),
{
    text_of(vstd::slice::slice_subrange(chars, a, b))
}

/// First index at or after `i` that holds the character `c`, or the length.
pub open spec fn find_from(s: Seq<char>, c: char, i: int) -> int
    decreases s.len() - i,
{
    if 0 <= i < s.len() && s[i] != c {
        find_from(s, c, i + 1)
    } else {
        i
    }
}

/// Where the search for a character ends: at its first occurrence, with none
/// before it.
pub proof fn lemma_find_from(s: Seq<char>, c: char, i: int)
    requires
        0 <= i,
    ensures
        i <= find_from(s, c, i),
        i <= s.len() ==> find_from(s, c, i) <= s.len(),
        find_from(s, c, i) < s.len() ==> s[find_from(s, c, i)] == c,
        forall|k: int| i <= k < find_from(s, c, i) ==> #[trigger] s[k] != c,
    decreases s.len() - i,
{
    if i < s.len() && s[i] != c {
        lemma_find_from(s, c, i + 1);
    }
}

/// First index at or after `from` at which `s` holds `c`, or its length.
pub fn find_char(s: &[char], c: char, from: usize) -> (at: usize)
    requires
        from <= s.len(),
    ensures
        at == find_from(s@, c, from as int),
        from <= at <= s.len(),
{
    let mut at: usize = from;
    while at < s.len() && s[at] != c
        invariant
            from <= at <= s.len(),
            find_from(s@, c, at as int) == find_from(s@, c, from as int),
        decreases s.len() - at,
    {
        at += 1;
    }
    at
}

/// The tokens of `ts` in order, with one space between neighbours.
pub open spec fn join_spaced(ts: Seq<Seq<char>>) -> Seq<char>
    decreases ts.len(),
{
    if ts.len() == 0 {
        Seq::empty()
    } else if ts.len() == 1 {
        ts[0]
    } else {
        join_spaced(ts.drop_last()) + seq![' '] + ts.last()
    }
}

/// The character that writes the digit `d`: `0` to `9`, then `a` to `f`.
pub open spec fn digit_char(d: int) -> char {
    if d < 10 {
        ('0' as int + d) as char
    } else {
        ('a' as int + d - 10) as char
    }
}

/// The digits that write `v` in `radix`, most significant first, without
/// leading zeros.
pub open spec fn digits_of(v: nat, radix: nat) -> Seq<char>
    decreases v,
    via digits_of_decreases
{
    if v < radix || radix < 2 {
        seq![digit_char(v as int)]
    } else {
        digits_of(v / radix, radix).push(digit_char((v % radix) as int))
    }
}

#[via_fn]
proof fn digits_of_decreases(v: nat, radix: nat) {
    if v >= radix && radix >= 2 {
        assert(v / radix < v) by (nonlinear_arith)
            requires
                v >= radix,
                radix >= 2,
        ;
    }
}

/// The character that writes the digit `d`.
fn hex_digit(d: u64) -> (c: char)
    requires
        d < 16,
    ensures
        c == digit_char(d as int),
{
    if d == 0 {
        '0'
    } else if d == 1 {
        '1'
    } else if d == 2 {
        '2'
    } else if d == 3 {
        '3'
    } else if d == 4 {
        '4'
    } else if d == 5 {
        '5'
    } else if d == 6 {
        '6'
    } else if d == 7 {
        '7'
    } else if d == 8 {
        '8'
    } else if d == 9 {
        '9'
    } else if d == 10 {
        'a'
    } else if d == 11 {
        'b'
    } else if d == 12 {
        'c'
    } else if d == 13 {
        'd'
    } else if d == 14 {
        'e'
    } else {
        'f'
    }
}

/// The items of `s` in the opposite order.
spec fn backwards(s: Seq<char>) -> Seq<char> {
    Seq::new(s.len(), |i: int| s[s.len() - 1 - i])
}

/// The digits of `v` in `radix`, behind `lead`.
pub fn number_chars(v: u64, radix: u64, lead: Vec<char>) -> (shown: Vec<char>)
    requires
        radix == 10 || radix == 16,
    ensures
        shown@ == lead@ + digits_of(v as nat, radix as nat),
{
    let mut low_first: Vec<char> = Vec::new();
    let mut rest: u64 = v;
    assert(digits_of(rest as nat, radix as nat) + backwards(low_first@) =~= digits_of(
        v as nat,
        radix as nat,
    ));
    while rest >= radix
        invariant
            radix == 10 || radix == 16,
            digits_of(v as nat, radix as nat) == digits_of(rest as nat, radix as nat) + backwards(
                low_first@,
            ),
        decreases rest,
    {
        let ghost before = low_first@;
        let c = hex_digit(rest % radix);
        low_first.push(c);
        proof {
            let higher = digits_of((rest / radix) as nat, radix as nat);
            assert(digits_of(rest as nat, radix as nat) == higher.push(c));
            assert(higher.push(c) + backwards(before) =~= higher + backwards(low_first@));
        }
        rest = rest / radix;
    }
    let ghost before = low_first@;
    let last = hex_digit(rest);
    low_first.push(last);
    assert(digits_of(v as nat, radix as nat) =~= backwards(low_first@)) by {
        assert(digits_of(rest as nat, radix as nat) == seq![last]);
        assert(seq![last] + backwards(before) =~= backwards(low_first@));
    }
    let ghost given = lead@;
    let mut shown: Vec<char> = lead;
    let n: usize = low_first.len();
    let mut k: usize = n;
    while k > 0
        invariant
            n == low_first.len(),
            k <= n,
            shown@ == given + backwards(low_first@).take(n - k),
        decreases k,
    {
        k -= 1;
        shown.push(low_first[k]);
        assert(shown@ =~= given + backwards(low_first@).take(n - k));
    }
    assert(backwards(low_first@).take(n as int) =~= backwards(low_first@));
    shown
}

/// `v` in hexadecimal with `0x` in front.
pub open spec fn hex_of(v: u64) -> Seq<char> {
    seq!['0', 'x'] + digits_of(v as nat, 16)
}

/// `v` in hexadecimal with `0x` in front.
pub fn hex_text(v: u64) -> (text: String)
    ensures
        text@ == hex_of(v),
{
    let mut lead: Vec<char> = Vec::new();
    lead.push('0');
    lead.push('x');
    assert(lead@ =~= seq!['0', 'x']);
    text_of(number_chars(v, 16, lead).as_slice())
}

/// `v` in decimal.
pub fn decimal_text(v: u64) -> (text: String)
    ensures
        text@ == digits_of(v as nat, 10),
{
    let shown = number_chars(v, 10, Vec::new());
    assert(shown@ =~= digits_of(v as nat, 10));
    text_of(shown.as_slice())
}

/// The digits of a number are digits, begin with no sign, and write the
/// number.
pub proof fn lemma_digits_of(v: nat, radix: nat)
    requires
        radix == 10 || radix == 16,
    ensures
        digits_of(v, radix).len() > 0,
        all_digits(digits_of(v, radix), radix as int),
        digits_value(digits_of(v, radix), radix as int) == v,
        forall|k: int|
            0 <= k < digits_of(v, radix).len() ==> (#[trigger] digits_of(v, radix)[k]) != '+'
                && digits_of(v, radix)[k] != '-' && !is_space(digits_of(v, radix)[k]),
    decreases v,
{
    let ds = digits_of(v, radix);
    if v < radix {
        let c = digit_char(v as int);
        assert(digit_value(c, radix as int) == Some(v as int));
        assert(ds.drop_last() =~= Seq::<char>::empty());
        assert(digits_value(ds.drop_last(), radix as int) == 0);
        assert(ds.last() == c);
    } else {
        let higher = digits_of(v / radix, radix);
        lemma_digits_of(v / radix, radix);
        let c = digit_char((v % radix) as int);
        assert(digit_value(c, radix as int) == Some((v % radix) as int));
        assert(ds.drop_last() =~= higher);
        assert(ds.last() == c);
        assert((v / radix) * radix + v % radix == v) by (nonlinear_arith)
            requires
                radix > 0,
        ;
        assert forall|k: int| 0 <= k < ds.len() implies (#[trigger] digit_value(
            ds[k],
            radix as int,
        )) is Some by {
            if k < higher.len() {
                assert(ds[k] == higher[k]);
            }
        }
        assert forall|k: int| 0 <= k < ds.len() implies (#[trigger] ds[k]) != '+' && ds[k] != '-'
            && !is_space(ds[k]) by {
            if k < higher.len() {
                assert(ds[k] == higher[k]);
            }
        }
    }
}

/// A number written in a radix reads back as itself.
pub proof fn law_number_reads_back(v: u64, radix: nat)
    requires
        radix == 10 || radix == 16,
    ensures
        parse_u64_spec(digits_of(v as nat, radix), radix as int) == Some(v),
{
    lemma_digits_of(v as nat, radix);
    let ds = digits_of(v as nat, radix);
    assert(ds[0] != '+');
}

/// Whether `t` can be a token: it has a character, and none separates.
pub open spec fn is_word(t: Seq<char>) -> bool {
    t.len() > 0 && forall|k: int| 0 <= k < t.len() ==> !is_space(#[trigger] t[k])
}

/// Whether every item of `ts` can be a token.
pub open spec fn all_words(ts: Seq<Seq<char>>) -> bool {
    forall|k: int| 0 <= k < ts.len() ==> is_word(#[trigger] ts[k])
}

/// Every token is a word.
proof fn lemma_tokens_are_words(s: Seq<char>, i: int)
    requires
        0 <= i,
    ensures
        all_words(tokens_from(s, i)),
    decreases s.len() - i,
{
    let a = token_start(s, i);
    lemma_token_start(s, i);
    if a < s.len() {
        let b = token_end(s, a);
        lemma_token_end(s, a);
        lemma_tokens_are_words(s, b);
        let rest = tokens_from(s, b);
        let all = tokens_from(s, i);
        assert(all =~= seq![s.subrange(a, b)] + rest);
        assert forall|k: int| 0 <= k < all.len() implies is_word(#[trigger] all[k]) by {
            if k == 0 {
                assert(all[0] == s.subrange(a, b));
                assert forall|j: int| 0 <= j < b - a implies !is_space(
                    #[trigger] s.subrange(a, b)[j],
                ) by {
                    assert(!is_space(s[a + j]));
                }
            } else {
                assert(all[k] == rest[k - 1]);
            }
        }
    }
}

/// A word that runs to the end of a text ends there.
proof fn lemma_word_runs_to_end(u: Seq<char>, from: int)
    requires
        0 <= from < u.len(),
        forall|k: int| from <= k < u.len() ==> !is_space(#[trigger] u[k]),
    ensures
        token_start(u, from) == from,
        token_end(u, from) == u.len(),
        tokens_from(u, from) == seq![u.subrange(from, u.len() as int)],
{
    lemma_token_end(u, from);
    let b = token_end(u, from);
    if b < u.len() {
        assert(!is_space(u[b]));
    }
    assert(token_start(u, b) == b);
    assert(tokens_from(u, b) =~= Seq::<Seq<char>>::empty());
    assert(tokens_from(u, from) =~= seq![u.subrange(from, b)] + tokens_from(u, b));
}

proof fn lemma_start_with_word_appended(s: Seq<char>, t: Seq<char>, i: int)
    requires
        is_word(t),
        0 <= i <= s.len(),
    ensures
        token_start(s, i) < s.len() ==> token_start(s + seq![' '] + t, i) == token_start(s, i),
        token_start(s, i) >= s.len() ==> token_start(s + seq![' '] + t, i) == s.len() + 1,
    decreases s.len() - i,
{
    let u = s + seq![' '] + t;
    let n = s.len() as int;
    if i < n {
        assert(u[i] == s[i]);
        if is_space(s[i]) {
            lemma_start_with_word_appended(s, t, i + 1);
        }
    } else {
        assert(u[n] == ' ');
        assert(is_space(' '));
        assert(u[n + 1] == t[0]);
        assert(token_start(u, n + 1) == n + 1);
    }
}

proof fn lemma_end_with_word_appended(s: Seq<char>, t: Seq<char>, a: int)
    requires
        0 <= a <= s.len(),
    ensures
        token_end(s + seq![' '] + t, a) == token_end(s, a),
    decreases s.len() - a,
{
    let u = s + seq![' '] + t;
    let n = s.len() as int;
    if a < n {
        assert(u[a] == s[a]);
        if !is_space(s[a]) {
            lemma_end_with_word_appended(s, t, a + 1);
        }
    } else {
        assert(u[n] == ' ');
        assert(is_space(' '));
    }
}

/// A word appended after one space adds itself to the tokens.
proof fn lemma_tokens_append_word(s: Seq<char>, t: Seq<char>, i: int)
    requires
        is_word(t),
        0 <= i <= s.len(),
    ensures
        tokens_from(s + seq![' '] + t, i) == tokens_from(s, i).push(t),
    decreases s.len() - i,
{
    let u = s + seq![' '] + t;
    let n = s.len() as int;
    let a = token_start(s, i);
    lemma_token_start(s, i);
    lemma_start_with_word_appended(s, t, i);
    if a < n {
        let b = token_end(s, a);
        lemma_token_end(s, a);
        lemma_end_with_word_appended(s, t, a);
        lemma_tokens_append_word(s, t, b);
        assert(u.subrange(a, b) =~= s.subrange(a, b));
        assert(tokens_from(u, i) =~= seq![u.subrange(a, b)] + tokens_from(u, b));
        assert(tokens_from(s, i) =~= seq![s.subrange(a, b)] + tokens_from(s, b));
        assert(tokens_from(u, i) =~= tokens_from(s, i).push(t));
    } else {
        assert(tokens_from(s, i) =~= Seq::<Seq<char>>::empty());
        assert forall|k: int| n + 1 <= k < u.len() implies !is_space(#[trigger] u[k]) by {
            assert(u[k] == t[k - n - 1]);
        }
        lemma_word_runs_to_end(u, n + 1);
        assert(u.subrange(n + 1, u.len() as int) =~= t);
        assert(token_start(u, i) == n + 1);
        assert(tokens_from(u, i) =~= seq![u.subrange(n + 1, token_end(u, n + 1))] + tokens_from(
            u,
            token_end(u, n + 1),
        ));
        assert(token_start(u, u.len() as int) == u.len());
        assert(tokens_from(u, u.len() as int) =~= Seq::<Seq<char>>::empty());
        assert(tokens_from(u, i) =~= Seq::<Seq<char>>::empty().push(t));
    }
}

/// Words joined by single spaces split into the same words again.
pub proof fn law_join_then_split(ws: Seq<Seq<char>>)
    requires
        all_words(ws),
    ensures
        tokens(join_spaced(ws)) == ws,
    decreases ws.len(),
{
    if ws.len() == 0 {
        assert(tokens(join_spaced(ws)) =~= ws);
    } else if ws.len() == 1 {
        let t = ws[0];
        assert(is_word(t));
        lemma_word_runs_to_end(t, 0);
        assert(t.subrange(0, t.len() as int) =~= t);
        assert(tokens(join_spaced(ws)) =~= ws);
    } else {
        let front = ws.drop_last();
        assert forall|k: int| 0 <= k < front.len() implies is_word(#[trigger] front[k]) by {
            assert(front[k] == ws[k]);
        }
        law_join_then_split(front);
        assert(is_word(ws.last()));
        lemma_tokens_append_word(join_spaced(front), ws.last(), 0);
        assert(front.push(ws.last()) =~= ws);
    }
}

/// Writing the tokens of a text with single spaces between them gives a text
/// with the same tokens: only the tokens of a text matter, not the whitespace
/// around them.
pub proof fn law_split_ignores_layout(s: Seq<char>)
    ensures
        tokens(join_spaced(tokens(s))) == tokens(s),
{
    lemma_tokens_are_words(s, 0);
    law_join_then_split(tokens(s));
}

/// Whether every character of `g` separates tokens.
pub open spec fn is_gap(g: Seq<char>) -> bool {
    forall|k: int| 0 <= k < g.len() ==> is_space(#[trigger] g[k])
}

/// Whether `gaps` can lie around the words `ws`: one gap before each word
/// and one after the last, each made of separators, and none empty between
/// two words.
pub open spec fn gaps_fit(ws: Seq<Seq<char>>, gaps: Seq<Seq<char>>) -> bool {
    &&& gaps.len() == ws.len() + 1
    &&& forall|k: int| 0 <= k < gaps.len() ==> is_gap(#[trigger] gaps[k])
    &&& forall|k: int| 0 < k < ws.len() ==> (#[trigger] gaps[k]).len() > 0
}

/// The text that writes the words `ws` with the gaps `gaps` around them:
/// gap, word, gap, word, and so on, ending with a gap.
pub open spec fn spread(ws: Seq<Seq<char>>, gaps: Seq<Seq<char>>) -> Seq<char>
    recommends
        gaps.len() == ws.len() + 1,
    decreases ws.len(),
{
    if ws.len() == 0 || gaps.len() == 0 {
        if gaps.len() > 0 {
            gaps[0]
        } else {
            Seq::empty()
        }
    } else {
        spread(ws.drop_last(), gaps.drop_last()) + ws.last() + gaps.last()
    }
}

proof fn lemma_spread_ends_in_gap(ws: Seq<Seq<char>>, gaps: Seq<Seq<char>>)
    requires
        gaps_fit(ws, gaps),
        ws.len() == 0 || gaps.last().len() > 0,
    ensures
        spread(ws, gaps).len() == 0 || is_space(spread(ws, gaps).last()),
{
    if ws.len() == 0 {
        let g = gaps[0];
        assert(is_gap(g));
        if g.len() > 0 {
            assert(is_space(g[g.len() - 1]));
        }
    } else {
        let g = gaps.last();
        assert(is_gap(g));
        assert(is_space(g[g.len() - 1]));
        assert(spread(ws, gaps).last() == g[g.len() - 1]);
    }
}

proof fn lemma_start_with_word_added(s: Seq<char>, t: Seq<char>, g: Seq<char>, i: int)
    requires
        is_word(t),
        0 <= i <= s.len(),
    ensures
        token_start(s, i) < s.len() ==> token_start(s + t + g, i) == token_start(s, i),
        token_start(s, i) >= s.len() ==> token_start(s + t + g, i) == s.len(),
    decreases s.len() - i,
{
    let u = s + t + g;
    let n = s.len() as int;
    if i < n {
        assert(u[i] == s[i]);
        if is_space(s[i]) {
            lemma_start_with_word_added(s, t, g, i + 1);
        }
    } else {
        assert(u[n] == t[0]);
    }
}

proof fn lemma_end_with_word_added(s: Seq<char>, t: Seq<char>, g: Seq<char>, a: int)
    requires
        0 <= a <= s.len(),
        token_end(s, a) < s.len(),
    ensures
        token_end(s + t + g, a) == token_end(s, a),
    decreases s.len() - a,
{
    let u = s + t + g;
    if a < s.len() {
        assert(u[a] == s[a]);
        if !is_space(s[a]) {
            lemma_end_with_word_added(s, t, g, a + 1);
        }
    }
}

/// A word added after a text that ends in a separator, with separators
/// behind it, adds itself to the tokens.
proof fn lemma_tokens_add_word(s: Seq<char>, t: Seq<char>, g: Seq<char>, i: int)
    requires
        is_word(t),
        is_gap(g),
        s.len() == 0 || is_space(s.last()),
        0 <= i <= s.len(),
    ensures
        tokens_from(s + t + g, i) == tokens_from(s, i).push(t),
    decreases s.len() - i,
{
    let u = s + t + g;
    let n = s.len() as int;
    let a = token_start(s, i);
    lemma_token_start(s, i);
    lemma_start_with_word_added(s, t, g, i);
    if a < n {
        let b = token_end(s, a);
        lemma_token_end(s, a);
        if b >= n {
            assert(!is_space(s[n - 1]));
        }
        lemma_end_with_word_added(s, t, g, a);
        lemma_tokens_add_word(s, t, g, b);
        assert(u.subrange(a, b) =~= s.subrange(a, b));
        assert(tokens_from(u, i) =~= seq![u.subrange(a, b)] + tokens_from(u, b));
        assert(tokens_from(s, i) =~= seq![s.subrange(a, b)] + tokens_from(s, b));
        assert(tokens_from(u, i) =~= tokens_from(s, i).push(t));
    } else {
        assert(tokens_from(s, i) =~= Seq::<Seq<char>>::empty());
        assert(token_start(u, i) == n);
        assert(u[n] == t[0]);
        lemma_token_end(u, n);
        let e = token_end(u, n);
        let m = n + t.len();
        if e < m {
            assert(u[e] == t[e - n]);
        }
        if e > m {
            assert(u[m] == g[0]);
            assert(!is_space(u[m]));
        }
        assert(e == m);
        assert(u.subrange(n, e) =~= t);
        lemma_token_start(u, e);
        let r = token_start(u, e);
        if r < u.len() {
            assert(u[r] == g[r - m]);
        }
        assert(tokens_from(u, e) =~= Seq::<Seq<char>>::empty());
        assert(tokens_from(u, i) =~= seq![u.subrange(n, e)] + tokens_from(u, e));
        assert(tokens_from(u, i) =~= Seq::<Seq<char>>::empty().push(t));
    }
}

/// Whatever whitespace lies before, between and behind them, words split
/// into themselves: the gaps may be of any length and of any separators, as
/// long as there is one between two words.
pub proof fn law_split_ignores_gaps(ws: Seq<Seq<char>>, gaps: Seq<Seq<char>>)
    requires
        all_words(ws),
        gaps_fit(ws, gaps),
    ensures
        tokens(spread(ws, gaps)) == ws,
    decreases ws.len(),
{
    if ws.len() == 0 {
        let g = gaps[0];
        assert(is_gap(g));
        lemma_token_start(g, 0);
        let r = token_start(g, 0);
        if r < g.len() {
            assert(is_space(g[r]));
        }
        assert(tokens(g) =~= ws);
    } else {
        let front = ws.drop_last();
        let inner = gaps.drop_last();
        assert forall|k: int| 0 <= k < front.len() implies is_word(#[trigger] front[k]) by {
            assert(front[k] == ws[k]);
        }
        assert forall|k: int| 0 <= k < inner.len() implies is_gap(#[trigger] inner[k]) by {
            assert(inner[k] == gaps[k]);
        }
        assert forall|k: int| 0 < k < front.len() implies (#[trigger] inner[k]).len() > 0 by {
            assert(inner[k] == gaps[k]);
        }
        if front.len() > 0 {
            assert(inner.last() == gaps[ws.len() - 1]);
        }
        law_split_ignores_gaps(front, inner);
        lemma_spread_ends_in_gap(front, inner);
        assert(is_word(ws.last()));
        assert(is_gap(gaps.last()));
        lemma_tokens_add_word(spread(front, inner), ws.last(), gaps.last(), 0);
        assert(front.push(ws.last()) =~= ws);
    }
}

} // verus!
