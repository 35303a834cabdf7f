//! Character-level helpers shared by the encoders and decoders.
//!
//! Text is modelled as `Seq<char>`. Executable code works on `Vec<char>` and
//! turns it into a `String` at the edges.

use vstd::prelude::*;
use crate::views::{
    lemma_deep_view_index, lemma_empty_deep_view, lemma_push_deep_view, lemma_take_next,
};

verus! {

/// `String::push` appends the character to the end of the string.
pub assume_specification[ String::push ](s: &mut String, c: char)
    ensures
        final(s)@ == old(s)@.push(c),
;

/// `==` on string slices holds of two slices just when they are made of the
/// same characters.
pub assume_specification[ <str as PartialEq>::eq ](a: &str, b: &str) -> (same: bool)
    ensures
        same == (a@ == b@),
;

/// The characters of `s`, one element per `char`.
pub fn to_chars(s: &str) -> (out: Vec<char>)
    ensures
        out@ == s@,
{
    let mut out: Vec<char> = Vec::new();
    for c in it: s.chars()
        invariant
            out@ == it.seq().take(it.index() as int),
    {
        out.push(c);
    }
    out
}

/// The string made of the characters of `cs`, in order.
pub fn from_chars(cs: &Vec<char>) -> (out: String)
    ensures
        out@ == cs@,
{
    let mut out = String::new();
    let mut i: usize = 0;
    while i < cs.len()
        invariant
            i <= cs.len(),
            out@ == cs@.take(i as int),
        decreases cs.len() - i,
    {
        out.push(cs[i]);
        i += 1;
    }
    out
}

/// Whether two character vectors hold the same text.
pub fn chars_eq(a: &Vec<char>, b: &Vec<char>) -> (same: bool)
    ensures
        same == (a@ == b@),
{
    if a.len() != b.len() {
        return false;
    }
    let mut i: usize = 0;
    while i < a.len()
        invariant
            i <= a.len(),
            a.len() == b.len(),
            a@.take(i as int) == b@.take(i as int),
        decreases a.len() - i,
    {
        if a[i] != b[i] {
            return false;
        }
        assert(a@.take(i + 1) == a@.take(i as int).push(a@[i as int]));
        assert(b@.take(i + 1) == b@.take(i as int).push(b@[i as int]));
        i += 1;
    }
    assert(a@ == a@.take(a.len() as int));
    assert(b@ == b@.take(b.len() as int));
    true
}

/// Whether two strings hold the same text.
pub fn str_eq(a: &str, b: &str) -> (same: bool)
    ensures
        same == (a@ == b@),
{
    *a == *b
}

/// Whether `text` begins with `prefix`.
pub fn starts_with(text: &Vec<char>, prefix: &Vec<char>) -> (yes: bool)
    ensures
        yes == prefix@.is_prefix_of(text@),
{
    if prefix.len() > text.len() {
        return false;
    }
    let mut i: usize = 0;
    while i < prefix.len()
        invariant
            i <= prefix.len() <= text.len(),
            forall|j: int| 0 <= j < i ==> prefix@[j] == text@[j],
        decreases prefix.len() - i,
    {
        if prefix[i] != text[i] {
            return false;
        }
        i += 1;
    }
    assert(prefix@ == text@.subrange(0, prefix@.len() as int));
    true
}

/// The characters of `s` from index `from` up to, not including, `to`.
pub fn slice_chars(s: &Vec<char>, from: usize, to: usize) -> (out: Vec<char>)
    requires
        from <= to <= s.len(),
    ensures
        out@ == s@.subrange(from as int, to as int),
{
    let mut out: Vec<char> = Vec::new();
    let mut i: usize = from;
    while i < to
        invariant
            from <= i <= to <= s.len(),
            out@ == s@.subrange(from as int, i as int),
        decreases to - i,
    {
        out.push(s[i]);
        i += 1;
    }
    out
}

/// The decimal digit that stands for `d`, for `d` below ten.
pub open spec fn digit_char(d: nat) -> char {
    if d == 0 {
        '0'
    } else if d == 1 {
        '1'
    } else if d == 2 {
        '2'
    } else if d == 3 {
        '3'
    } else if d == 4 {
        '4'
    } else if d == 5 {
        '5'
    } else if d == 6 {
        '6'
    } else if d == 7 {
        '7'
    } else if d == 8 {
        '8'
    } else {
        '9'
    }
}

/// The value of a decimal digit, if `c` is one.
pub open spec fn digit_value(c: char) -> Option<nat> {
    if c == '0' {
        Some(0)
    } else if c == '1' {
        Some(1)
    } else if c == '2' {
        Some(2)
    } else if c == '3' {
        Some(3)
    } else if c == '4' {
        Some(4)
    } else if c == '5' {
        Some(5)
    } else if c == '6' {
        Some(6)
    } else if c == '7' {
        Some(7)
    } else if c == '8' {
        Some(8)
    } else if c == '9' {
        Some(9)
    } else {
        None
    }
}

/// The shortest decimal numeral of `n`: no sign, no leading zero but for zero itself.
pub open spec fn decimal(n: nat) -> Seq<char>
    decreases n,
{
    if n < 10 {
        seq![digit_char(n)]
    } else {
        decimal(n / 10).push(digit_char(n % 10))
    }
}

fn digit_of(d: u64) -> (c: char)
    requires
        d < 10,
    ensures
        c == digit_char(d as nat),
{
    if d == 0 {
        '0'
    } else if d == 1 {
        '1'
    } else if d == 2 {
        '2'
    } else if d == 3 {
        '3'
    } else if d == 4 {
        '4'
    } else if d == 5 {
        '5'
    } else if d == 6 {
        '6'
    } else if d == 7 {
        '7'
    } else if d == 8 {
        '8'
    } else {
        '9'
    }
}

fn value_of_digit(c: char) -> (d: Option<u64>)
    ensures
        d is Some == digit_value(c) is Some,
        d is Some ==> d->0 == digit_value(c)->0 && d->0 < 10,
{
    if c == '0' {
        Some(0)
    } else if c == '1' {
        Some(1)
    } else if c == '2' {
        Some(2)
    } else if c == '3' {
        Some(3)
    } else if c == '4' {
        Some(4)
    } else if c == '5' {
        Some(5)
    } else if c == '6' {
        Some(6)
    } else if c == '7' {
        Some(7)
    } else if c == '8' {
        Some(8)
    } else if c == '9' {
        Some(9)
    } else {
        None
    }
}

/// Appends the decimal numeral of `n` to `out`.
pub fn push_decimal(out: &mut Vec<char>, n: u64)
    ensures
        final(out)@ == old(out)@ + decimal(n as nat),
    decreases n,
{
    if n >= 10 {
        push_decimal(out, n / 10);
    }
    out.push(digit_of(n % 10));
}

/// The decimal numeral of `n` as a string.
pub fn decimal_string(n: u64) -> (out: String)
    ensures
        out@ == decimal(n as nat),
{
    let mut cs: Vec<char> = Vec::new();
    push_decimal(&mut cs, n);
    from_chars(&cs)
}

/// Whether every character of `s` is a decimal digit.
pub open spec fn all_digits(s: Seq<char>) -> bool {
    forall|i: int| 0 <= i < s.len() ==> digit_value(#[trigger] s[i]) is Some
}

/// The number that the digit string `s` denotes, leading zeros allowed; zero for the empty string.
pub open spec fn digits_nat(s: Seq<char>) -> nat
    decreases s.len(),
{
    if s.len() == 0 {
        0
    } else {
        match digit_value(s.last()) {
            Some(d) => 10 * digits_nat(s.drop_last()) + d,
            None => 0,
        }
    }
}

/// The number that `s` denotes as an unsigned integer no larger than `max`: an
/// optional `+`, then one or more decimal digits and nothing else. `None` where
/// `s` has another shape or the number exceeds `max`.
pub open spec fn unsigned_from_text(s: Seq<char>, max: nat) -> Option<nat> {
    let body = if s.len() > 0 && s[0] == '+' {
        s.skip(1)
    } else {
        s
    };
    if body.len() > 0 && all_digits(body) && digits_nat(body) <= max {
        Some(digits_nat(body))
    } else {
        None
    }
}

/// A digit string denotes at least what any of its prefixes denotes.
pub proof fn lemma_digits_nat_monotone(s: Seq<char>, k: int)
    requires
        all_digits(s),
        0 <= k <= s.len(),
    ensures
        digits_nat(s.take(k)) <= digits_nat(s),
    decreases s.len() - k,
{
    if k == s.len() {
        assert(s.take(k) == s);
    } else {
        lemma_digits_nat_monotone(s, k + 1);
        let t = s.take(k + 1);
        assert(t.drop_last() == s.take(k));
        assert(t.last() == s[k]);
        assert(digit_value(s[k]) is Some);
    }
}

/// Reads `s` as an unsigned decimal integer no larger than `max`.
pub fn parse_unsigned(s: &Vec<char>, max: u64) -> (out: Option<u64>)
    requires
        max <= u64::MAX / 10 - 1,
    ensures
        out is Some == unsigned_from_text(s@, max as nat) is Some,
        out is Some ==> out->0 == unsigned_from_text(s@, max as nat)->0,
{
    let start: usize = if s.len() > 0 && s[0] == '+' {
        1
    } else {
        0
    };
    let ghost body = s@.skip(start as int);
    proof {
        assert(s@.skip(0) == s@);
    }
    if start == s.len() {
        return None;
    }
    let mut acc: u64 = 0;
    let mut i: usize = start;
    while i < s.len()
        invariant
            start <= i <= s.len(),
            body == s@.skip(start as int),
            body == if s@.len() > 0 && s@[0] == '+' {
                s@.skip(1)
            } else {
                s@
            },
            all_digits(body.take(i - start)),
            acc == digits_nat(body.take(i - start)),
            acc <= max,
            max <= u64::MAX / 10 - 1,
        decreases s.len() - i,
    {
        let ghost before = body.take(i - start);
        let ghost after = body.take(i + 1 - start);
        proof {
            assert(after.drop_last() == before);
            assert(after.last() == s@[i as int]);
        }
        match value_of_digit(s[i]) {
            None => {
                assert(!all_digits(body)) by {
                    assert(body[i - start] == s@[i as int]);
                }
                return None;
            },
            Some(d) => {
                assert(all_digits(after)) by {
                    assert forall|j: int| 0 <= j < after.len() implies digit_value(
                        #[trigger] after[j],
                    ) is Some by {
                        if j < before.len() {
                            assert(after[j] == before[j]);
                        }
                    }
                }
                let next = acc * 10 + d;
                if next > max {
                    proof {
                        if all_digits(body) {
                            lemma_digits_nat_monotone(body, i + 1 - start);
                        }
                    }
                    return None;
                }
                acc = next;
            },
        }
        i += 1;
    }
    assert(body.take(i - start) == body);
    Some(acc)
}

/// A vector of characters is viewed deeply as it is viewed.
pub proof fn lemma_chars_deep_view(v: Vec<char>)
    ensures
        v.deep_view() == v@,
{
    assert(v.deep_view() =~= v@);
}

/// The index of the first `c` in `s`, or the length of `s` where it holds none.
pub open spec fn find(s: Seq<char>, c: char) -> int
    decreases s.len(),
{
    if s.len() == 0 || s[0] == c {
        0
    } else {
        1 + find(s.skip(1), c)
    }
}

/// `find` returns the first index that holds `c`, and nothing before it does.
pub proof fn lemma_find(s: Seq<char>, c: char)
    ensures
        0 <= find(s, c) <= s.len(),
        find(s, c) < s.len() ==> s[find(s, c)] == c,
        forall|j: int| 0 <= j < find(s, c) ==> s[j] != c,
    decreases s.len(),
{
    if s.len() == 0 || s[0] == c {
    } else {
        let t = s.skip(1);
        lemma_find(t, c);
        assert forall|j: int| 0 <= j < find(s, c) implies s[j] != c by {
            if j > 0 {
                assert(t[j - 1] == s[j]);
            }
        }
    }
}

/// An index that holds `c`, or the length, with no `c` before it, is what `find` returns.
pub proof fn lemma_find_is(s: Seq<char>, c: char, i: int)
    requires
        0 <= i <= s.len(),
        i < s.len() ==> s[i] == c,
        forall|j: int| 0 <= j < i ==> s[j] != c,
    ensures
        find(s, c) == i,
{
    lemma_find(s, c);
}

/// The pieces of `s` between occurrences of `c`: one more piece than there are occurrences.
pub open spec fn split(s: Seq<char>, c: char) -> Seq<Seq<char>>
    decreases s.len(),
{
    let i = find(s, c);
    if 0 <= i < s.len() {
        seq![s.take(i)] + split(s.skip(i + 1), c)
    } else {
        seq![s]
    }
}

/// Splitting yields at least one piece.
pub proof fn lemma_split_nonempty(s: Seq<char>, c: char)
    ensures
        split(s, c).len() >= 1,
{
}

/// `s` cut at its first `c`: what stands before it and what follows it.
pub open spec fn split_once(s: Seq<char>, c: char) -> Option<(Seq<char>, Seq<char>)> {
    let i = find(s, c);
    if 0 <= i < s.len() {
        Some((s.take(i), s.skip(i + 1)))
    } else {
        None
    }
}

/// What stands before the first `c` of `s`; all of `s` where it holds none.
pub open spec fn head(s: Seq<char>, c: char) -> Seq<char> {
    s.take(find(s, c))
}

/// What follows the first `c` of `s`, if there is one.
pub open spec fn tail(s: Seq<char>, c: char) -> Option<Seq<char>> {
    let i = find(s, c);
    if 0 <= i < s.len() {
        Some(s.skip(i + 1))
    } else {
        None
    }
}

/// The index of the first `c` at or after `from`, or the length of `s`.
pub fn find_char(s: &Vec<char>, from: usize, c: char) -> (at: usize)
    requires
        from <= s.len(),
    ensures
        from <= at <= s.len(),
        at == from + find(s@.skip(from as int), c),
{
    let mut i: usize = from;
    while i < s.len() && s[i] != c
        invariant
            from <= i <= s.len(),
            forall|j: int| from <= j < i ==> s@[j] != c,
        decreases s.len() - i,
    {
        i += 1;
    }
    proof {
        lemma_find_is(s@.skip(from as int), c, i - from);
    }
    i
}

/// Cuts `s` at its first `c`.
pub fn split_once_chars(s: &Vec<char>, c: char) -> (out: Option<(Vec<char>, Vec<char>)>)
    ensures
        match out {
            Some((before, after)) => split_once(s@, c) == Some((before@, after@)),
            None => split_once(s@, c) is None,
        },
{
    let at = find_char(s, 0, c);
    proof {
        assert(s@.skip(0) == s@);
    }
    if at < s.len() {
        Some((slice_chars(s, 0, at), slice_chars(s, at + 1, s.len())))
    } else {
        None
    }
}

/// What stands before the first `c` of `s`, and what follows it if there is one.
pub fn head_tail_chars(s: &Vec<char>, c: char) -> (out: (Vec<char>, Option<Vec<char>>))
    ensures
        out.0@ == head(s@, c),
        match out.1 {
            Some(after) => tail(s@, c) == Some(after@),
            None => tail(s@, c) is None,
        },
{
    let at = find_char(s, 0, c);
    proof {
        assert(s@.skip(0) == s@);
    }
    if at < s.len() {
        (slice_chars(s, 0, at), Some(slice_chars(s, at + 1, s.len())))
    } else {
        (slice_chars(s, 0, at), None)
    }
}

/// Cuts `s` at every `c`.
pub fn split_chars(s: &Vec<char>, c: char) -> (out: Vec<Vec<char>>)
    ensures
        out.deep_view() == split(s@, c),
{
    let mut out: Vec<Vec<char>> = Vec::new();
    let mut from: usize = 0;
    proof {
        assert(s@.skip(0) == s@);
        assert(out.deep_view() =~= Seq::<Seq<char>>::empty());
    }
    loop
        invariant_except_break
            from <= s.len(),
            split(s@, c) == out.deep_view() + split(s@.skip(from as int), c),
        ensures
            out.deep_view() == split(s@, c),
        decreases s.len() - from,
    {
        let at = find_char(s, from, c);
        let piece = slice_chars(s, from, at);
        let ghost rest = s@.skip(from as int);
        let ghost before = out.deep_view();
        proof {
            lemma_chars_deep_view(piece);
            assert(piece@ == rest.take(at - from));
        }
        out.push(piece);
        proof {
            assert(out.deep_view() =~= before + seq![piece@]);
        }
        if at < s.len() {
            proof {
                assert(rest.skip(at - from + 1) == s@.skip(at + 1));
                assert(split(rest, c) == seq![piece@] + split(s@.skip(at + 1), c));
            }
            from = at + 1;
        } else {
            proof {
                assert(rest.take(at - from) == rest);
                assert(split(rest, c) == seq![rest]);
            }
            break ;
        }
    }
    out
}

/// The texts of `parts` in order, with `sep` between neighbours.
pub open spec fn join(parts: Seq<Seq<char>>, sep: Seq<char>) -> Seq<char>
    decreases parts.len(),
{
    if parts.len() == 0 {
        Seq::empty()
    } else if parts.len() == 1 {
        parts[0]
    } else {
        join(parts.drop_last(), sep) + sep + parts.last()
    }
}

/// Joins `parts` with `sep` between neighbours.
pub fn join_strings(parts: &Vec<String>, sep: &str) -> (out: String)
    ensures
        out@ == join(parts.deep_view(), sep@),
{
    let mut out = String::new();
    let mut i: usize = 0;
    let ghost texts = parts.deep_view();
    while i < parts.len()
        invariant
            i <= parts.len(),
            texts == parts.deep_view(),
            out@ == join(texts.take(i as int), sep@),
        decreases parts.len() - i,
    {
        let ghost before = texts.take(i as int);
        let ghost after = texts.take(i + 1);
        proof {
            assert(after.drop_last() == before);
            assert(after.last() == parts@[i as int]@);
        }
        if i > 0 {
            out.append(sep);
        } else {
            assert(out@ + parts@[i as int]@ == parts@[i as int]@);
        }
        out.append(parts[i].as_str());
        i += 1;
    }
    assert(texts.take(parts.len() as int) == texts);
    out
}

/// The upper-case hexadecimal digit that stands for `d`, for `d` below sixteen.
pub open spec fn hex_digit_char(d: nat) -> char {
    if d < 10 {
        digit_char(d)
    } else if d == 10 {
        'A'
    } else if d == 11 {
        'B'
    } else if d == 12 {
        'C'
    } else if d == 13 {
        'D'
    } else if d == 14 {
        'E'
    } else {
        'F'
    }
}

/// The value of a hexadecimal digit of either case, if `c` is one.
pub open spec fn hex_digit_value(c: char) -> Option<nat> {
    if digit_value(c) is Some {
        digit_value(c)
    } else if c == 'A' || c == 'a' {
        Some(10)
    } else if c == 'B' || c == 'b' {
        Some(11)
    } else if c == 'C' || c == 'c' {
        Some(12)
    } else if c == 'D' || c == 'd' {
        Some(13)
    } else if c == 'E' || c == 'e' {
        Some(14)
    } else if c == 'F' || c == 'f' {
        Some(15)
    } else {
        None
    }
}

/// The two upper-case hexadecimal digits of a byte.
pub open spec fn hex_pair(b: u8) -> Seq<char> {
    seq![hex_digit_char(b as nat / 16), hex_digit_char(b as nat % 16)]
}

/// The digit pairs of `bytes`, one pair for each byte.
pub open spec fn hex_pairs(bytes: Seq<u8>) -> Seq<Seq<char>>
    decreases bytes.len(),
{
    if bytes.len() == 0 {
        Seq::empty()
    } else {
        hex_pairs(bytes.drop_last()).push(hex_pair(bytes.last()))
    }
}

/// `bytes` as upper-case hexadecimal digit pairs with a colon between neighbours.
pub open spec fn colon_hex(bytes: Seq<u8>) -> Seq<char> {
    join(hex_pairs(bytes), ":"@)
}

/// The byte that two hexadecimal digits denote.
pub open spec fn byte_from_hex(pair: Seq<char>) -> Option<u8> {
    if pair.len() == 2 {
        match (hex_digit_value(pair[0]), hex_digit_value(pair[1])) {
            (Some(high), Some(low)) => Some((16 * high + low) as u8),
            _ => None,
        }
    } else {
        None
    }
}

/// The bytes that digit pairs denote, if each of them denotes one.
pub open spec fn bytes_from_pairs(pairs: Seq<Seq<char>>) -> Option<Seq<u8>>
    decreases pairs.len(),
{
    if pairs.len() == 0 {
        Some(Seq::empty())
    } else {
        match (bytes_from_pairs(pairs.drop_last()), byte_from_hex(pairs.last())) {
            (Some(before), Some(b)) => Some(before.push(b)),
            _ => None,
        }
    }
}

/// The bytes that `text` denotes: none where it is empty, else one for each
/// pair of hexadecimal digits, the pairs parted by single colons.
pub open spec fn bytes_from_colon_hex(text: Seq<char>) -> Option<Seq<u8>> {
    if text.len() == 0 {
        Some(Seq::empty())
    } else {
        bytes_from_pairs(split(text, ':'))
    }
}

fn hex_digit_of(d: u8) -> (c: char)
    requires
        d < 16,
    ensures
        c == hex_digit_char(d as nat),
{
    if d < 10 {
        digit_of(d as u64)
    } else if d == 10 {
        'A'
    } else if d == 11 {
        'B'
    } else if d == 12 {
        'C'
    } else if d == 13 {
        'D'
    } else if d == 14 {
        'E'
    } else {
        'F'
    }
}

fn value_of_hex_digit(c: char) -> (d: Option<u8>)
    ensures
        match d {
            Some(v) => hex_digit_value(c) == Some(v as nat) && v < 16,
            None => hex_digit_value(c) is None,
        },
{
    match value_of_digit(c) {
        Some(v) => Some(v as u8),
        None => {
            if c == 'A' || c == 'a' {
                Some(10)
            } else if c == 'B' || c == 'b' {
                Some(11)
            } else if c == 'C' || c == 'c' {
                Some(12)
            } else if c == 'D' || c == 'd' {
                Some(13)
            } else if c == 'E' || c == 'e' {
                Some(14)
            } else if c == 'F' || c == 'f' {
                Some(15)
            } else {
                None
            }
        },
    }
}

/// The two upper-case hexadecimal digits of a byte, as a string.
pub fn hex_pair_string(b: u8) -> (out: String)
    ensures
        out@ == hex_pair(b),
{
    let mut out = String::new();
    out.push(hex_digit_of(b / 16));
    out.push(hex_digit_of(b % 16));
    assert(out@ =~= hex_pair(b));
    out
}

/// The digit pairs of `bytes`, as strings.
pub fn hex_pair_strings(bytes: &Vec<u8>) -> (out: Vec<String>)
    ensures
        out.deep_view() == hex_pairs(bytes@),
{
    let mut out: Vec<String> = Vec::new();
    let mut i: usize = 0;
    proof {
        lemma_empty_deep_view(out);
    }
    while i < bytes.len()
        invariant
            i <= bytes.len(),
            out.deep_view() == hex_pairs(bytes@.take(i as int)),
        decreases bytes.len() - i,
    {
        let pair = hex_pair_string(bytes[i]);
        let ghost before = out;
        let ghost pushed = pair;
        out.push(pair);
        proof {
            lemma_push_deep_view(before, out, pushed);
            assert(bytes@.take(i + 1).drop_last() == bytes@.take(i as int));
        }
        i += 1;
    }
    assert(bytes@.take(bytes.len() as int) == bytes@);
    out
}

/// Reads two hexadecimal digits as a byte.
pub fn parse_hex_byte(pair: &Vec<char>) -> (out: Option<u8>)
    ensures
        out == byte_from_hex(pair@),
{
    if pair.len() != 2 {
        return None;
    }
    match (value_of_hex_digit(pair[0]), value_of_hex_digit(pair[1])) {
        (Some(high), Some(low)) => Some(16 * high + low),
        _ => None,
    }
}

/// Reads colon-separated pairs of hexadecimal digits as bytes.
pub fn parse_colon_hex(text: &Vec<char>) -> (out: Option<Vec<u8>>)
    ensures
        match out {
            Some(bytes) => bytes_from_colon_hex(text@) == Some(bytes@),
            None => bytes_from_colon_hex(text@) is None,
        },
{
    let mut out: Vec<u8> = Vec::new();
    if text.len() == 0 {
        return Some(out);
    }
    let pairs = split_chars(text, ':');
    let mut i: usize = 0;
    while i < pairs.len()
        invariant
            i <= pairs.len(),
            text@.len() > 0,
            pairs.deep_view() == split(text@, ':'),
            bytes_from_pairs(pairs.deep_view().take(i as int)) == Some(out@),
        decreases pairs.len() - i,
    {
        proof {
            lemma_deep_view_index(pairs, i as int);
            lemma_chars_deep_view(pairs@[i as int]);
            lemma_take_next(pairs.deep_view(), i as int);
            assert(pairs.deep_view().take(i + 1).drop_last() == pairs.deep_view().take(i as int));
        }
        match parse_hex_byte(&pairs[i]) {
            Some(b) => {
                out.push(b);
            },
            None => {
                proof {
                    if bytes_from_pairs(pairs.deep_view()) is Some {
                        lemma_bytes_from_pairs_prefix(pairs.deep_view(), i + 1);
                    }
                }
                return None;
            },
        }
        i += 1;
    }
    assert(pairs.deep_view().take(pairs.len() as int) == pairs.deep_view());
    Some(out)
}

/// Pairs that denote bytes do so in each of their prefixes.
pub proof fn lemma_bytes_from_pairs_prefix(pairs: Seq<Seq<char>>, k: int)
    requires
        0 <= k <= pairs.len(),
        bytes_from_pairs(pairs) is Some,
    ensures
        bytes_from_pairs(pairs.take(k)) is Some,
    decreases pairs.len(),
{
    if k == pairs.len() {
        assert(pairs.take(k) == pairs);
    } else {
        lemma_bytes_from_pairs_prefix(pairs.drop_last(), k);
        assert(pairs.drop_last().take(k) == pairs.take(k));
    }
}

} // verus!
