use vstd::prelude::*;
use vstd::utf8::{decode_utf8, valid_utf8};
use std::string::FromUtf8Error;

verus! {

/// Whether `c` is white space in the sense of Unicode: a tab, a line
/// feed, a vertical tab, a form feed, a carriage return, a blank, the next
/// line mark, or one of the blanks and separators beyond the first 128
/// characters.
pub open spec fn white_space(c: char) -> bool {
    let u = c as u32;
    ||| 0x09 <= u <= 0x0d
    ||| u == 0x20
    ||| u == 0x85
    ||| u == 0xa0
    ||| u == 0x1680
    ||| 0x2000 <= u <= 0x200a
    ||| u == 0x2028
    ||| u == 0x2029
    ||| u == 0x202f
    ||| u == 0x205f
    ||| u == 0x3000
}

/// How many characters of white space `s` begins with.
pub open spec fn leading_space(s: Seq<char>) -> nat
    decreases s.len(),
{
    if s.len() > 0 && white_space(s[0]) {
        1 + leading_space(s.drop_first())
    } else {
        0
    }
}

/// How many characters of white space `s` ends with.
pub open spec fn trailing_space(s: Seq<char>) -> nat
    decreases s.len(),
{
    if s.len() > 0 && white_space(s.last()) {
        1 + trailing_space(s.drop_last())
    } else {
        0
    }
}

/// `s` without the white space at its two ends.
pub open spec fn trimmed(s: Seq<char>) -> Seq<char> {
    let rest = s.skip(leading_space(s) as int);
    rest.take(rest.len() - trailing_space(rest))
}

/// `s` with every occurrence of `from` replaced by `to`, the occurrences
/// taken from the left and not overlapping.
pub open spec fn replaced(s: Seq<char>, from: Seq<char>, to: Seq<char>) -> Seq<char>
    decreases s.len(),
{
    if from.len() == 0 || s.len() == 0 {
        s
    } else if from.is_prefix_of(s) {
        to + replaced(s.skip(from.len() as int), from, to)
    } else {
        seq![s[0]] + replaced(s.drop_first(), from, to)
    }
}

/// What `String::from_utf8` answers to bytes that are no UTF-8.
#[verifier::external_type_specification]
#[verifier::external_body]
pub struct ExFromUtf8Error(FromUtf8Error);

/// `char::is_whitespace`: whether the character has the property
/// White_Space of Unicode, which the characters listed in `white_space`
/// have and no others.
#[verifier::external_body]
pub(crate) fn is_white_space(c: char) -> (r: bool)
    ensures
        r == white_space(c),
{
    c.is_whitespace()
}

/// `String::from_utf8`: the text that the bytes encode, where they are
/// valid UTF-8, and an error where they are not.
#[verifier::external_body]
pub(crate) fn from_utf8(bytes: Vec<u8>) -> (r: Result<String, FromUtf8Error>)
    ensures
        r is Ok <==> valid_utf8(bytes@),
        r matches Ok(s) ==> s@ == decode_utf8(bytes@),
{
    String::from_utf8(bytes)
}

/// The characters of a text, one by one.
pub(crate) fn to_chars(s: &str) -> (r: Vec<char>)
    ensures
        r@ == s@,
{
    let mut out: Vec<char> = Vec::new();
    for c in it: s.chars()
        invariant
            out@ == it.seq().take(it.index() as int),
            it.seq() == s@,
    {
        out.push(c);
    }
    out
}

/// The text without the white space at its two ends.
pub(crate) fn trim(s: &Vec<char>) -> (r: Vec<char>)
    ensures
        r@ == trimmed(s@),
{
    let mut start: usize = 0;
    while start < s.len() && is_white_space(s[start])
        invariant
            start <= s@.len(),
            forall|i: int| 0 <= i < start ==> white_space(#[trigger] s@[i]),
        decreases s@.len() - start,
    {
        start = start + 1;
    }
    let ghost rest = s@.skip(start as int);
    let mut end: usize = s.len();
    while end > start && is_white_space(s[end - 1])
        invariant
            start <= end <= s@.len(),
            forall|i: int| end <= i < s@.len() ==> white_space(#[trigger] s@[i]),
        decreases end,
    {
        end = end - 1;
    }
    proof {
        lemma_leading_is(s@, start as int);
        lemma_trailing_is(rest, end - start);
    }
    let mut out: Vec<char> = Vec::new();
    let mut i: usize = start;
    while i < end
        invariant
            start <= i <= end <= s@.len(),
            out@ == s@.subrange(start as int, i as int),
        decreases end - i,
    {
        out.push(s[i]);
        i = i + 1;
    }
    out
}

/// Whether `prefix` stands in `s` from the position `at` on.
pub(crate) fn starts_at(s: &Vec<char>, at: usize, prefix: &Vec<char>) -> (r: bool)
    requires
        at <= s@.len(),
    ensures
        r == prefix@.is_prefix_of(s@.skip(at as int)),
{
    if prefix.len() > s.len() - at {
        return false;
    }
    let mut i: usize = 0;
    while i < prefix.len()
        invariant
            i <= prefix@.len(),
            at + prefix@.len() <= s@.len(),
            s@.len() <= usize::MAX,
            forall|j: int| 0 <= j < i ==> prefix@[j] == s@[at + j],
        decreases prefix@.len() - i,
    {
        if prefix[i] != s[at + i] {
            return false;
        }
        i = i + 1;
    }
    true
}

/// Whether the text begins with `prefix`.
pub(crate) fn starts_with(s: &Vec<char>, prefix: &Vec<char>) -> (r: bool)
    ensures
        r == prefix@.is_prefix_of(s@),
{
    starts_at(s, 0, prefix)
}

/// The text behind its first `count` characters.
pub(crate) fn skip(s: &Vec<char>, count: usize) -> (r: Vec<char>)
    requires
        count <= s@.len(),
    ensures
        r@ == s@.skip(count as int),
{
    let mut out: Vec<char> = Vec::new();
    let mut i: usize = count;
    while i < s.len()
        invariant
            count <= i <= s@.len(),
            out@ == s@.subrange(count as int, i as int),
        decreases s@.len() - i,
    {
        out.push(s[i]);
        i = i + 1;
    }
    out
}

/// The text with every occurrence of the non-empty pattern `from`
/// replaced by `to`.
pub(crate) fn replace(s: &Vec<char>, from: &Vec<char>, to: &Vec<char>) -> (r: Vec<char>)
    requires
        from@.len() > 0,
    ensures
        r@ == replaced(s@, from@, to@),
{
    let mut out: Vec<char> = Vec::new();
    let mut i: usize = 0;
    assert(s@.skip(0) =~= s@);
    while i < s.len()
        invariant
            i <= s@.len(),
            from@.len() > 0,
            out@ + replaced(s@.skip(i as int), from@, to@) == replaced(s@, from@, to@),
        decreases s@.len() - i,
    {
        let ghost rest = s@.skip(i as int);
        let ghost done = out@;
        if starts_at(s, i, from) {
            let mut j: usize = 0;
            while j < to.len()
                invariant
                    j <= to@.len(),
                    out@ == done + to@.take(j as int),
                decreases to@.len() - j,
            {
                out.push(to[j]);
                j = j + 1;
            }
            proof {
                assert(rest.skip(from@.len() as int) =~= s@.skip(i + from@.len()));
                assert((done + to@) + replaced(s@.skip(i + from@.len()), from@, to@) =~= done + (
                to@ + replaced(s@.skip(i + from@.len()), from@, to@)));
            }
            i = i + from.len();
        } else {
            out.push(s[i]);
            proof {
                assert(rest.drop_first() =~= s@.skip(i + 1));
                assert((done + seq![rest[0]]) + replaced(s@.skip(i + 1), from@, to@) =~= done + (
                seq![rest[0]] + replaced(s@.skip(i + 1), from@, to@)));
            }
            i = i + 1;
        }
    }
    out
}

/// A text begins with exactly `a` characters of white space if its first
/// `a` characters are white space and the next one, if any, is none.
pub proof fn lemma_leading_is(s: Seq<char>, a: int)
    requires
        0 <= a <= s.len(),
        forall|i: int| 0 <= i < a ==> white_space(#[trigger] s[i]),
        a < s.len() ==> !white_space(s[a]),
    ensures
        leading_space(s) == a,
    decreases a,
{
    if a > 0 {
        let rest = s.drop_first();
        lemma_leading_is(rest, a - 1);
    }
}

/// A text keeps exactly its first `b` characters when its trailing white
/// space is cut off if all behind them is white space and the last of
/// them, if any, is none.
pub proof fn lemma_trailing_is(s: Seq<char>, b: int)
    requires
        0 <= b <= s.len(),
        forall|i: int| b <= i < s.len() ==> white_space(#[trigger] s[i]),
        b > 0 ==> !white_space(s[b - 1]),
    ensures
        trailing_space(s) == s.len() - b,
    decreases s.len() - b,
{
    if b < s.len() {
        let rest = s.drop_last();
        lemma_trailing_is(rest, b);
    }
}

} // verus!
