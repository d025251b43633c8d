//! Text, as far as reading a program and naming what is wrong with one
//! need it.

use vstd::prelude::*;
use vstd::string::StringExecFns;

verus! {

/// `String::push` puts one character at the end of a string.
pub assume_specification[ String::push ](held: &mut String, character: char)
    ensures
        final(held)@ == old(held)@.push(character),
;

/// `std::str::from_utf8` answers the text that `bytes` encode, and answers
/// for exactly those bytes that encode one.
#[verifier::external_body]
pub(crate) fn from_utf8(bytes: &[u8]) -> (text: Option<&str>)
    ensures
        text is Some <==> vstd::utf8::valid_utf8(bytes@),
        text matches Some(found) ==> vstd::utf8::encode_utf8(found@) == bytes@,
{
    std::str::from_utf8(bytes).ok()
}

/// The text that `bytes` encode.
pub fn decoded(bytes: &[u8]) -> (text: &str)
    requires
        vstd::utf8::valid_utf8(bytes@),
    ensures
        text@ == vstd::utf8::decode_utf8(bytes@),
        vstd::utf8::encode_utf8(text@) == bytes@,
{
    match from_utf8(bytes) {
        Some(text) => {
            proof {
                vstd::utf8::encode_utf8_decode_utf8(text@);
            }
            text
        },
        None => {
            assert(false);
            ""
        },
    }
}

/// Two texts are one exactly when their bytes are.
pub proof fn bytes_tell_texts_apart(left: Seq<char>, right: Seq<char>)
    ensures
        vstd::utf8::encode_utf8(left) == vstd::utf8::encode_utf8(right) <==> left == right,
{
    vstd::utf8::encode_utf8_decode_utf8(left);
    vstd::utf8::encode_utf8_decode_utf8(right);
}

pub fn same_bytes(left: &[u8], right: &[u8]) -> (same: bool)
    ensures
        same == (left@ == right@),
{
    if left.len() != right.len() {
        return false;
    }
    let mut at: usize = 0;
    while at < left.len()
        invariant
            at <= left.len(),
            left@.len() == right@.len(),
            left@.take(at as int) == right@.take(at as int),
        decreases left.len() - at,
    {
        if left[at] != right[at] {
            assert(left@[at as int] != right@[at as int]);
            return false;
        }
        assert(left@.take(at + 1) =~= left@.take(at as int).push(left@[at as int]));
        assert(right@.take(at + 1) =~= right@.take(at as int).push(right@[at as int]));
        at = at + 1;
    }
    assert(left@.take(at as int) =~= left@);
    assert(right@.take(at as int) =~= right@);
    true
}

pub fn same(left: &str, right: &str) -> (same: bool)
    ensures
        same == (left@ == right@),
{
    proof {
        bytes_tell_texts_apart(left@, right@);
    }
    same_bytes(left.as_bytes(), right.as_bytes())
}

/// A decimal digit.
pub open spec fn digit(value: nat) -> char {
    (48 + value % 10) as char
}

/// A number in decimal, with no leading zero.
pub open spec fn decimal(value: nat) -> Seq<char>
    decreases value,
{
    if value < 10 {
        seq![digit(value)]
    } else {
        decimal(value / 10).push(digit(value))
    }
}

/// What a run of decimal digits reads as.
pub open spec fn read_decimal(text: Seq<char>) -> nat
    decreases text.len(),
{
    if text.len() == 0 {
        0
    } else {
        (10 * read_decimal(text.drop_last()) + (text.last() as nat - 48)) as nat
    }
}

/// A number written in decimal reads back as itself.
pub proof fn decimal_reads_back(value: nat)
    ensures
        decimal(value).len() > 0,
        read_decimal(decimal(value)) == value,
    decreases value,
{
    let text = decimal(value);
    if value < 10 {
        assert(text.drop_last() =~= Seq::empty());
        reveal_with_fuel(read_decimal, 2);
    } else {
        decimal_reads_back(value / 10);
        assert(text.drop_last() =~= decimal(value / 10));
    }
}

/// `value` in decimal, at the end of `out`.
pub fn push_decimal(out: &mut String, value: u64)
    ensures
        final(out)@ == old(out)@ + decimal(value as nat),
    decreases value,
{
    if value >= 10 {
        push_decimal(out, value / 10);
    }
    let low: u8 = (value % 10) as u8;
    out.push((48u8 + low) as char);
    assert(out@ =~= old(out)@ + decimal(value as nat));
}

/// The characters Unicode gives the property `White_Space`.
pub open spec fn whitespace(character: char) -> bool {
    let code = character as u32;
    ||| 0x09 <= code <= 0x0D
    ||| code == 0x20
    ||| code == 0x85
    ||| code == 0xA0
    ||| code == 0x1680
    ||| 0x2000 <= code <= 0x200A
    ||| code == 0x2028
    ||| code == 0x2029
    ||| code == 0x202F
    ||| code == 0x205F
    ||| code == 0x3000
}

pub fn is_whitespace(character: char) -> (white: bool)
    ensures
        white == whitespace(character),
{
    let code: u32 = character as u32;
    (0x09 <= code && code <= 0x0D) || code == 0x20 || code == 0x85 || code == 0xA0 || code == 0x1680
        || (0x2000 <= code && code <= 0x200A) || code == 0x2028 || code == 0x2029 || code == 0x202F
        || code == 0x205F || code == 0x3000
}

/// Where the first character that is not white is, from `from` on.
pub open spec fn first_solid(text: Seq<char>, from: int) -> int
    decreases text.len() - from,
{
    if from >= text.len() || !whitespace(text[from]) {
        from
    } else {
        first_solid(text, from + 1)
    }
}

/// Where the last character that is not white ends, before `to`.
pub open spec fn last_solid(text: Seq<char>, to: int) -> int
    decreases to,
{
    if to <= 0 || !whitespace(text[to - 1]) {
        to
    } else {
        last_solid(text, to - 1)
    }
}

/// A text without the white space around it.
pub open spec fn trimmed(text: Seq<char>) -> Seq<char> {
    let start = first_solid(text, 0);
    let end = last_solid(text, text.len() as int);
    if start < end {
        text.subrange(start, end)
    } else {
        seq![]
    }
}

/// Trimming takes white space only, and leaves none at either end.
pub proof fn trimming_takes_white_space(text: Seq<char>) -> (kept: (int, int))
    ensures
        0 <= kept.0 <= kept.1 <= text.len(),
        trimmed(text) == text.subrange(kept.0, kept.1),
        forall|i: int| 0 <= i < kept.0 || kept.1 <= i < text.len() ==> whitespace(
            #[trigger] text[i],
        ),
        kept.0 < kept.1 ==> !whitespace(text[kept.0]) && !whitespace(text[kept.1 - 1]),
{
    what_is_solid_comes_first(text, 0);
    what_is_solid_comes_last(text, text.len() as int);
    let start = first_solid(text, 0);
    let end = last_solid(text, text.len() as int);
    if start < end {
        (start, end)
    } else {
        assert forall|i: int| 0 <= i < text.len() implies whitespace(#[trigger] text[i]) by {}
        assert(trimmed(text) =~= text.subrange(0, 0));
        (0, 0)
    }
}

proof fn what_is_solid_comes_first(text: Seq<char>, from: int)
    requires
        0 <= from <= text.len(),
    ensures
        from <= first_solid(text, from) <= text.len(),
        forall|i: int| from <= i < first_solid(text, from) ==> whitespace(#[trigger] text[i]),
        first_solid(text, from) < text.len() ==> !whitespace(text[first_solid(text, from)]),
    decreases text.len() - from,
{
    if from < text.len() && whitespace(text[from]) {
        what_is_solid_comes_first(text, from + 1);
    }
}

proof fn what_is_solid_comes_last(text: Seq<char>, to: int)
    requires
        0 <= to <= text.len(),
    ensures
        0 <= last_solid(text, to) <= to,
        forall|i: int| last_solid(text, to) <= i < to ==> whitespace(#[trigger] text[i]),
        last_solid(text, to) > 0 ==> !whitespace(text[last_solid(text, to) - 1]),
    decreases to,
{
    if to > 0 && whitespace(text[to - 1]) {
        what_is_solid_comes_last(text, to - 1);
    }
}

/// The characters of a text.
pub fn characters(text: &str) -> (characters: Vec<char>)
    ensures
        characters@ == text@,
{
    let mut characters: Vec<char> = Vec::new();
    for character in each: text.chars()
        invariant
            characters@ == each.seq().take(each.index() as int),
            each.seq() == text@,
    {
        characters.push(character);
        assert(characters@ =~= each.seq().take(each.index() as int + 1));
    }
    assert(characters@ =~= text@);
    characters
}

/// `text` without the white space around it, at the end of `out`.
pub fn push_trimmed(out: &mut String, text: &str)
    ensures
        final(out)@ == old(out)@ + trimmed(text@),
{
    let held = characters(text);
    let mut start: usize = 0;
    while start < held.len() && is_whitespace(held[start])
        invariant
            start <= held@.len(),
            first_solid(held@, start as int) == first_solid(held@, 0),
        decreases held@.len() - start,
    {
        start = start + 1;
    }
    let mut end: usize = held.len();
    while end > 0 && is_whitespace(held[end - 1])
        invariant
            end <= held@.len(),
            last_solid(held@, end as int) == last_solid(held@, held@.len() as int),
        decreases end,
    {
        end = end - 1;
    }
    let ghost before = out@;
    let mut at: usize = start;
    while at < end
        invariant
            start <= at,
            at <= end || at == start,
            end <= held@.len(),
            out@ == before + if start < at {
                held@.subrange(start as int, at as int)
            } else {
                seq![]
            },
        decreases end - at,
    {
        out.push(held[at]);
        at = at + 1;
        assert(out@ =~= before + held@.subrange(start as int, at as int));
    }
    assert(out@ =~= before + trimmed(text@));
}

/// Texts one after another, with `between` before each but the first.
pub open spec fn joined(texts: Seq<Seq<char>>, between: Seq<char>) -> Seq<char>
    decreases texts.len(),
{
    if texts.len() == 0 {
        seq![]
    } else if texts.len() == 1 {
        texts[0]
    } else {
        joined(texts.drop_last(), between) + between + texts.last()
    }
}

/// What one more text adds to those joined so far.
pub proof fn joining_one_more(texts: Seq<Seq<char>>, between: Seq<char>, count: int)
    requires
        0 <= count < texts.len(),
    ensures
        joined(texts.take(count + 1), between) == joined(texts.take(count), between) + (if count
            == 0 {
            seq![]
        } else {
            between
        }) + texts[count],
{
    let more = texts.take(count + 1);
    assert(more.drop_last() =~= texts.take(count));
    if count == 0 {
        assert(joined(texts.take(0), between) =~= seq![]);
        assert(joined(more, between) =~= Seq::<char>::empty() + Seq::<char>::empty() + texts[0]);
    }
}

/// A text between two others.
pub fn around(before: &str, middle: &str, after: &str) -> (whole: String)
    ensures
        whole@ == before@ + middle@ + after@,
{
    let mut whole = String::new();
    whole.append(before);
    whole.append(middle);
    whole.append(after);
    assert(whole@ =~= before@ + middle@ + after@);
    whole
}

/// How a text is quoted where one is shown: between quotation marks, with
/// what would not read as itself escaped.
pub uninterp spec fn quotation(text: Seq<char>) -> Seq<char>;

/// `format!` with `{:?}` on a string: the text between quotation marks, with
/// every character that is not printable, and every quotation mark and
/// backslash, written as an escape. Which characters are printable is
/// Unicode's to say and is not stated here: the result is only given a name.
#[verifier::external_body]
pub(crate) fn quoted(text: &str) -> (quoted: String)
    ensures
        quoted@ == quotation(text@),
{
    format!("{text:?}")
}

} // verus!
