//! Small pieces of text: digits, padding, trimming.

use vstd::prelude::*;
use vstd::string::*;

verus! {

/// `String::push`: the character goes to the end of the string, and nothing else changes.
pub assume_specification[ String::push ](string: &mut String, ch: char)
    ensures
        final(string)@ == old(string)@.push(ch),
;

/// `String::pop`: the last character comes off, if there is one, and is handed back.
pub assume_specification[ String::pop ](string: &mut String) -> (out: Option<char>)
    ensures
        if old(string)@.len() == 0 {
            final(string)@ == old(string)@ && out is None
        } else {
            final(string)@ == old(string)@.drop_last() && out == Some(old(string)@.last())
        },
;

/// What `strings` read.
pub open spec fn texts(strings: Seq<String>) -> Seq<Seq<char>> {
    strings.map_values(|string: String| string@)
}

/// `n` spaces.
pub open spec fn spaces(n: nat) -> Seq<char> {
    Seq::new(n, |i: int| ' ')
}

/// How many characters `text` is short of `width`.
pub open spec fn shortfall(text: Seq<char>, width: nat) -> nat {
    if text.len() < width {
        (width - text.len()) as nat
    } else {
        0
    }
}

/// `text`, followed by as many spaces as it takes to fill `width` characters.
pub open spec fn padded_right(text: Seq<char>, width: nat) -> Seq<char> {
    text + spaces(shortfall(text, width))
}

/// `text`, preceded by as many spaces as it takes to fill `width` characters.
pub open spec fn padded_left(text: Seq<char>, width: nat) -> Seq<char> {
    spaces(shortfall(text, width)) + text
}

/// The character of a digit, up to the hexadecimal digit `f`.
pub open spec fn digit(d: int) -> char {
    if d < 10 {
        (0x30 + d) as char
    } else {
        (0x57 + d) as char
    }
}

/// `n` in decimal, without leading zeros.
pub open spec fn decimal(n: nat) -> Seq<char>
    decreases n,
{
    if n < 10 {
        seq![digit(n as int)]
    } else {
        decimal(n / 10).push(digit((n % 10) as int))
    }
}

/// `n` as four lower-case hexadecimal digits.
pub open spec fn hex4(n: u16) -> Seq<char> {
    seq![
        digit(n as int / 4096),
        digit(n as int / 256 % 16),
        digit(n as int / 16 % 16),
        digit(n as int % 16),
    ]
}

/// Appends `n` spaces.
fn push_spaces(out: &mut String, n: usize)
    ensures
        final(out)@ == old(out)@ + spaces(n as nat),
{
    let ghost start = out@;
    let mut i: usize = 0;
    while i < n
        invariant
            i <= n,
            out@ == start + spaces(i as nat),
        decreases n - i,
    {
        out.push(' ');
        i = i + 1;
        assert(out@ =~= start + spaces(i as nat));
    }
}

/// `text` left-aligned in a column of `width` characters; a longer text is not cut.
pub fn pad_right(text: &str, width: usize) -> (out: String)
    ensures
        out@ == padded_right(text@, width as nat),
{
    let mut out = text.to_owned();
    let len: usize = text.unicode_len();
    if len < width {
        push_spaces(&mut out, width - len);
    }
    assert(out@ =~= padded_right(text@, width as nat));
    out
}

/// `text` right-aligned in a column of `width` characters; a longer text is not cut.
pub fn pad_left(text: &str, width: usize) -> (out: String)
    ensures
        out@ == padded_left(text@, width as nat),
{
    let mut out = String::new();
    let len: usize = text.unicode_len();
    if len < width {
        push_spaces(&mut out, width - len);
    }
    out.append(text);
    assert(out@ =~= padded_left(text@, width as nat));
    out
}

/// The character of the digit `d`.
fn digit_char(d: u8) -> (c: char)
    requires
        d < 16,
    ensures
        c == digit(d as int),
{
    if d < 10 {
        (0x30 + d) as char
    } else {
        (0x57 + d) as char
    }
}

/// Appends the digit `d`.
pub fn write_digit(out: &mut String, d: u8)
    requires
        d < 16,
    ensures
        final(out)@ == old(out)@.push(digit(d as int)),
{
    out.push(digit_char(d));
}

/// Writes `n` in decimal.
pub fn write_decimal(n: u64) -> (out: String)
    ensures
        out@ == decimal(n as nat),
    decreases n,
{
    if n < 10 {
        let mut out = String::new();
        out.push(digit_char(n as u8));
        assert(out@ =~= seq![digit(n as int)]);
        out
    } else {
        let mut out = write_decimal(n / 10);
        out.push(digit_char((n % 10) as u8));
        out
    }
}

/// Writes `n` as four lower-case hexadecimal digits.
pub fn write_hex4(n: u16) -> (out: String)
    ensures
        out@ == hex4(n),
{
    let mut out = String::new();
    out.push(digit_char((n / 4096) as u8));
    out.push(digit_char((n / 256 % 16) as u8));
    out.push(digit_char((n / 16 % 16) as u8));
    out.push(digit_char((n % 16) as u8));
    assert(out@ =~= hex4(n));
    out
}

/// The characters with the Unicode property `White_Space`.
pub open spec fn whitespace(c: char) -> bool {
    ||| '\u{9}' <= c <= '\u{d}'
    ||| c == ' '
    ||| c == '\u{85}'
    ||| c == '\u{a0}'
    ||| c == '\u{1680}'
    ||| '\u{2000}' <= c <= '\u{200a}'
    ||| c == '\u{2028}'
    ||| c == '\u{2029}'
    ||| c == '\u{202f}'
    ||| c == '\u{205f}'
    ||| c == '\u{3000}'
}

/// `text` without the whitespace at its end.
pub open spec fn trimmed_end(text: Seq<char>) -> Seq<char>
    decreases text.len(),
{
    if text.len() > 0 && whitespace(text.last()) {
        trimmed_end(text.drop_last())
    } else {
        text
    }
}

/// `text` without the whitespace at its start.
pub open spec fn trimmed_start(text: Seq<char>) -> Seq<char>
    decreases text.len(),
{
    if text.len() > 0 && whitespace(text.first()) {
        trimmed_start(text.drop_first())
    } else {
        text
    }
}

/// `text` without the whitespace at its start and at its end.
pub open spec fn trimmed(text: Seq<char>) -> Seq<char> {
    trimmed_start(trimmed_end(text))
}

/// Whether `c` has the Unicode property `White_Space`.
pub fn is_whitespace(c: char) -> (out: bool)
    ensures
        out == whitespace(c),
{
    ('\u{9}' <= c && c <= '\u{d}') || c == ' ' || c == '\u{85}' || c == '\u{a0}' || c == '\u{1680}'
        || ('\u{2000}' <= c && c <= '\u{200a}') || c == '\u{2028}' || c == '\u{2029}' || c
        == '\u{202f}' || c == '\u{205f}' || c == '\u{3000}'
}

/// `text` without the whitespace at its start and at its end.
pub fn trim(text: &str) -> (out: &str)
    ensures
        out@ == trimmed(text@),
{
    let mut end: usize = text.unicode_len();
    assert(text@.take(end as int) =~= text@);
    while end > 0
        invariant
            end <= text@.len(),
            trimmed_end(text@) == trimmed_end(text@.take(end as int)),
        ensures
            end <= text@.len(),
            trimmed_end(text@) == text@.take(end as int),
        decreases end,
    {
        if !is_whitespace(text.get_char(end - 1)) {
            break;
        }
        assert(text@.take(end as int).drop_last() =~= text@.take(end - 1));
        end = end - 1;
    }
    let ghost rest = text@.take(end as int);
    let mut start: usize = 0;
    assert(rest.skip(0) =~= rest);
    while start < end
        invariant
            start <= end <= text@.len(),
            rest == text@.take(end as int),
            trimmed_start(rest) == trimmed_start(rest.skip(start as int)),
        ensures
            start <= end,
            trimmed_start(rest) == rest.skip(start as int),
        decreases end - start,
    {
        if !is_whitespace(text.get_char(start)) {
            break;
        }
        assert(rest.skip(start as int).drop_first() =~= rest.skip(start + 1));
        start = start + 1;
    }
    assert(text@.subrange(start as int, end as int) =~= rest.skip(start as int));
    text.substring_char(start, end)
}

/// Whether `text` begins with `prefix`.
pub fn starts_with(text: &str, prefix: &str) -> (out: bool)
    ensures
        out == prefix@.is_prefix_of(text@),
{
    let len: usize = prefix.unicode_len();
    if text.unicode_len() < len {
        return false;
    }
    let mut i: usize = 0;
    while i < len
        invariant
            i <= len,
            len == prefix@.len(),
            len <= text@.len(),
            forall|j: int| 0 <= j < i ==> prefix@[j] == text@[j],
        decreases len - i,
    {
        if text.get_char(i) != prefix.get_char(i) {
            assert(text@.subrange(0, len as int)[i as int] != prefix@[i as int]);
            return false;
        }
        i = i + 1;
    }
    assert(prefix@ =~= text@.subrange(0, len as int));
    true
}

/// `text` behind `prefix`, if it begins with it.
pub fn strip_prefix<'a>(text: &'a str, prefix: &str) -> (out: Option<&'a str>)
    ensures
        match out {
            Some(rest) => prefix@.is_prefix_of(text@) && rest@ == text@.skip(prefix@.len() as int),
            None => !prefix@.is_prefix_of(text@),
        },
{
    if starts_with(text, prefix) {
        let rest = text.substring_char(prefix.unicode_len(), text.unicode_len());
        assert(rest@ =~= text@.skip(prefix@.len() as int));
        Some(rest)
    } else {
        None
    }
}

/// Whether two texts are the same.
pub fn same_text(a: &str, b: &str) -> (out: bool)
    ensures
        out == (a@ == b@),
{
    if a.unicode_len() != b.unicode_len() {
        return false;
    }
    let out = starts_with(a, b);
    assert(a@.subrange(0, b@.len() as int) =~= a@);
    out
}

/// A padded text fills its column and no more, and is not cut: the text stands at one end of the
/// column, and spaces in the rest of it.
pub proof fn law_padding_fills_the_column(text: Seq<char>, width: nat)
    ensures
        padded_right(text, width).len() == (if text.len() < width {
            width
        } else {
            text.len()
        }),
        padded_left(text, width).len() == padded_right(text, width).len(),
        forall|i: int| 0 <= i < text.len() ==> #[trigger] padded_right(text, width)[i] == text[i],
        forall|i: int| text.len() <= i < width ==> #[trigger] padded_right(text, width)[i] == ' ',
        forall|i: int|
            0 <= i < width - text.len() ==> #[trigger] padded_left(text, width)[i] == ' ',
        padded_left(text, width).skip(padded_left(text, width).len() - text.len()) == text,
{
    assert(padded_left(text, width).skip(padded_left(text, width).len() - text.len()) =~= text);
}

/// The decimal digits of a number are those of its tenth, with one more behind them; a number
/// below ten is one digit.
pub proof fn law_decimal_grows_by_a_digit(n: nat, d: nat)
    requires
        d < 10,
    ensures
        decimal(d) == seq![(48 + d) as char],
        n > 0 ==> decimal(10 * n + d) == decimal(n).push((48 + d) as char),
{
    if n > 0 {
        assert((10 * n + d) / 10 == n);
        assert((10 * n + d) % 10 == d);
    }
}

/// The character of a digit tells the digit.
proof fn lemma_digit_value(d: int)
    requires
        0 <= d < 16,
    ensures
        d < 10 ==> '0' <= digit(d) <= '9' && digit(d) as int == d + 48,
        d >= 10 ==> 'a' <= digit(d) <= 'f' && digit(d) as int == d + 87,
{
}

/// A number can be read back from its four hexadecimal digits, and all of them are in lower case.
pub proof fn law_hex_digits_tell_the_number(n: u16)
    ensures
        hex4(n).len() == 4,
        forall|i: int|
            0 <= i < 4 ==> '0' <= #[trigger] hex4(n)[i] <= '9' || 'a' <= hex4(n)[i] <= 'f',
        ({
            let value = |c: char|
                if c <= '9' {
                    c as int - 48
                } else {
                    c as int - 87
                };
            4096 * value(hex4(n)[0]) + 256 * value(hex4(n)[1]) + 16 * value(hex4(n)[2]) + value(
                hex4(n)[3],
            ) == n
        }),
{
    let a = n as int / 4096;
    let b = n as int / 256 % 16;
    let c = n as int / 16 % 16;
    let d = n as int % 16;
    assert(0 <= a < 16 && 0 <= b < 16 && 0 <= c < 16 && 0 <= d < 16);
    assert(4096 * a + 256 * b + 16 * c + d == n) by {
        assert(n as int / 256 == (n as int / 16) / 16);
        assert(n as int / 4096 == (n as int / 256) / 16);
    }
    lemma_digit_value(a);
    lemma_digit_value(b);
    lemma_digit_value(c);
    lemma_digit_value(d);
}

/// There are 25 characters of whitespace, and these are their numbers.
pub proof fn law_whitespace_characters(c: char)
    ensures
        whitespace(c) <==> seq![
            9int, 10, 11, 12, 13, 32, 133, 160, 5760, 8192, 8193, 8194, 8195, 8196, 8197, 8198,
            8199, 8200, 8201, 8202, 8232, 8233, 8239, 8287, 12288,
        ].contains(c as int),
{
    let numbers = seq![
        9int, 10, 11, 12, 13, 32, 133, 160, 5760, 8192, 8193, 8194, 8195, 8196, 8197, 8198, 8199,
        8200, 8201, 8202, 8232, 8233, 8239, 8287, 12288,
    ];
    let n = c as int;
    if whitespace(c) {
        let at = if n <= 13 {
            n - 9
        } else if n == 32 {
            5
        } else if n == 133 {
            6
        } else if n == 160 {
            7
        } else if n == 5760 {
            8
        } else if n <= 8202 {
            n - 8192 + 9
        } else if n == 8232 {
            20
        } else if n == 8233 {
            21
        } else if n == 8239 {
            22
        } else if n == 8287 {
            23
        } else {
            24
        };
        assert(numbers[at] == n);
    }
}

/// What is left of a text once the whitespace at its end is gone, and what went.
proof fn lemma_trimmed_end_splits(text: Seq<char>)
    ensures
        trimmed_end(text).len() <= text.len(),
        trimmed_end(text) == text.take(trimmed_end(text).len() as int),
        forall|i: int| trimmed_end(text).len() <= i < text.len() ==> whitespace(#[trigger] text[i]),
        trimmed_end(text).len() > 0 ==> !whitespace(trimmed_end(text).last()),
    decreases text.len(),
{
    if text.len() > 0 && whitespace(text.last()) {
        let fewer = text.drop_last();
        lemma_trimmed_end_splits(fewer);
        let kept = trimmed_end(text);
        assert(fewer.take(kept.len() as int) =~= text.take(kept.len() as int));
        assert forall|i: int| kept.len() <= i < text.len() implies whitespace(
            #[trigger] text[i],
        ) by {
            if i < fewer.len() {
                assert(whitespace(fewer[i]));
            }
        }
    } else {
        assert(text.take(text.len() as int) =~= text);
    }
}

/// What is left of a text once the whitespace at its start is gone, and what went.
proof fn lemma_trimmed_start_splits(text: Seq<char>)
    ensures
        trimmed_start(text).len() <= text.len(),
        trimmed_start(text) == text.skip(text.len() - trimmed_start(text).len()),
        forall|i: int|
            0 <= i < text.len() - trimmed_start(text).len() ==> whitespace(#[trigger] text[i]),
        trimmed_start(text).len() > 0 ==> !whitespace(trimmed_start(text)[0]),
    decreases text.len(),
{
    if text.len() > 0 && whitespace(text.first()) {
        let fewer = text.drop_first();
        lemma_trimmed_start_splits(fewer);
        let kept = trimmed_start(text);
        assert(fewer.skip(fewer.len() - kept.len()) =~= text.skip(text.len() - kept.len()));
        assert forall|i: int| 0 <= i < text.len() - kept.len() implies whitespace(
            #[trigger] text[i],
        ) by {
            if i > 0 {
                assert(whitespace(fewer[i - 1]));
            }
        }
    } else {
        assert(text.skip(0) =~= text);
    }
}

/// Trimming takes whitespace off the two ends of a text, all of it, and nothing else.
pub proof fn law_trimming_takes_whitespace_only(text: Seq<char>)
    ensures
        exists|start: int, end: int|
            {
                &&& 0 <= start <= end <= text.len()
                &&& trimmed(text) == #[trigger] text.subrange(start, end)
                &&& forall|i: int| 0 <= i < start ==> whitespace(#[trigger] text[i])
                &&& forall|i: int| end <= i < text.len() ==> whitespace(#[trigger] text[i])
            },
        trimmed(text).len() > 0 ==> !whitespace(trimmed(text)[0]) && !whitespace(
            trimmed(text).last(),
        ),
{
    let rest = trimmed_end(text);
    let kept = trimmed(text);
    lemma_trimmed_end_splits(text);
    lemma_trimmed_start_splits(rest);
    let start = rest.len() - kept.len();
    let end = start + kept.len();
    assert(kept =~= text.subrange(start, end));
    assert forall|i: int| 0 <= i < start implies whitespace(#[trigger] text[i]) by {
        assert(whitespace(rest[i]));
    }
}

/// A text with whitespace around it, but none at its own ends, is what trimming leaves.
pub proof fn law_trimming_uncovers_the_text(
    before: Seq<char>,
    text: Seq<char>,
    after: Seq<char>,
)
    requires
        text.len() > 0,
        !whitespace(text[0]),
        !whitespace(text.last()),
        forall|i: int| 0 <= i < before.len() ==> whitespace(#[trigger] before[i]),
        forall|i: int| 0 <= i < after.len() ==> whitespace(#[trigger] after[i]),
    ensures
        trimmed(before + text + after) == text,
{
    let all = before + text + after;
    let rest = trimmed_end(all);
    lemma_trimmed_end_splits(all);
    let last = before.len() + text.len() - 1;
    assert(all[last] == text.last());
    assert(rest.len() >= last + 1);
    if rest.len() > last + 1 {
        assert(rest.last() == all[rest.len() - 1]);
        assert(all[rest.len() - 1] == after[rest.len() - 1 - (last + 1)]);
    }
    assert(rest =~= before + text);
    let kept = trimmed_start(rest);
    lemma_trimmed_start_splits(rest);
    assert(rest[before.len() as int] == text[0]);
    assert(kept.len() >= text.len());
    if kept.len() > text.len() {
        assert(kept[0] == rest[rest.len() - kept.len()]);
        assert(rest[rest.len() - kept.len()] == before[rest.len() - kept.len()]);
    }
    assert(kept =~= text);
}

/// The texts of strings are what the strings read, each in its place.
pub proof fn law_texts_are_those_of_the_strings(strings: Seq<String>)
    ensures
        texts(strings).len() == strings.len(),
        forall|i: int| 0 <= i < strings.len() ==> #[trigger] texts(strings)[i] == strings[i]@,
{
}

} // verus!
