//! Received bytes, cut into lines of text.

use vstd::prelude::*;
use vstd::string::*;
use vstd::utf8::*;

use crate::text::texts;

verus! {

/// The byte that ends a line.
pub const NEWLINE: u8 = 0x0A;

/// The character that stands in for bytes that are not UTF-8.
pub const REPLACEMENT: char = '\u{FFFD}';

/// What `String::from_utf8_lossy` makes of bytes that are not UTF-8.
pub uninterp spec fn utf8_lossy(bytes: Seq<u8>) -> Seq<char>;

/// The text of `bytes`: what they encode, or a repaired text where they are not UTF-8.
pub open spec fn decoded(bytes: Seq<u8>) -> Seq<char> {
    if valid_utf8(bytes) {
        decode_utf8(bytes)
    } else {
        utf8_lossy(bytes)
    }
}

/// Whether `bytes` are one line: a newline is their last byte, and stands nowhere else.
pub open spec fn one_line(bytes: Seq<u8>) -> bool {
    &&& bytes.len() > 0
    &&& bytes.last() == NEWLINE
    &&& forall|i: int| 0 <= i < bytes.len() - 1 ==> #[trigger] bytes[i] != NEWLINE
}

/// Whether a newline is the last character of `text`, and stands nowhere else.
pub open spec fn one_text_line(text: Seq<char>) -> bool {
    &&& text.len() > 0
    &&& text.last() == '\n'
    &&& forall|i: int| 0 <= i < text.len() - 1 ==> #[trigger] text[i] != '\n'
}

/// `String::from_utf8_lossy`: UTF-8 is decoded as it stands. Where the bytes are not UTF-8,
/// replacement characters stand in for the invalid sequences, and nothing else is replaced: the
/// byte of a newline, which is part of no invalid sequence, stays the newline that it is, and no
/// other comes in. Of that text the contract says that the bytes determine it, that a replacement
/// character is in it, and that one line stays one line; not where the replacement characters are.
#[verifier::external_body]
fn decode_lossy(bytes: &[u8]) -> (out: String)
    ensures
        valid_utf8(bytes@) ==> out@ == decode_utf8(bytes@),
        !valid_utf8(bytes@) ==> out@ == utf8_lossy(bytes@) && out@.contains(REPLACEMENT),
        !valid_utf8(bytes@) && one_line(bytes@) ==> one_text_line(out@),
{
    String::from_utf8_lossy(bytes).into_owned()
}

/// A character that is dropped from the end of a line.
pub open spec fn line_end_char(c: char) -> bool {
    c == '\n' || c == '\r'
}

/// `text` without the line feeds and carriage returns at its end.
pub open spec fn without_line_end(text: Seq<char>) -> Seq<char>
    decreases text.len(),
{
    if text.len() > 0 && line_end_char(text.last()) {
        without_line_end(text.drop_last())
    } else {
        text
    }
}

/// The text shown for a line of received bytes.
pub open spec fn line_text(raw: Seq<u8>) -> Seq<char> {
    without_line_end(decoded(raw))
}

/// The finished lines in `bytes`, each with its newline.
pub open spec fn finished_lines(bytes: Seq<u8>) -> Seq<Seq<u8>>
    decreases bytes.len(),
{
    if bytes.len() == 0 {
        Seq::empty()
    } else {
        let before = bytes.drop_last();
        if bytes.last() == NEWLINE {
            finished_lines(before).push(unfinished_line(before).push(NEWLINE))
        } else {
            finished_lines(before)
        }
    }
}

/// What follows the last newline in `bytes`.
pub open spec fn unfinished_line(bytes: Seq<u8>) -> Seq<u8>
    decreases bytes.len(),
{
    if bytes.len() == 0 || bytes.last() == NEWLINE {
        Seq::empty()
    } else {
        unfinished_line(bytes.drop_last()).push(bytes.last())
    }
}

/// The texts of lines of received bytes.
pub open spec fn line_texts(raw: Seq<Seq<u8>>) -> Seq<Seq<char>> {
    raw.map_values(|line: Seq<u8>| line_text(line))
}

/// Whether `shown` has a replacement character in each line that is not UTF-8 in `raw`.
pub open spec fn broken_lines_marked(raw: Seq<Seq<u8>>, shown: Seq<Seq<char>>) -> bool {
    forall|i: int|
        0 <= i < raw.len() && !valid_utf8(#[trigger] raw[i]) ==> shown[i].contains(REPLACEMENT)
}

/// What a line buffer holds.
#[verifier::ext_equal]
pub struct Received {
    /// The texts of the lines that are finished, oldest first.
    pub lines: Seq<Seq<char>>,
    /// The bytes of the line that is not.
    pub partial: Seq<u8>,
}

/// Whether `text` is fit to be shown as a line: no newline is in it, and no carriage return at
/// its end.
pub open spec fn clean_line(text: Seq<char>) -> bool {
    &&& !text.contains('\n')
    &&& text.len() > 0 ==> text.last() != '\r'
}

/// Whether no newline is in `bytes`.
pub open spec fn open_line(bytes: Seq<u8>) -> bool {
    forall|i: int| 0 <= i < bytes.len() ==> #[trigger] bytes[i] != NEWLINE
}

/// Whether all finished lines are fit to be shown, and the unfinished one holds no newline.
pub open spec fn received_clean(received: Received) -> bool {
    &&& forall|i: int| 0 <= i < received.lines.len() ==> clean_line(#[trigger] received.lines[i])
    &&& open_line(received.partial)
}

/// A line buffer that has received nothing.
pub open spec fn nothing_received() -> Received {
    Received { lines: Seq::empty(), partial: Seq::empty() }
}

/// What a line buffer that held `before` holds once `bytes` have come in.
pub open spec fn after_bytes(before: Received, bytes: Seq<u8>) -> Received {
    let all = before.partial + bytes;
    Received {
        lines: before.lines + line_texts(finished_lines(all)),
        partial: unfinished_line(all),
    }
}

/// What a line buffer that held `before` holds once all `chunks` have come in, one by one.
pub open spec fn after_chunks(before: Received, chunks: Seq<Seq<u8>>) -> Received
    decreases chunks.len(),
{
    if chunks.len() == 0 {
        before
    } else {
        after_bytes(after_chunks(before, chunks.drop_last()), chunks.last())
    }
}

/// `text` without the line feeds and carriage returns at its end.
pub fn trim_line_end(text: &str) -> (out: String)
    ensures
        out@ == without_line_end(text@),
{
    let mut len: usize = text.unicode_len();
    assert(text@.take(len as int) =~= text@);
    while len > 0
        invariant
            len <= text@.len(),
            without_line_end(text@) == without_line_end(text@.take(len as int)),
        ensures
            len <= text@.len(),
            without_line_end(text@) == text@.take(len as int),
        decreases len,
    {
        let c: char = text.get_char(len - 1);
        if c != '\n' && c != '\r' {
            break;
        }
        assert(text@.take(len as int).drop_last() =~= text@.take(len - 1));
        len = len - 1;
    }
    assert(text@.subrange(0, len as int) =~= text@.take(len as int));
    text.substring_char(0, len).to_owned()
}

/// Trimming a line takes nothing from it but line feeds and carriage returns.
proof fn lemma_trimming_keeps(text: Seq<char>, c: char)
    requires
        text.contains(c),
        !line_end_char(c),
    ensures
        without_line_end(text).contains(c),
    decreases text.len(),
{
    if text.len() > 0 && line_end_char(text.last()) {
        let i = choose|i: int| 0 <= i < text.len() && text[i] == c;
        assert(text.drop_last()[i] == c);
        lemma_trimming_keeps(text.drop_last(), c);
    }
}

/// One line of text is fit to be shown once it is trimmed.
proof fn lemma_trimmed_line_is_clean(text: Seq<char>)
    requires
        one_text_line(text),
    ensures
        clean_line(without_line_end(text)),
{
    lemma_trimmed(text);
    lemma_trimmed_is_prefix(text.drop_last());
    let shown = without_line_end(text);
    assert(shown == without_line_end(text.drop_last()));
    assert forall|i: int| 0 <= i < shown.len() implies #[trigger] shown[i] != '\n' by {
        assert(shown[i] == text[i]);
    }
}

/// Trimming a line keeps what is before its end.
proof fn lemma_trimmed_is_prefix(text: Seq<char>)
    ensures
        without_line_end(text).is_prefix_of(text),
    decreases text.len(),
{
    if text.len() > 0 && line_end_char(text.last()) {
        lemma_trimmed_is_prefix(text.drop_last());
    }
}

/// Line buffer for incoming serial data.
///
/// [`RxLines::feed`] takes raw bytes and emits a line for each newline found, without the
/// newline and carriage return at its end. What follows the last newline waits for more data.
pub struct RxLines {
    lines: Vec<String>,
    partial: Vec<u8>,
}

impl View for RxLines {
    type V = Received;

    closed spec fn view(&self) -> Received {
        Received { lines: texts(self.lines@), partial: self.partial@ }
    }
}

impl Default for RxLines {
    fn default() -> (out: Self)
        ensures
            out@ == nothing_received(),
    {
        let lines: Vec<String> = Vec::new();
        let partial: Vec<u8> = Vec::new();
        assert(texts(lines@) =~= Seq::empty());
        RxLines { lines, partial }
    }
}

impl RxLines {
    #[verifier::type_invariant]
    closed spec fn clean(self) -> bool {
        received_clean(self@)
    }

    /// Takes in `bytes`, and emits a line for each newline. No newline is left in a line or in
    /// what waits, and a line that is not UTF-8 shows it by a replacement character.
    pub fn feed(&mut self, bytes: &[u8])
        ensures
            final(self)@ == after_bytes(old(self)@, bytes@),
            received_clean(final(self)@),
            broken_lines_marked(
                finished_lines(old(self)@.partial + bytes@),
                final(self)@.lines.skip(old(self)@.lines.len() as int),
            ),
    {
        proof {
            use_type_invariant(&*self);
        }
        let ghost before = self@;
        let ghost all = before.partial + bytes@;
        let mut lines: Vec<String> = Vec::new();
        let mut waiting: Vec<u8> = Vec::new();
        assert(texts(lines@) =~= Seq::empty());
        core::mem::swap(&mut lines, &mut self.lines);
        core::mem::swap(&mut waiting, &mut self.partial);
        let mut i: usize = 0;
        while i < bytes.len()
            invariant
                i <= bytes@.len(),
                waiting@ == before.partial + bytes@.take(i as int),
            decreases bytes@.len() - i,
        {
            waiting.push(bytes[i]);
            i = i + 1;
            assert(waiting@ =~= before.partial + bytes@.take(i as int));
        }
        assert(waiting@ =~= all);

        let mut current: Vec<u8> = Vec::new();
        let mut at: usize = 0;
        assert(all.take(0) =~= Seq::empty());
        assert(before.lines + line_texts(finished_lines(all.take(0))) =~= before.lines);
        while at < waiting.len()
            invariant
                at <= all.len(),
                waiting@ == all,
                texts(lines@) == before.lines + line_texts(finished_lines(all.take(at as int))),
                current@ == unfinished_line(all.take(at as int)),
                broken_lines_marked(
                    finished_lines(all.take(at as int)),
                    line_texts(finished_lines(all.take(at as int))),
                ),
                forall|i: int| 0 <= i < lines@.len() ==> clean_line(#[trigger] texts(lines@)[i]),
            decreases all.len() - at,
        {
            let b: u8 = waiting[at];
            let ghost seen = all.take(at as int);
            let ghost next = all.take(at + 1);
            assert(next.drop_last() =~= seen);
            assert(next.last() == b);
            current.push(b);
            at = at + 1;
            if b == NEWLINE {
                let ghost lines_before = lines@;
                let text = decode_lossy(&current);
                proof {
                    lemma_unfinished_is_open(seen);
                    lemma_decoded_line(current@);
                    lemma_trimmed_line_is_clean(text@);
                    if !valid_utf8(current@) {
                        lemma_trimming_keeps(text@, REPLACEMENT);
                    }
                    let raw = finished_lines(next);
                    assert forall|i: int|
                        0 <= i < raw.len() && !valid_utf8(#[trigger] raw[i]) implies line_texts(
                        raw,
                    )[i].contains(REPLACEMENT) by {
                        if i < finished_lines(seen).len() {
                            assert(raw[i] == finished_lines(seen)[i]);
                            assert(line_texts(finished_lines(seen))[i].contains(REPLACEMENT));
                        } else {
                            assert(raw[i] == current@);
                        }
                    }
                }
                lines.push(trim_line_end(&text));
                assert(texts(lines@) =~= texts(lines_before).push(line_text(current@)));
                assert(line_texts(finished_lines(next)) =~= line_texts(finished_lines(seen)).push(
                    line_text(current@),
                ));
                assert(texts(lines@) =~= before.lines + line_texts(finished_lines(next)));
                current = Vec::new();
            }
            assert(current@ =~= unfinished_line(next));
        }
        assert(all.take(at as int) =~= all);
        assert(texts(lines@).skip(before.lines.len() as int) =~= line_texts(finished_lines(all)));
        proof {
            lemma_unfinished_is_open(all);
        }
        self.lines = lines;
        self.partial = current;
    }

    /// How many lines are finished.
    pub fn line_count(&self) -> (out: usize)
        ensures
            out == self@.lines.len(),
    {
        self.lines.len()
    }

    /// The text of a finished line.
    pub fn line(&self, index: usize) -> (out: Option<String>)
        ensures
            match out {
                Some(text) => {
                    &&& index < self@.lines.len()
                    &&& text@ == self@.lines[index as int]
                    &&& clean_line(text@)
                },
                None => index >= self@.lines.len(),
            },
    {
        proof {
            use_type_invariant(self);
        }
        if index < self.lines.len() {
            assert(clean_line(self@.lines[index as int]));
            Some(self.lines[index].clone())
        } else {
            None
        }
    }
}

/// Cutting `first + second` gives the lines of `first`, then the lines of what `first` left
/// unfinished with `second` behind it.
proof fn lemma_cut_in_two(first: Seq<u8>, second: Seq<u8>)
    ensures
        finished_lines(first + second) == finished_lines(first) + finished_lines(
            unfinished_line(first) + second,
        ),
        unfinished_line(first + second) == unfinished_line(unfinished_line(first) + second),
    decreases second.len(),
{
    let tail = unfinished_line(first);
    if second.len() == 0 {
        lemma_unfinished_is_open(first);
        lemma_open_line(tail);
        assert(first + second =~= first);
        assert(tail + second =~= tail);
        assert(finished_lines(first) + finished_lines(tail) =~= finished_lines(first));
    } else {
        let before = second.drop_last();
        lemma_cut_in_two(first, before);
        assert((first + second).drop_last() =~= first + before);
        assert((tail + second).drop_last() =~= tail + before);
        assert((first + second).last() == second.last());
        assert((tail + second).last() == second.last());
        assert(finished_lines(first + second) =~= finished_lines(first) + finished_lines(
            tail + second,
        ));
    }
}

/// No newline is left in an unfinished line.
proof fn lemma_unfinished_is_open(bytes: Seq<u8>)
    ensures
        open_line(unfinished_line(bytes)),
    decreases bytes.len(),
{
    if bytes.len() > 0 && bytes.last() != NEWLINE {
        let before = unfinished_line(bytes.drop_last());
        lemma_unfinished_is_open(bytes.drop_last());
        let line = unfinished_line(bytes);
        assert forall|i: int| 0 <= i < line.len() implies #[trigger] line[i] != NEWLINE by {
            if i < before.len() {
                assert(line[i] == before[i]);
            }
        }
    }
}

/// Bytes without a newline are an unfinished line, and nothing else.
proof fn lemma_open_line(bytes: Seq<u8>)
    requires
        open_line(bytes),
    ensures
        finished_lines(bytes) == Seq::<Seq<u8>>::empty(),
        unfinished_line(bytes) == bytes,
    decreases bytes.len(),
{
    if bytes.len() > 0 {
        let before = bytes.drop_last();
        assert forall|i: int| 0 <= i < before.len() implies #[trigger] before[i] != NEWLINE by {
            assert(before[i] == bytes[i]);
        }
        lemma_open_line(before);
        assert(before.push(bytes.last()) =~= bytes);
    }
}

/// No byte is lost, added or moved: the finished lines and then the unfinished one are the
/// bytes that came in.
pub proof fn law_no_byte_is_lost(bytes: Seq<u8>)
    ensures
        finished_lines(bytes).flatten() + unfinished_line(bytes) == bytes,
    decreases bytes.len(),
{
    broadcast use Seq::<_>::lemma_flatten_push;

    if bytes.len() == 0 {
        assert(finished_lines(bytes).flatten() =~= Seq::empty());
    } else {
        let before = bytes.drop_last();
        law_no_byte_is_lost(before);
        assert(bytes =~= before.push(bytes.last()));
        if bytes.last() == NEWLINE {
            let line = unfinished_line(before).push(NEWLINE);
            assert(finished_lines(bytes).flatten() =~= finished_lines(before).flatten() + line);
        }
        assert(finished_lines(bytes).flatten() + unfinished_line(bytes) =~= bytes);
    }
}

/// A newline ends every finished line, and stands nowhere else.
pub proof fn law_newlines_end_lines(bytes: Seq<u8>)
    ensures
        forall|i: int|
            0 <= i < finished_lines(bytes).len() ==> one_line(#[trigger] finished_lines(bytes)[i]),
        open_line(unfinished_line(bytes)),
    decreases bytes.len(),
{
    lemma_unfinished_is_open(bytes);
    if bytes.len() > 0 {
        let before = bytes.drop_last();
        law_newlines_end_lines(before);
        let lines = finished_lines(bytes);
        assert forall|i: int| 0 <= i < lines.len() implies one_line(#[trigger] lines[i]) by {
            if i < finished_lines(before).len() {
                assert(lines[i] == finished_lines(before)[i]);
            } else {
                let open = unfinished_line(before);
                let line = lines[i];
                assert(line == open.push(NEWLINE));
                assert forall|j: int| 0 <= j < line.len() - 1 implies #[trigger] line[j]
                    != NEWLINE by {
                    assert(line[j] == open[j]);
                }
            }
        }
    }
}

/// There is a line for each newline.
pub proof fn law_one_line_per_newline(bytes: Seq<u8>)
    ensures
        finished_lines(bytes).len() == bytes.to_multiset().count(NEWLINE),
    decreases bytes.len(),
{
    broadcast use vstd::seq_lib::group_to_multiset_ensures;

    if bytes.len() > 0 {
        let before = bytes.drop_last();
        law_one_line_per_newline(before);
        assert(bytes =~= before.push(bytes.last()));
    }
}

/// No line is shown with a line feed or a carriage return at its end.
pub proof fn law_shown_lines_are_trimmed(raw: Seq<u8>)
    ensures
        line_text(raw).len() > 0 ==> !line_end_char(line_text(raw).last()),
{
    lemma_trimmed(decoded(raw));
}

proof fn lemma_trimmed(text: Seq<char>)
    ensures
        without_line_end(text).len() > 0 ==> !line_end_char(without_line_end(text).last()),
    decreases text.len(),
{
    if text.len() > 0 && line_end_char(text.last()) {
        lemma_trimmed(text.drop_last());
    }
}

/// How the bytes are cut into two chunks makes no difference.
pub proof fn law_two_chunks_as_one(before: Received, first: Seq<u8>, second: Seq<u8>)
    ensures
        after_bytes(after_bytes(before, first), second) == after_bytes(before, first + second),
{
    let start = before.partial + first;
    lemma_cut_in_two(start, second);
    assert(before.partial + (first + second) =~= start + second);
    assert(line_texts(finished_lines(start + second)) =~= line_texts(finished_lines(start))
        + line_texts(finished_lines(unfinished_line(start) + second)));
    assert(after_bytes(after_bytes(before, first), second) =~= after_bytes(
        before,
        first + second,
    ));
}

/// However a stream of bytes is cut into chunks, the same lines come of it.
pub proof fn law_chunks_as_one_stream(before: Received, chunks: Seq<Seq<u8>>)
    requires
        open_line(before.partial),
    ensures
        after_chunks(before, chunks) == after_bytes(before, chunks.flatten()),
    decreases chunks.len(),
{
    broadcast use Seq::<_>::lemma_flatten_push;

    if chunks.len() == 0 {
        lemma_open_line(before.partial);
        assert(before.partial + chunks.flatten() =~= before.partial);
        assert(after_bytes(before, chunks.flatten()) =~= before);
    } else {
        let rest = chunks.drop_last();
        law_chunks_as_one_stream(before, rest);
        law_two_chunks_as_one(before, rest.flatten(), chunks.last());
        assert(chunks =~= rest.push(chunks.last()));
    }
}

/// Lines that are finished stay, in their places, whatever comes in.
pub proof fn law_finished_lines_stay(before: Received, bytes: Seq<u8>, index: int)
    requires
        0 <= index < before.lines.len(),
    ensures
        index < after_bytes(before, bytes).lines.len(),
        after_bytes(before, bytes).lines[index] == before.lines[index],
{
}

/// In UTF-8, the byte of a newline stands for a newline only.
proof fn lemma_newline_byte(chars: Seq<char>)
    requires
        forall|i: int| 0 <= i < chars.len() ==> #[trigger] chars[i] != '\n',
    ensures
        forall|i: int| 0 <= i < encode_utf8(chars).len() ==> #[trigger] encode_utf8(chars)[i]
            != NEWLINE,
    decreases chars.len(),
{
    if chars.len() > 0 {
        let scalar = chars[0] as u32;
        let rest = chars.drop_first();
        assert forall|i: int| 0 <= i < rest.len() implies #[trigger] rest[i] != '\n' by {
            assert(rest[i] == chars[i + 1]);
        }
        lemma_newline_byte(rest);
        assert(chars[0] != '\n');
        char_u32_cast(chars[0], scalar);
        char_u32_cast('\n', 0x0A);
        assert(scalar != 0x0A);
        assert(has_width_1_encoding(scalar) ==> leading_byte_width_1(scalar) != 0x0A)
            by (bit_vector)
            requires
                scalar != 0x0A,
        ;
        assert(leading_byte_width_2(scalar) >= 0x80) by (bit_vector);
        assert(leading_byte_width_3(scalar) >= 0x80) by (bit_vector);
        assert(leading_byte_width_4(scalar) >= 0x80) by (bit_vector);
        assert(last_continuation_byte(scalar) >= 0x80) by (bit_vector);
        assert(second_last_continuation_byte(scalar) >= 0x80) by (bit_vector);
        assert(third_last_continuation_byte(scalar) >= 0x80) by (bit_vector);
        let head = encode_scalar(scalar);
        assert forall|i: int| 0 <= i < head.len() implies #[trigger] head[i] != NEWLINE by {}
        let all = encode_utf8(chars);
        assert forall|i: int| 0 <= i < all.len() implies #[trigger] all[i] != NEWLINE by {
            if i < head.len() {
                assert(all[i] == head[i]);
            } else {
                assert(all[i] == encode_utf8(rest)[i - head.len()]);
            }
        }
    }
}

/// The encoding of a text with one more character behind it.
proof fn lemma_encode_newline(chars: Seq<char>)
    ensures
        encode_utf8(chars.push('\n')) == encode_utf8(chars).push(NEWLINE),
    decreases chars.len(),
{
    let longer = chars.push('\n');
    if chars.len() == 0 {
        let scalar = '\n' as u32;
        assert(leading_byte_width_1(0x0A) == 0x0A) by (bit_vector);
        assert(longer.drop_first() =~= Seq::empty());
        assert(scalar == 0x0A);
        assert(longer[0] == '\n');
        assert(encode_utf8(longer.drop_first()) =~= Seq::empty());
        assert(encode_scalar(scalar) =~= seq![NEWLINE]);
        assert(encode_utf8(longer) =~= encode_scalar(scalar));
        assert(encode_utf8(chars).push(NEWLINE) =~= seq![NEWLINE]);
    } else {
        lemma_encode_newline(chars.drop_first());
        assert(longer.drop_first() =~= chars.drop_first().push('\n'));
        assert(encode_utf8(longer) =~= encode_utf8(chars).push(NEWLINE));
    }
}

/// A line of text that the device sends in UTF-8, with a newline behind it, is shown as it was
/// sent, up to carriage returns at its end.
pub proof fn law_text_line_comes_back(before: Received, sent: Seq<char>)
    requires
        before.partial.len() == 0,
        forall|i: int| 0 <= i < sent.len() ==> #[trigger] sent[i] != '\n',
    ensures
        after_bytes(before, encode_utf8(sent).push(NEWLINE)) == (Received {
            lines: before.lines.push(without_line_end(sent)),
            partial: Seq::empty(),
        }),
{
    let raw = encode_utf8(sent);
    let all = raw.push(NEWLINE);
    let whole = sent.push('\n');
    assert(finished_lines(all) == seq![all] && unfinished_line(all) == Seq::<u8>::empty()) by {
        lemma_newline_byte(sent);
        lemma_open_line(raw);
        assert(all.drop_last() =~= raw);
        assert(finished_lines(all) =~= seq![all]);
    }
    assert(line_text(all) == without_line_end(sent)) by {
        lemma_encode_newline(sent);
        encode_utf8_valid_utf8(whole);
        encode_utf8_decode_utf8(whole);
        assert(decoded(all) == whole);
        assert(whole.drop_last() =~= sent);
    }
    assert(before.partial + all =~= all);
    assert(line_texts(seq![all]) =~= seq![line_text(all)]);
    assert(before.lines + seq![line_text(all)] =~= before.lines.push(without_line_end(sent)));
}

/// A line that is UTF-8 decodes to one line of text.
proof fn lemma_decoded_line(raw: Seq<u8>)
    requires
        one_line(raw),
    ensures
        valid_utf8(raw) ==> one_text_line(decode_utf8(raw)),
{
    if valid_utf8(raw) {
        let end = raw.len() - 1;
        let rest = raw.subrange(0, end);
        let last = raw.subrange(end, raw.len() as int);
        is_char_boundary_iff_not_is_continuation_byte(raw, end);
        valid_utf8_split(raw, end);
        decode_utf8_split(raw, end);
        assert(decode_utf8(last) == seq!['\n']) by {
            let newline = Seq::<char>::empty().push('\n');
            lemma_encode_newline(Seq::empty());
            encode_utf8_decode_utf8(newline);
            assert(encode_utf8(newline) =~= last);
            assert(newline =~= seq!['\n']);
        }
        let text = decode_utf8(rest);
        assert forall|i: int| 0 <= i < text.len() implies #[trigger] text[i] != '\n' by {
            if text[i] == '\n' {
                decode_utf8_encode_utf8(rest);
                lemma_newline_char(text);
                let j = choose|j: int| 0 <= j < rest.len() && rest[j] == NEWLINE;
                assert(raw[j] == NEWLINE);
            }
        }
        assert(decode_utf8(raw) =~= text.push('\n'));
    }
}

/// In UTF-8, a newline is encoded by the byte of a newline.
proof fn lemma_newline_char(chars: Seq<char>)
    requires
        chars.contains('\n'),
    ensures
        encode_utf8(chars).contains(NEWLINE),
    decreases chars.len(),
{
    let head = encode_scalar(chars[0] as u32);
    let rest = encode_utf8(chars.drop_first());
    let all = encode_utf8(chars);
    if chars[0] == '\n' {
        lemma_encode_newline(Seq::empty());
        let newline = Seq::<char>::empty().push('\n');
        assert(newline.drop_first() =~= Seq::empty());
        assert(encode_utf8(newline) =~= head);
        assert(head[0] == NEWLINE);
        assert(all[0] == NEWLINE);
    } else {
        let i = choose|i: int| 0 <= i < chars.len() && chars[i] == '\n';
        assert(chars.drop_first()[i - 1] == '\n');
        lemma_newline_char(chars.drop_first());
        let j = choose|j: int| 0 <= j < rest.len() && rest[j] == NEWLINE;
        assert(all[head.len() + j] == NEWLINE);
    }
}

/// No newline is in the text of a finished line that is UTF-8, and no carriage return at its end.
pub proof fn law_no_newline_in_a_shown_line(bytes: Seq<u8>, index: int)
    requires
        0 <= index < finished_lines(bytes).len(),
        valid_utf8(finished_lines(bytes)[index]),
    ensures
        clean_line(line_text(finished_lines(bytes)[index])),
        !line_text(finished_lines(bytes)[index]).contains('\n'),
{
    let raw = finished_lines(bytes)[index];
    law_newlines_end_lines(bytes);
    lemma_decoded_line(raw);
    lemma_trimmed_line_is_clean(decode_utf8(raw));
}

/// Whatever chunks a line buffer has received from its start on: it holds a line for each newline
/// among the bytes, and what waits is the end of the bytes and holds no newline.
pub proof fn law_lines_of_all_chunks(chunks: Seq<Seq<u8>>)
    ensures
        after_chunks(nothing_received(), chunks).lines.len()
            == chunks.flatten().to_multiset().count(NEWLINE),
        after_chunks(nothing_received(), chunks).partial.is_suffix_of(chunks.flatten()),
        open_line(after_chunks(nothing_received(), chunks).partial),
{
    let bytes = chunks.flatten();
    let start = nothing_received();
    law_chunks_as_one_stream(start, chunks);
    assert(start.partial + bytes =~= bytes);
    law_one_line_per_newline(bytes);
    law_no_byte_is_lost(bytes);
    lemma_unfinished_is_open(bytes);
    let finished = finished_lines(bytes).flatten();
    let open = unfinished_line(bytes);
    assert((finished + open).subrange(finished.len() as int, bytes.len() as int) =~= open);
}

/// What trimming leaves, and what it takes.
proof fn lemma_trimming_splits(text: Seq<char>)
    ensures
        without_line_end(text).len() <= text.len(),
        without_line_end(text) == text.take(without_line_end(text).len() as int),
        forall|i: int|
            without_line_end(text).len() <= i < text.len() ==> (#[trigger] text[i] == '\n'
                || text[i] == '\r'),
    decreases text.len(),
{
    if text.len() > 0 && line_end_char(text.last()) {
        let fewer = text.drop_last();
        let kept = without_line_end(text);
        lemma_trimming_splits(fewer);
        assert(fewer.take(kept.len() as int) =~= text.take(kept.len() as int));
        assert forall|i: int| kept.len() <= i < text.len() implies (#[trigger] text[i] == '\n'
            || text[i] == '\r') by {
            if i < fewer.len() {
                assert(fewer[i] == text[i]);
            }
        }
    } else {
        assert(text.take(text.len() as int) =~= text);
    }
}

/// Trimming takes line feeds and carriage returns off the end of a text, all of them, and nothing
/// else.
pub proof fn law_trimming_takes_line_ends_only(text: Seq<char>)
    ensures
        ({
            let kept = without_line_end(text);
            let rest = text.skip(kept.len() as int);
            &&& text == kept + rest
            &&& forall|i: int|
                0 <= i < rest.len() ==> (#[trigger] rest[i] == '\n' || rest[i] == '\r')
            &&& kept.len() > 0 ==> kept.last() != '\n' && kept.last() != '\r'
        }),
{
    let kept = without_line_end(text);
    let rest = text.skip(kept.len() as int);
    lemma_trimming_splits(text);
    lemma_trimmed(text);
    assert(text =~= kept + rest);
    assert forall|i: int| 0 <= i < rest.len() implies (#[trigger] rest[i] == '\n' || rest[i]
        == '\r') by {
        assert(rest[i] == text[kept.len() + i]);
    }
}

/// A text that ends in neither a line feed nor a carriage return is what trimming leaves of it,
/// with any number of them behind it.
pub proof fn law_trimming_keeps_the_text(text: Seq<char>, ends: Seq<char>)
    requires
        text.len() > 0 ==> text.last() != '\n' && text.last() != '\r',
        forall|i: int| 0 <= i < ends.len() ==> (#[trigger] ends[i] == '\n' || ends[i] == '\r'),
    ensures
        without_line_end(text + ends) == text,
{
    let all = text + ends;
    let kept = without_line_end(all);
    lemma_trimming_splits(all);
    lemma_trimmed(all);
    if kept.len() < text.len() {
        assert(all[text.len() - 1] == text.last());
    }
    if kept.len() > text.len() {
        assert(kept.last() == all[kept.len() - 1]);
        assert(all[kept.len() - 1] == ends[kept.len() - 1 - text.len()]);
    }
    assert(kept =~= text);
}

/// The encoding of a text with a carriage return behind it.
proof fn lemma_encode_return(chars: Seq<char>)
    ensures
        encode_utf8(chars.push('\r')) == encode_utf8(chars).push(0x0D),
    decreases chars.len(),
{
    let longer = chars.push('\r');
    if chars.len() == 0 {
        let scalar = '\r' as u32;
        assert(leading_byte_width_1(0x0D) == 0x0D) by (bit_vector);
        assert(longer.drop_first() =~= Seq::empty());
        assert(scalar == 0x0D);
        assert(longer[0] == '\r');
        assert(encode_utf8(longer.drop_first()) =~= Seq::empty());
        assert(encode_scalar(scalar) =~= seq![0x0D]);
        assert(encode_utf8(longer) =~= encode_scalar(scalar));
        assert(encode_utf8(chars).push(0x0D) =~= seq![0x0D]);
    } else {
        lemma_encode_return(chars.drop_first());
        assert(longer.drop_first() =~= chars.drop_first().push('\r'));
        assert(encode_utf8(longer) =~= encode_utf8(chars).push(0x0D));
    }
}

/// A line of text without a line feed, and without a carriage return at its end, is shown exactly
/// as it was sent: in UTF-8, with a line feed behind it, or a carriage return and a line feed.
/// Nothing is left waiting.
pub proof fn law_line_is_shown_as_sent(before: Received, sent: Seq<char>)
    requires
        before.partial.len() == 0,
        forall|i: int| 0 <= i < sent.len() ==> #[trigger] sent[i] != '\n',
        sent.len() > 0 ==> sent.last() != '\r',
    ensures
        after_bytes(before, encode_utf8(sent) + seq![0x0Au8]) == (Received {
            lines: before.lines.push(sent),
            partial: Seq::empty(),
        }),
        after_bytes(before, encode_utf8(sent) + seq![0x0Du8, 0x0Au8]) == (Received {
            lines: before.lines.push(sent),
            partial: Seq::empty(),
        }),
{
    let raw = encode_utf8(sent);
    let returned = sent.push('\r');
    law_trimming_keeps_the_text(sent, Seq::empty());
    assert(sent + Seq::<char>::empty() =~= sent);
    law_trimming_keeps_the_text(sent, seq!['\r']);
    assert(sent + seq!['\r'] =~= returned);
    assert forall|i: int| 0 <= i < returned.len() implies #[trigger] returned[i] != '\n' by {
        if i < sent.len() {
            assert(returned[i] == sent[i]);
        }
    }
    law_text_line_comes_back(before, sent);
    law_text_line_comes_back(before, returned);
    lemma_encode_return(sent);
    assert(raw + seq![0x0Au8] =~= raw.push(0x0A));
    assert(raw + seq![0x0Du8, 0x0Au8] =~= raw.push(0x0D).push(0x0A));
}

/// All lines of a text are shown as they were sent, in their order, whatever their number, and
/// with line feeds alone or with carriage returns before them.
pub proof fn law_lines_are_shown_as_sent(
    before: Received,
    sent: Seq<Seq<char>>,
    chunks: Seq<Seq<u8>>,
)
    requires
        before.partial.len() == 0,
        sent.len() == chunks.len(),
        forall|i: int, j: int|
            0 <= i < sent.len() && 0 <= j < sent[i].len() ==> #[trigger] sent[i][j] != '\n',
        forall|i: int|
            0 <= i < sent.len() && (#[trigger] sent[i]).len() > 0 ==> sent[i].last() != '\r',
        forall|i: int|
            0 <= i < sent.len() ==> (#[trigger] chunks[i] == encode_utf8(sent[i]) + seq![0x0Au8]
                || chunks[i] == encode_utf8(sent[i]) + seq![0x0Du8, 0x0Au8]),
    ensures
        after_bytes(before, chunks.flatten()) == (Received {
            lines: before.lines + sent,
            partial: Seq::empty(),
        }),
    decreases sent.len(),
{
    broadcast use Seq::<_>::lemma_flatten_push;

    if sent.len() == 0 {
        law_chunks_as_one_stream(before, chunks);
        assert(before.lines + sent =~= before.lines);
        assert(before.partial =~= Seq::empty());
        assert(after_chunks(before, chunks) == before);
        assert(after_bytes(before, chunks.flatten()) =~= (Received {
            lines: before.lines + sent,
            partial: Seq::empty(),
        }));
    } else {
        let n = sent.len() - 1;
        let fewer = sent.drop_last();
        let rest = chunks.drop_last();
        assert forall|i: int, j: int|
            0 <= i < fewer.len() && 0 <= j < fewer[i].len() implies #[trigger] fewer[i][j]
            != '\n' by {
            assert(fewer[i] == sent[i]);
            assert(sent[i][j] != '\n');
        }
        assert forall|i: int|
            0 <= i < fewer.len() && (#[trigger] fewer[i]).len() > 0 implies fewer[i].last()
            != '\r' by {
            assert(fewer[i] == sent[i]);
        }
        assert forall|i: int| 0 <= i < fewer.len() implies (#[trigger] rest[i] == encode_utf8(
            fewer[i],
        ) + seq![0x0Au8] || rest[i] == encode_utf8(fewer[i]) + seq![0x0Du8, 0x0Au8]) by {
            assert(rest[i] == chunks[i]);
        }
        law_lines_are_shown_as_sent(before, fewer, rest);
        let middle = after_bytes(before, rest.flatten());
        assert(chunks[n] == chunks.last());
        law_line_is_shown_as_sent(middle, sent[n]);
        law_two_chunks_as_one(before, rest.flatten(), chunks.last());
        assert(chunks =~= rest.push(chunks.last()));
        assert((before.lines + fewer).push(sent[n]) =~= before.lines + sent);
    }
}

/// However bytes come in, they are cut behind each byte 0x0A and nowhere else: all of them are in
/// the finished lines and then the unfinished one, in their order; the last byte of every finished
/// line is 0x0A, and no other byte is.
pub proof fn law_bytes_are_cut_behind_line_feeds(bytes: Seq<u8>)
    ensures
        finished_lines(bytes).flatten() + unfinished_line(bytes) == bytes,
        forall|i: int|
            0 <= i < finished_lines(bytes).len() ==> (#[trigger] finished_lines(bytes)[i]).len() > 0
                && finished_lines(bytes)[i].last() == 0x0A,
        forall|i: int, j: int|
            0 <= i < finished_lines(bytes).len() && 0 <= j < finished_lines(bytes)[i].len() - 1
                ==> #[trigger] finished_lines(bytes)[i][j] != 0x0A,
        forall|j: int|
            0 <= j < unfinished_line(bytes).len() ==> #[trigger] unfinished_line(bytes)[j] != 0x0A,
{
    law_no_byte_is_lost(bytes);
    law_newlines_end_lines(bytes);
    assert forall|i: int, j: int|
        0 <= i < finished_lines(bytes).len() && 0 <= j < finished_lines(bytes)[i].len()
            - 1 implies #[trigger] finished_lines(bytes)[i][j] != 0x0A by {
        assert(one_line(finished_lines(bytes)[i]));
    }
}

/// Each finished line is shown as the text that its bytes encode, or as the repaired text where
/// they are not UTF-8, without the line feed and the carriage returns at its end, and behind all
/// lines that were there before; what is not finished waits.
pub proof fn law_finished_lines_are_shown(before: Received, bytes: Seq<u8>, index: int)
    requires
        0 <= index < finished_lines(before.partial + bytes).len(),
    ensures
        ({
            let after = after_bytes(before, bytes);
            let raw = finished_lines(before.partial + bytes);
            let shown = after.lines[before.lines.len() + index];
            let text = if valid_utf8(raw[index]) {
                decode_utf8(raw[index])
            } else {
                utf8_lossy(raw[index])
            };
            let rest = text.skip(shown.len() as int);
            &&& after.lines.len() == before.lines.len() + raw.len()
            &&& after.partial == unfinished_line(before.partial + bytes)
            &&& text == shown + rest
            &&& forall|i: int|
                0 <= i < rest.len() ==> (#[trigger] rest[i] == '\n' || rest[i] == '\r')
            &&& shown.len() > 0 ==> shown.last() != '\n' && shown.last() != '\r'
        }),
{
    let raw = finished_lines(before.partial + bytes);
    let shown = after_bytes(before, bytes).lines[before.lines.len() + index];
    assert(shown == line_text(raw[index]));
    law_trimming_takes_line_ends_only(decoded(raw[index]));
}

/// Bytes without a line feed finish no line: they wait behind those that already wait, and the
/// lines stay as they are.
pub proof fn law_open_bytes_wait(before: Received, bytes: Seq<u8>)
    requires
        forall|i: int| 0 <= i < before.partial.len() ==> #[trigger] before.partial[i] != 0x0A,
        forall|i: int| 0 <= i < bytes.len() ==> #[trigger] bytes[i] != 0x0A,
    ensures
        after_bytes(before, bytes) == (Received {
            lines: before.lines,
            partial: before.partial + bytes,
        }),
{
    let all = before.partial + bytes;
    assert forall|i: int| 0 <= i < all.len() implies #[trigger] all[i] != NEWLINE by {
        if i < before.partial.len() {
            assert(all[i] == before.partial[i]);
        } else {
            assert(all[i] == bytes[i - before.partial.len()]);
        }
    }
    lemma_open_line(all);
    assert(before.lines + line_texts(finished_lines(all)) =~= before.lines);
}

} // verus!
