//! How much a sample of received bytes looks like lines of ASCII text.

use vstd::arithmetic::div_mod::*;
use vstd::arithmetic::mul::*;
use vstd::arithmetic::power2::*;
use vstd::prelude::*;

use crate::single::{
    binary_above, binary_half, binary_quotient, binary_zero, doublings, law_quotient_is_nearest,
    law_shares_keep_their_order, lemma_doublings, lemma_quotient_at_most_one, lemma_quotient_valid,
    lemma_round_error, lemma_single_count_exact, lemma_single_count_monotone,
    lemma_single_count_positive, round_half_even, single_count, Binary, Single,
};

verus! {

/// Minimum bytes received in a window to score a baud rate at all.
pub const DETECT_MIN_BYTES: usize = 8;

/// Printable ASCII and the common whitespace characters.
pub open spec fn textlike(b: u8) -> bool {
    0x20 <= b <= 0x7E || b == 0x09 || b == 0x0A || b == 0x0D
}

/// How many of `bytes` are text-like.
pub open spec fn textlike_count(bytes: Seq<u8>) -> nat
    decreases bytes.len(),
{
    if bytes.len() == 0 {
        0
    } else {
        textlike_count(bytes.drop_last()) + if textlike(bytes.last()) {
            1nat
        } else {
            0nat
        }
    }
}

/// A line feed or a carriage return.
pub open spec fn line_end(b: u8) -> bool {
    b == 0x0A || b == 0x0D
}

/// Whether a line ends anywhere in `bytes`.
pub open spec fn has_line_end(bytes: Seq<u8>) -> bool {
    exists|i: int| 0 <= i < bytes.len() && line_end(#[trigger] bytes[i])
}

/// The share of text-like bytes, in single precision.
pub open spec fn textlike_ratio(bytes: Seq<u8>) -> Binary {
    binary_quotient(single_count(textlike_count(bytes)), single_count(bytes.len()))
}

/// The score of a sample: nothing for too few bytes, else the share of text-like bytes, of
/// which only half counts where no line ends in the sample.
pub open spec fn score_of(bytes: Seq<u8>) -> Binary {
    if bytes.len() < DETECT_MIN_BYTES {
        binary_zero()
    } else if has_line_end(bytes) {
        textlike_ratio(bytes)
    } else {
        binary_half(textlike_ratio(bytes))
    }
}

/// The least score that counts as a match: 0.85 in single precision.
pub open spec fn threshold() -> Binary {
    binary_quotient(17, 20)
}

/// Whether `score` counts as a match.
pub open spec fn matching(score: Binary) -> bool {
    !binary_above(threshold(), score)
}

/// Returns `true` for printable ASCII and common whitespace characters.
pub fn is_textlike(b: u8) -> (out: bool)
    ensures
        out == textlike(b),
{
    (0x20 <= b && b <= 0x7E) || b == 0x09 || b == 0x0A || b == 0x0D
}

/// Rate a byte slice's "looks like ASCII text" quality from zero to one.
///
/// Requires line structure in the sample: many printable bytes can turn up at the wrong baud
/// rate, but line endings are far less likely to appear by coincidence.
pub fn score_ascii(bytes: &[u8]) -> (out: Single)
    ensures
        out@ == score_of(bytes@),
{
    let len: usize = bytes.len();
    if len < DETECT_MIN_BYTES {
        return Single::zero();
    }
    let mut count: usize = 0;
    let mut line: bool = false;
    let mut i: usize = 0;
    while i < len
        invariant
            i <= len,
            len == bytes@.len(),
            count <= i,
            count == textlike_count(bytes@.take(i as int)),
            line == has_line_end(bytes@.take(i as int)),
        decreases len - i,
    {
        let b: u8 = bytes[i];
        let ghost seen = bytes@.take(i as int);
        let ghost next = bytes@.take(i + 1);
        assert(next.drop_last() =~= seen);
        assert(next.last() == b);
        if is_textlike(b) {
            count = count + 1;
        }
        if b == 0x0A || b == 0x0D {
            line = true;
            assert(line_end(next[i as int]));
        } else if line {
            assert(has_line_end(next)) by {
                let j = choose|j: int| 0 <= j < seen.len() && line_end(#[trigger] seen[j]);
                assert(line_end(next[j]));
            }
        } else {
            assert(!has_line_end(next)) by {
                if has_line_end(next) {
                    let j = choose|j: int| 0 <= j < next.len() && line_end(#[trigger] next[j]);
                    assert(line_end(seen[j]));
                }
            }
        }
        i = i + 1;
    }
    assert(bytes@.take(len as int) =~= bytes@);
    if line {
        Single::quotient(count as u64, len as u64)
    } else {
        Single::half_quotient(count as u64, len as u64)
    }
}

/// Whether `score` is high enough for a baud rate to count as a match.
pub fn is_match(score: &Single) -> (out: bool)
    ensures
        out == matching(score@),
{
    proof {
        lemma_single_count_exact(17);
        lemma_single_count_exact(20);
    }
    let least = Single::quotient(17, 20);
    !least.above(score)
}

/// No sample holds more text-like bytes than bytes.
pub proof fn lemma_textlike_count_bound(bytes: Seq<u8>)
    ensures
        textlike_count(bytes) <= bytes.len(),
    decreases bytes.len(),
{
    if bytes.len() > 0 {
        lemma_textlike_count_bound(bytes.drop_last());
    }
}

/// The threshold is 14260634 / 2^24.
proof fn lemma_matching(score: Binary)
    ensures
        matching(score) <==> 14_260_634 * pow2(score.shift) <= score.mantissa * 16_777_216,
{
    lemma2_to64();
    reveal_with_fuel(doublings, 26);
    assert(doublings(17, 20) == 24);
    assert(17 * pow2(24) == 285_212_672);
    assert(threshold() == (Binary { mantissa: 14_260_634, shift: 24 }));
    assert(score.mantissa * pow2(24) == score.mantissa * 16_777_216) by (nonlinear_arith)
        requires
            pow2(24) == 16_777_216,
    ;
}

/// A score that counts as a match is above zero.
pub proof fn lemma_match_is_positive(score: Binary)
    requires
        matching(score),
    ensures
        binary_above(score, binary_zero()),
{
    lemma_matching(score);
    lemma2_to64();
    lemma_pow2_pos(score.shift);
    lemma_mul_basics(score.mantissa as int);
}

/// Every score is a number from zero to one.
pub proof fn law_score_from_zero_to_one(bytes: Seq<u8>)
    ensures
        score_of(bytes).mantissa <= pow2(score_of(bytes).shift),
{
    lemma2_to64();
    if bytes.len() >= DETECT_MIN_BYTES {
        lemma_textlike_count_bound(bytes);
        lemma_single_count_monotone(textlike_count(bytes), bytes.len());
        lemma_single_count_positive(bytes.len());
        lemma_quotient_at_most_one(single_count(textlike_count(bytes)), single_count(bytes.len()));
        lemma_pow2_unfold(textlike_ratio(bytes).shift + 1);
    }
}

/// A sample in which no line ends is no match, however printable it is.
pub proof fn law_no_line_no_match(bytes: Seq<u8>)
    requires
        !has_line_end(bytes),
    ensures
        !matching(score_of(bytes)),
{
    lemma_matching(score_of(bytes));
    lemma2_to64();
    if bytes.len() >= DETECT_MIN_BYTES {
        let ratio = textlike_ratio(bytes);
        lemma_textlike_count_bound(bytes);
        lemma_single_count_monotone(textlike_count(bytes), bytes.len());
        lemma_single_count_positive(bytes.len());
        lemma_quotient_at_most_one(single_count(textlike_count(bytes)), single_count(bytes.len()));
        lemma_pow2_unfold(ratio.shift + 1);
        lemma_pow2_pos(ratio.shift);
    }
}

/// A sample shorter than the minimum is no match.
pub proof fn law_short_sample_no_match(bytes: Seq<u8>)
    requires
        bytes.len() < DETECT_MIN_BYTES,
    ensures
        !matching(score_of(bytes)),
{
    lemma_matching(score_of(bytes));
    lemma2_to64();
}

/// A sample of nothing but text, with a line end in it, has the score one.
pub proof fn law_all_text_scores_one(bytes: Seq<u8>)
    requires
        bytes.len() >= DETECT_MIN_BYTES,
        has_line_end(bytes),
        textlike_count(bytes) == bytes.len(),
    ensures
        score_of(bytes).mantissa == pow2(score_of(bytes).shift),
        matching(score_of(bytes)),
{
    let whole = single_count(bytes.len());
    let s = doublings(whole, whole);
    lemma_single_count_positive(bytes.len());
    lemma_doublings(whole, whole);
    lemma2_to64();
    if s > 23 {
        if s > 24 {
            lemma_pow2_strictly_increases(24, s);
        }
        lemma_mul_inequality(pow2(24) as int, pow2(s) as int, whole as int);
        lemma_mul_is_commutative(whole as int, pow2(s) as int);
    }
    lemma_div_multiples_vanish(pow2(23) as int, whole as int);
    lemma_mod_multiples_basic(pow2(23) as int, whole as int);
    lemma_mul_is_commutative(whole as int, pow2(23) as int);
    lemma_matching(score_of(bytes));
}

/// A sample with a line end is a match exactly when at least 85 of 100 of its bytes are
/// text-like. Beyond 2^23 bytes the rounding of the quotient can blur that border.
pub proof fn law_match_at_85_percent(bytes: Seq<u8>)
    requires
        DETECT_MIN_BYTES <= bytes.len() < 8_388_608,
        has_line_end(bytes),
    ensures
        matching(score_of(bytes)) <==> 100 * textlike_count(bytes) >= 85 * bytes.len(),
{
    let p = textlike_count(bytes);
    let q = bytes.len();
    lemma_textlike_count_bound(bytes);
    lemma_single_count_exact(p);
    lemma_single_count_exact(q);
    lemma_matching(score_of(bytes));
    lemma2_to64();
    if p == 0 {
    } else if p == q {
        law_all_text_scores_one(bytes);
    } else {
        let s = doublings(p, q);
        lemma_doublings(p, q);
        lemma_quotient_valid(p, q);
        let m = round_half_even(p * pow2(s), q);
        lemma_round_error(p * pow2(s), q);
        if s == 23 {
            assert(p * pow2(23) < 8_388_608 * q);
        }
        if 2 * p < q {
            if s == 24 {
                assert(p * pow2(24) < 8_388_608 * q);
            }
            lemma_pow2_unfold(s);
            if s > 25 {
                lemma_pow2_strictly_increases(25, s);
            }
        } else {
            if s > 24 {
                if s > 25 {
                    lemma_pow2_strictly_increases(25, s);
                }
                lemma_mul_inequality(pow2(25) as int, pow2(s) as int, p as int);
                lemma_mul_is_commutative(p as int, pow2(s) as int);
            }
            assert(s == 24);
            if m >= 14_260_634 {
                lemma_mul_inequality(14_260_634, m as int, q as int);
            } else {
                lemma_mul_inequality(m as int, 14_260_633, q as int);
            }
        }
    }
}

/// The count is that of the bytes that a test for text lets through.
proof fn lemma_count_is_filter(bytes: Seq<u8>)
    ensures
        textlike_count(bytes) == bytes.filter(
            |b: u8| 0x20 <= b <= 0x7E || b == 0x09 || b == 0x0A || b == 0x0D,
        ).len(),
    decreases bytes.len(),
{
    reveal(Seq::filter);
    if bytes.len() > 0 {
        lemma_count_is_filter(bytes.drop_last());
    }
}

/// The bytes of a sample that count as text are those of printable ASCII, from 0x20 to 0x7E, and
/// the tab, the line feed and the carriage return: each place with such a byte counts once, and no
/// other does.
pub proof fn law_count_of_text_bytes(bytes: Seq<u8>, more: Seq<u8>)
    ensures
        textlike_count(bytes) == bytes.filter(
            |b: u8| 0x20 <= b <= 0x7E || b == 0x09 || b == 0x0A || b == 0x0D,
        ).len(),
        textlike_count(bytes + more) == textlike_count(bytes) + textlike_count(more),
    decreases more.len(),
{
    lemma_count_is_filter(bytes);
    if more.len() == 0 {
        assert(bytes + more =~= bytes);
    } else {
        law_count_of_text_bytes(bytes, more.drop_last());
        assert((bytes + more).drop_last() =~= bytes + more.drop_last());
    }
}

/// Where every byte is one of text, all of them count.
proof fn lemma_all_count(bytes: Seq<u8>)
    requires
        forall|i: int|
            0 <= i < bytes.len() ==> 0x20 <= #[trigger] bytes[i] <= 0x7E || bytes[i] == 0x09
                || bytes[i] == 0x0A || bytes[i] == 0x0D,
    ensures
        textlike_count(bytes) == bytes.len(),
    decreases bytes.len(),
{
    if bytes.len() > 0 {
        lemma_all_count(bytes.drop_last());
    }
}

/// A sample of at least 8 bytes, all of them printable ASCII, tabs, line feeds or carriage
/// returns, one of them a line feed or a carriage return, has the score one, and is a match.
pub proof fn law_lines_of_text_score_one(bytes: Seq<u8>, line_end_at: int)
    requires
        bytes.len() >= 8,
        forall|i: int|
            0 <= i < bytes.len() ==> 0x20 <= #[trigger] bytes[i] <= 0x7E || bytes[i] == 0x09
                || bytes[i] == 0x0A || bytes[i] == 0x0D,
        0 <= line_end_at < bytes.len(),
        bytes[line_end_at] == 0x0A || bytes[line_end_at] == 0x0D,
    ensures
        score_of(bytes).mantissa == pow2(score_of(bytes).shift),
        matching(score_of(bytes)),
{
    lemma_all_count(bytes);
    assert(line_end(bytes[line_end_at]));
    law_all_text_scores_one(bytes);
}

/// The score of a sample of at least 8 bytes is the share of its bytes that are text, to half a
/// unit of the last of 24 bits, and half of that share where neither a line feed nor a carriage
/// return is in it; the two counts are those in single precision, which are the counts themselves
/// below 2^24. A shorter sample, and one without any text, has the score zero.
pub proof fn law_score_is_the_share_of_text(bytes: Seq<u8>)
    ensures
        ({
            let score = score_of(bytes);
            let text = single_count(
                bytes.filter(
                    |b: u8| 0x20 <= b <= 0x7E || b == 0x09 || b == 0x0A || b == 0x0D,
                ).len(),
            );
            let all = single_count(bytes.len());
            let lines = exists|i: int|
                0 <= i < bytes.len() && (#[trigger] bytes[i] == 0x0A || bytes[i] == 0x0D);
            let unit = if lines {
                pow2(score.shift)
            } else {
                pow2((score.shift - 1) as nat)
            };
            &&& bytes.len() < 8 || text == 0 ==> score.mantissa == 0
            &&& bytes.len() >= 8 && text > 0 ==> {
                &&& 8_388_608 <= score.mantissa < 16_777_216
                &&& 2 * (score.mantissa * all) <= 2 * (text * unit) + all
                &&& 2 * (text * unit) <= 2 * (score.mantissa * all) + all
                &&& !lines ==> score.shift > 0
            }
        }),
        bytes.len() < 16_777_216 ==> {
            &&& single_count(bytes.len()) == bytes.len()
            &&& single_count(textlike_count(bytes)) == textlike_count(bytes)
        },
{
    let text = textlike_count(bytes);
    lemma_count_is_filter(bytes);
    lemma_textlike_count_bound(bytes);
    lemma_line_ends(bytes);
    lemma_single_count_monotone(text, bytes.len());
    if bytes.len() < 16_777_216 {
        lemma_single_count_exact(text);
        lemma_single_count_exact(bytes.len());
    }
    if bytes.len() >= 8 && single_count(text) > 0 {
        lemma_single_count_positive(bytes.len());
        law_quotient_is_nearest(single_count(text), single_count(bytes.len()));
    }
}

/// Where a line ends, there is a line feed or a carriage return.
proof fn lemma_line_ends(bytes: Seq<u8>)
    ensures
        has_line_end(bytes) <==> exists|i: int|
            0 <= i < bytes.len() && (#[trigger] bytes[i] == 0x0A || bytes[i] == 0x0D),
{
    if has_line_end(bytes) {
        let i = choose|i: int| 0 <= i < bytes.len() && line_end(#[trigger] bytes[i]);
        assert(bytes[i] == 0x0A || bytes[i] == 0x0D);
    }
    if exists|i: int| 0 <= i < bytes.len() && (#[trigger] bytes[i] == 0x0A || bytes[i] == 0x0D) {
        let i = choose|i: int|
            0 <= i < bytes.len() && (#[trigger] bytes[i] == 0x0A || bytes[i] == 0x0D);
        assert(line_end(bytes[i]));
    }
}

/// A sample is a match exactly when it holds at least 8 bytes, a line feed or a carriage return is
/// among them, and at least 85 of 100 of them are text. Beyond 2^23 bytes the rounding of the
/// quotient can blur that border.
pub proof fn law_match_by_the_bytes(bytes: Seq<u8>)
    requires
        bytes.len() < 8_388_608,
    ensures
        matching(score_of(bytes)) <==> {
            &&& bytes.len() >= 8
            &&& exists|i: int|
                0 <= i < bytes.len() && (#[trigger] bytes[i] == 0x0A || bytes[i] == 0x0D)
            &&& 100 * bytes.filter(
                |b: u8| 0x20 <= b <= 0x7E || b == 0x09 || b == 0x0A || b == 0x0D,
            ).len() >= 85 * bytes.len()
        },
{
    lemma_count_is_filter(bytes);
    lemma_line_ends(bytes);
    if bytes.len() < 8 {
        law_short_sample_no_match(bytes);
    } else if has_line_end(bytes) {
        law_match_at_85_percent(bytes);
    } else {
        law_no_line_no_match(bytes);
    }
}

/// Of two samples with line ends in them, of 8 to 4096 bytes each, the one with the greater share
/// of text has the higher score, by however little, and with the same share they have the same.
pub proof fn law_more_text_scores_higher(a: Seq<u8>, b: Seq<u8>)
    requires
        8 <= a.len() <= 4096,
        8 <= b.len() <= 4096,
        exists|i: int| 0 <= i < a.len() && (#[trigger] a[i] == 0x0A || a[i] == 0x0D),
        exists|i: int| 0 <= i < b.len() && (#[trigger] b[i] == 0x0A || b[i] == 0x0D),
    ensures
        ({
            let text_a = a.filter(
                |b: u8| 0x20 <= b <= 0x7E || b == 0x09 || b == 0x0A || b == 0x0D,
            ).len();
            let text_b = b.filter(
                |b: u8| 0x20 <= b <= 0x7E || b == 0x09 || b == 0x0A || b == 0x0D,
            ).len();
            &&& binary_above(score_of(a), score_of(b)) <==> text_a * b.len() > text_b * a.len()
            &&& score_of(a) == score_of(b) <==> text_a * b.len() == text_b * a.len()
        }),
{
    lemma_count_is_filter(a);
    lemma_count_is_filter(b);
    lemma_line_ends(a);
    lemma_line_ends(b);
    lemma_textlike_count_bound(a);
    lemma_textlike_count_bound(b);
    lemma_single_count_exact(textlike_count(a));
    lemma_single_count_exact(textlike_count(b));
    lemma_single_count_exact(a.len());
    lemma_single_count_exact(b.len());
    law_shares_keep_their_order(textlike_count(a), a.len(), textlike_count(b), b.len());
}

/// A score is a match exactly when it is not below the single-precision number nearest to 0.85.
pub proof fn law_match_is_by_the_score(score: Binary)
    ensures
        matching(score) <==> 14_260_634 * pow2(score.shift) <= score.mantissa * 16_777_216,
{
    lemma_matching(score);
}

} // verus!
