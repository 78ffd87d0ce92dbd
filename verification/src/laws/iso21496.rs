//! What a metadata payload has to read as.

use vstd::prelude::*;

use crate::binary32::{ratio, Binary32};
use crate::iso21496::{
    beyond_range, channel_violation, first_failure, fraction, fraction_count, parse, parsed, stated,
    violation, OneChannel, ParseError,
};
use crate::laws::{number16, number32, words_are_the_numbers_their_bytes_make};
use crate::meta::{Channels, GainMapMeta};

verus! {

/// The number a payload has at `at` as a fraction of two, the upper of them in two's complement.
#[verifier::opaque]
pub open spec fn signed_fraction(s: Seq<u8>, at: int) -> Binary32 {
    let n = number32(false, s, at);
    ratio(
        if n >= 0x8000_0000 {
            n - 0x1_0000_0000
        } else {
            n
        },
        number32(false, s, at + 4) as nat,
    )
}

/// The number a payload has at `at` as a fraction of two.
#[verifier::opaque]
pub open spec fn unsigned_fraction(s: Seq<u8>, at: int) -> Binary32 {
    ratio(number32(false, s, at), number32(false, s, at + 4) as nat)
}

/// Fraction `i` of a payload, its upper number without a sign.
pub open spec fn unsigned_at(s: Seq<u8>, i: int) -> Binary32 {
    unsigned_fraction(s, 5 + 8 * i)
}

/// Fraction `i` of a payload, its upper number with a sign.
pub open spec fn signed_at(s: Seq<u8>, i: int) -> Binary32 {
    signed_fraction(s, 5 + 8 * i)
}

/// Where the parameters of channel `c` begin: each channel has 40 bytes of its own behind the
/// headrooms, or all have the same.
pub open spec fn channel_at(s: Seq<u8>, c: int) -> int {
    if s[4] >= 128 {
        21 + 40 * c
    } else {
        21
    }
}

/// How long a payload is: three channels when the highest bit of its flags says so, or one.
pub open spec fn payload_length(flags: u8) -> int {
    if flags >= 128 {
        141
    } else {
        61
    }
}

/// Whether a value's magnitude is at most 64.
pub open spec fn within_64(v: Binary32) -> bool {
    v.bits <= 0x4280_0000 || 0x8000_0000 <= v.bits <= 0xc280_0000
}

/// Whether all of a channel triple is within range.
pub open spec fn all_within_64(v: Channels) -> bool {
    within_64(v.r) && within_64(v.g) && within_64(v.b)
}

/// Whether every number of a payload is a fraction: it has all of them, and none is over zero.
pub open spec fn has_its_fractions(s: Seq<u8>) -> bool {
    &&& s.len() >= 5
    &&& s.len() >= payload_length(s[4])
    &&& forall|i: int|
        0 <= i && 13 + 8 * i <= payload_length(s[4]) ==> #[trigger] denominator(s, i) != 0
}

/// What a payload's fraction `i` is over.
pub open spec fn denominator(s: Seq<u8>, i: int) -> int {
    number32(false, s, 9 + 8 * i)
}

proof fn lemma_no_failure(s: Seq<u8>, i: int, n: int, k: int)
    requires
        0 <= i <= k < n,
        first_failure(s, i, n) is None,
    ensures
        fraction(s, k) is Ok,
    decreases n - i,
{
    if i < k {
        lemma_no_failure(s, i + 1, n, k);
    }
}

proof fn lemma_fraction(s: Seq<u8>, i: int)
    requires
        0 <= i,
        fraction(s, i) is Ok,
    ensures
        13 + 8 * i <= s.len(),
        denominator(s, i) != 0,
        i < 2 || (i - 2) % 5 == 2 ==> fraction(s, i) == Ok::<Binary32, ParseError>(
            unsigned_fraction(s, 5 + 8 * i),
        ),
        i >= 2 && (i - 2) % 5 != 2 ==> fraction(s, i) == Ok::<Binary32, ParseError>(
            signed_fraction(s, 5 + 8 * i),
        ),
{
    reveal(signed_fraction);
    reveal(unsigned_fraction);
    words_are_the_numbers_their_bytes_make(false, s, 5 + 8 * i);
    words_are_the_numbers_their_bytes_make(false, s, 9 + 8 * i);
}

proof fn lemma_channel(s: Seq<u8>, c: int)
    requires
        0 <= c < 3,
        s.len() >= 5,
        first_failure(s, 0, fraction_count(s[4])) is None,
    ensures
        ({
            let at = channel_at(s, c);
            let m = stated(s).channel(c);
            &&& m.min_log2 == signed_fraction(s, at)
            &&& m.max_log2 == signed_fraction(s, at + 8)
            &&& m.gamma == unsigned_fraction(s, at + 16)
            &&& m.base_offset == signed_fraction(s, at + 24)
            &&& m.alt_offset == signed_fraction(s, at + 32)
        }),
{
    let n = fraction_count(s[4]);
    let first = 2 + if s[4] >= 128 {
        5 * c
    } else {
        0
    };
    lemma_no_failure(s, 0, n, first);
    lemma_no_failure(s, 0, n, first + 1);
    lemma_no_failure(s, 0, n, first + 2);
    lemma_no_failure(s, 0, n, first + 3);
    lemma_no_failure(s, 0, n, first + 4);
    lemma_fraction(s, first);
    lemma_fraction(s, first + 1);
    lemma_fraction(s, first + 2);
    lemma_fraction(s, first + 3);
    lemma_fraction(s, first + 4);
}

/// Whether `m` is what stands in a payload, whose fractions are all there.
#[verifier::opaque]
spec fn is_stated(s: Seq<u8>, m: GainMapMeta) -> bool {
    &&& s.len() >= 5
    &&& number16(false, s, 0) == 0
    &&& first_failure(s, 0, fraction_count(s[4])) is None
    &&& m == stated(s)
}

/// Whether nothing in `m` is past the accepted range.
#[verifier::opaque]
spec fn is_accepted(m: GainMapMeta) -> bool {
    violation(m) is None
}

/// Whether a channel of `m` is the one a payload has at `at`.
pub open spec fn channel_stands_at(s: Seq<u8>, at: int, m: GainMapMeta, c: int) -> bool {
    &&& m.channel(c).min_log2 == signed_fraction(s, at)
    &&& m.channel(c).max_log2 == signed_fraction(s, at + 8)
    &&& m.channel(c).gamma == unsigned_fraction(s, at + 16)
    &&& m.channel(c).base_offset == signed_fraction(s, at + 24)
    &&& m.channel(c).alt_offset == signed_fraction(s, at + 32)
}

proof fn lemma_stated_channel(s: Seq<u8>, m: GainMapMeta, c: int)
    requires
        is_stated(s, m),
        0 <= c < 3,
    ensures
        channel_stands_at(s, channel_at(s, c), m, c),
{
    reveal(is_stated);
    lemma_channel(s, c);
}

proof fn lemma_stated_head(s: Seq<u8>, m: GainMapMeta)
    requires
        is_stated(s, m),
    ensures
        has_its_fractions(s),
        number16(false, s, 0) == 0,
        m.base_headroom == unsigned_fraction(s, 5),
        m.alt_headroom == unsigned_fraction(s, 13),
        m.use_base_color_space == (s[4] / 64 % 2 == 1),
{
    reveal(is_stated);
    let n = fraction_count(s[4]);
    assert forall|i: int| 0 <= i && 13 + 8 * i <= payload_length(s[4]) implies #[trigger] denominator(
        s,
        i,
    ) != 0 by {
        lemma_no_failure(s, 0, n, i);
        lemma_fraction(s, i);
    }
    lemma_no_failure(s, 0, n, 0);
    lemma_no_failure(s, 0, n, 1);
    lemma_no_failure(s, 0, n, n - 1);
    lemma_fraction(s, 0);
    lemma_fraction(s, 1);
    lemma_fraction(s, n - 1);
}

proof fn lemma_range(v: Binary32)
    ensures
        beyond_range(v) == !within_64(v),
{
    assert(v.bits < 0x8000_0000 ==> v.bits % 0x8000_0000 == v.bits);
    assert(v.bits >= 0x8000_0000 ==> v.bits % 0x8000_0000 == v.bits - 0x8000_0000);
}

/// Whether a channel is within range.
spec fn channel_within_64(c: OneChannel) -> bool {
    within_64(c.min_log2) && within_64(c.max_log2) && within_64(c.gamma) && within_64(c.base_offset)
        && within_64(c.alt_offset)
}

proof fn lemma_accepted_channel(c: OneChannel)
    ensures
        channel_violation(c) is None == channel_within_64(c),
        channel_violation(c) matches Some(e) ==> (e matches ParseError::OutOfRange { value, .. }
            && !within_64(value)),
{
    lemma_range(c.min_log2);
    lemma_range(c.max_log2);
    lemma_range(c.gamma);
    lemma_range(c.base_offset);
    lemma_range(c.alt_offset);
}

proof fn lemma_accepted(m: GainMapMeta)
    ensures
        is_accepted(m) == (within_64(m.base_headroom) && within_64(m.alt_headroom)
            && all_within_64(m.min_log2) && all_within_64(m.max_log2) && all_within_64(m.gamma)
            && all_within_64(m.base_offset) && all_within_64(m.alt_offset)),
        violation(m) matches Some(e) ==> (e matches ParseError::OutOfRange { value, .. }
            && !within_64(value)),
{
    reveal(is_accepted);
    lemma_range(m.base_headroom);
    lemma_range(m.alt_headroom);
    lemma_accepted_channel(m.channel(0));
    lemma_accepted_channel(m.channel(1));
    lemma_accepted_channel(m.channel(2));
    let all = channel_within_64(m.channel(0)) && channel_within_64(m.channel(1))
        && channel_within_64(m.channel(2));
    assert(all == (all_within_64(m.min_log2) && all_within_64(m.max_log2) && all_within_64(m.gamma)
        && all_within_64(m.base_offset) && all_within_64(m.alt_offset)));
}

/// What comes of a payload, case by case.
proof fn lemma_outcome(s: Seq<u8>, r: Result<GainMapMeta, ParseError>) -> (m: GainMapMeta)
    requires
        r == parsed(s),
    ensures
        s.len() >= 5 && number16(false, s, 0) == 0 && first_failure(
            s,
            0,
            fraction_count(s[4]),
        ) is None ==> is_stated(s, m) && (if is_accepted(m) {
            r == Ok::<GainMapMeta, ParseError>(m)
        } else {
            r matches Err(ParseError::OutOfRange { value, .. }) && !within_64(value)
        }),
        r matches Ok(x) ==> is_stated(s, x) && is_accepted(x),
{
    words_are_the_numbers_their_bytes_make(false, s, 0);
    reveal(is_stated);
    let m = stated(s);
    lemma_accepted(m);
    assert(is_accepted(m) == (violation(m) is None)) by {
        reveal(is_accepted);
    }
    m
}

/// What is read of a payload is what stands in it: after a version and the flags two headrooms,
/// then for each channel its least and greatest gain, its gamma and its two offsets, each a
/// fraction of two 32-bit numbers. A payload with one channel states it for all three. The
/// second highest bit of the flags says whether the base image's colour space is used. All of
/// the numbers are within range.
pub proof fn a_payload_reads_as_its_fractions(bytes: &[u8], r: Result<GainMapMeta, ParseError>)
    requires
        call_ensures(parse, (bytes,), r),
        r is Ok,
    ensures
        reads_as(bytes@, r->Ok_0),
{
    let x = lemma_outcome(bytes@, r);
    lemma_reads_as(bytes@, r->Ok_0);
}

/// What `m` has to be for a payload to state it.
pub open spec fn reads_as(s: Seq<u8>, m: GainMapMeta) -> bool {
    let (at0, at1, at2) = (channel_at(s, 0), channel_at(s, 1), channel_at(s, 2));
    &&& s.len() >= 5
    &&& s.len() >= payload_length(s[4])
    &&& number16(false, s, 0) == 0
    &&& m.base_headroom == unsigned_fraction(s, 5)
    &&& m.alt_headroom == unsigned_fraction(s, 13)
    &&& m.min_log2.r == signed_fraction(s, at0)
    &&& m.min_log2.g == signed_fraction(s, at1)
    &&& m.min_log2.b == signed_fraction(s, at2)
    &&& m.max_log2.r == signed_fraction(s, at0 + 8)
    &&& m.max_log2.g == signed_fraction(s, at1 + 8)
    &&& m.max_log2.b == signed_fraction(s, at2 + 8)
    &&& m.gamma.r == unsigned_fraction(s, at0 + 16)
    &&& m.gamma.g == unsigned_fraction(s, at1 + 16)
    &&& m.gamma.b == unsigned_fraction(s, at2 + 16)
    &&& m.base_offset.r == signed_fraction(s, at0 + 24)
    &&& m.base_offset.g == signed_fraction(s, at1 + 24)
    &&& m.base_offset.b == signed_fraction(s, at2 + 24)
    &&& m.alt_offset.r == signed_fraction(s, at0 + 32)
    &&& m.alt_offset.g == signed_fraction(s, at1 + 32)
    &&& m.alt_offset.b == signed_fraction(s, at2 + 32)
    &&& m.use_base_color_space == (s[4] / 64 % 2 == 1)
    &&& within_64(m.base_headroom) && within_64(m.alt_headroom)
    &&& all_within_64(m.min_log2) && all_within_64(m.max_log2) && all_within_64(m.gamma)
    &&& all_within_64(m.base_offset) && all_within_64(m.alt_offset)
}

proof fn lemma_reads_as(s: Seq<u8>, m: GainMapMeta)
    requires
        is_stated(s, m),
        is_accepted(m),
    ensures
        reads_as(s, m),
{
    lemma_stated_head(s, m);
    lemma_stated_channel(s, m, 0);
    lemma_stated_channel(s, m, 1);
    lemma_stated_channel(s, m, 2);
    lemma_accepted(m);
}

proof fn lemma_all_there(s: Seq<u8>, i: int, n: int)
    requires
        0 <= i <= n,
        s.len() >= 5 + 8 * n,
        forall|k: int| 0 <= k < n ==> #[trigger] denominator(s, k) != 0,
    ensures
        first_failure(s, i, n) is None,
    decreases n - i,
{
    if i < n {
        words_are_the_numbers_their_bytes_make(false, s, 9 + 8 * i);
        assert(denominator(s, i) != 0);
        lemma_all_there(s, i + 1, n);
    }
}

proof fn lemma_failure_is_real(s: Seq<u8>, i: int, n: int)
    requires
        0 <= i <= n,
        first_failure(s, i, n) is Some,
    ensures
        ({
            let e = first_failure(s, i, n)->Some_0;
            ||| e is Truncated && s.len() < 5 + 8 * n
            ||| e is ZeroDenominator && exists|k: int|
                i <= k < n && 13 + 8 * k <= s.len() && #[trigger] denominator(s, k) == 0
        }),
    decreases n - i,
{
    words_are_the_numbers_their_bytes_make(false, s, 9 + 8 * i);
    if fraction(s, i) is Ok {
        lemma_failure_is_real(s, i + 1, n);
        if !(first_failure(s, i + 1, n)->Some_0 is Truncated) {
            let k = choose|k: int|
                i + 1 <= k < n && 13 + 8 * k <= s.len() && #[trigger] denominator(s, k) == 0;
            assert(denominator(s, k) == 0);
        }
    } else if fraction(s, i)->Err_0 is ZeroDenominator {
        assert(denominator(s, i) == 0);
    }
}

/// A payload is refused only for a reason: it is of another version, which is named, or it is
/// too short, or one of its numbers is over zero, or it is all there and one is out of range.
pub proof fn a_payload_is_refused_only_for_a_reason(
    bytes: &[u8],
    r: Result<GainMapMeta, ParseError>,
)
    requires
        call_ensures(parse, (bytes,), r),
    ensures
        ({
            let s = bytes@;
            match r {
                Ok(_) => has_its_fractions(s) && number16(false, s, 0) == 0,
                Err(ParseError::UnsupportedVersion(v)) => s.len() >= 4 && v != 0 && v == number16(
                    false,
                    s,
                    0,
                ),
                Err(ParseError::Truncated) => s.len() < 5 || s.len() < payload_length(s[4]),
                Err(ParseError::ZeroDenominator) => s.len() >= 5 && exists|k: int|
                    0 <= k && 13 + 8 * k <= payload_length(s[4]) && #[trigger] denominator(s, k)
                        == 0,
                Err(ParseError::OutOfRange { value, .. }) => has_its_fractions(s) && !within_64(
                    value,
                ),
            }
        }),
        bytes@.len() >= 4 && number16(false, bytes@, 0) != 0 ==> (
        r matches Err(ParseError::UnsupportedVersion(_))),
{
    let s = bytes@;
    words_are_the_numbers_their_bytes_make(false, s, 0);
    let x = lemma_outcome(s, r);
    if s.len() >= 5 && number16(false, s, 0) == 0 {
        let n = fraction_count(s[4]);
        if first_failure(s, 0, n) is Some {
            lemma_failure_is_real(s, 0, n);
            if first_failure(s, 0, n)->Some_0 is ZeroDenominator {
                let k = choose|k: int|
                    0 <= k < n && 13 + 8 * k <= s.len() && #[trigger] denominator(s, k) == 0;
                assert(denominator(s, k) == 0);
            }
        } else {
            lemma_stated_head(s, x);
        }
    }
}

/// A payload whose numbers are all within range is read.
pub proof fn a_payload_in_range_is_read(bytes: &[u8], r: Result<GainMapMeta, ParseError>)
    requires
        call_ensures(parse, (bytes,), r),
        has_its_fractions(bytes@),
        number16(false, bytes@, 0) == 0,
        forall|i: int| 0 <= i && 13 + 8 * i <= payload_length(bytes@[4]) ==> within_64(
            #[trigger] unsigned_at(bytes@, i),
        ) && within_64(signed_at(bytes@, i)),
    ensures
        r is Ok,
{
    let s = bytes@;
    lemma_all_there(s, 0, fraction_count(s[4]));
    let m = lemma_outcome(s, r);
    lemma_in_range(s, m);
}

proof fn lemma_in_range(s: Seq<u8>, m: GainMapMeta)
    requires
        is_stated(s, m),
        forall|i: int| 0 <= i && 13 + 8 * i <= payload_length(s[4]) ==> within_64(
            #[trigger] unsigned_at(s, i),
        ) && within_64(signed_at(s, i)),
    ensures
        is_accepted(m),
{
    lemma_stated_head(s, m);
    lemma_stated_channel(s, m, 0);
    lemma_stated_channel(s, m, 1);
    lemma_stated_channel(s, m, 2);
    assert forall|i: int| 0 <= i && 13 + 8 * i <= payload_length(s[4]) implies within_64(
        #[trigger] unsigned_fraction(s, 5 + 8 * i),
    ) && within_64(signed_fraction(s, 5 + 8 * i)) by {
        assert(within_64(unsigned_at(s, i)));
    }
    assert forall|c: int, j: int| 0 <= c < 3 && 0 <= j < 5 implies within_64(
        #[trigger] unsigned_fraction(s, channel_at(s, c) + 8 * j),
    ) && within_64(signed_fraction(s, channel_at(s, c) + 8 * j)) by {
        let i = 2 + j + if s[4] >= 128 {
            5 * c
        } else {
            0
        };
        assert(channel_at(s, c) + 8 * j == 5 + 8 * i);
        assert(within_64(unsigned_fraction(s, 5 + 8 * i)));
    }
    lemma_channel_in_range(s, m, 0);
    lemma_channel_in_range(s, m, 1);
    lemma_channel_in_range(s, m, 2);
    assert(within_64(unsigned_at(s, 0)) && within_64(unsigned_at(s, 1)));
    lemma_accepted(m);
}

proof fn lemma_channel_in_range(s: Seq<u8>, m: GainMapMeta, c: int)
    requires
        0 <= c < 3,
        channel_stands_at(s, channel_at(s, c), m, c),
        forall|c: int, j: int| 0 <= c < 3 && 0 <= j < 5 ==> within_64(
            #[trigger] unsigned_fraction(s, channel_at(s, c) + 8 * j),
        ) && within_64(signed_fraction(s, channel_at(s, c) + 8 * j)),
    ensures
        within_64(m.channel(c).min_log2),
        within_64(m.channel(c).max_log2),
        within_64(m.channel(c).gamma),
        within_64(m.channel(c).base_offset),
        within_64(m.channel(c).alt_offset),
{
    let at = channel_at(s, c);
    assert(within_64(unsigned_fraction(s, at + 8 * 0)));
    assert(within_64(unsigned_fraction(s, at + 8 * 1)));
    assert(within_64(unsigned_fraction(s, at + 8 * 2)));
    assert(within_64(unsigned_fraction(s, at + 8 * 3)));
    assert(within_64(unsigned_fraction(s, at + 8 * 4)));
}

} // verus!
