//! How many bytes a size has to be.

use vstd::arithmetic::power2::{
    lemma2_to64, lemma2_to64_rest, lemma_pow2_adds, lemma_pow2_pos, lemma_pow2_strictly_increases,
    pow2,
};
use vstd::prelude::*;

use crate::laws::input::is_letter;
use crate::size::{
    in_number, number_end, parse_size, scanned, size_said, ten_to, unit_size, value_of_digits,
    whole_sizes_are_exact, SizeError,
};
use crate::text::{lowered, trimmed};

verus! {

/// The number that decimal digits make.
pub open spec fn whole_number(d: Seq<char>) -> nat
    decreases d.len(),
{
    if d.len() == 0 {
        0
    } else {
        (10 * whole_number(d.drop_last()) + (d.last() as int - '0' as int)) as nat
    }
}

/// Whether all of a text is decimal digits, and something of them is there.
pub open spec fn is_digits(d: Seq<char>) -> bool {
    d.len() > 0 && forall|i: int| 0 <= i < d.len() ==> '0' <= #[trigger] d[i] <= '9'
}

/// Whether a text is spelled like this, in whatever case.
pub open spec fn is_spelled(t: Seq<char>, small: Seq<char>) -> bool {
    t.len() == small.len() && forall|i: int|
        0 <= i < small.len() ==> #[trigger] is_letter(t[i], small[i])
}

/// Whether a unit is so many bytes: decimal, unless there is an `i` in it.
pub open spec fn is_unit(u: Seq<char>, bytes: nat) -> bool {
    ||| bytes == 1 && (u.len() == 0 || is_spelled(u, seq!['b']))
    ||| bytes == 1000 && (is_spelled(u, seq!['k']) || is_spelled(u, seq!['k', 'b']))
    ||| bytes == 1000 * 1000 && (is_spelled(u, seq!['m']) || is_spelled(u, seq!['m', 'b']))
    ||| bytes == 1000 * 1000 * 1000 && (is_spelled(u, seq!['g']) || is_spelled(u, seq!['g', 'b']))
    ||| bytes == 1024 && is_spelled(u, seq!['k', 'i', 'b'])
    ||| bytes == 1024 * 1024 && is_spelled(u, seq!['m', 'i', 'b'])
    ||| bytes == 1024 * 1024 * 1024 && is_spelled(u, seq!['g', 'i', 'b'])
}

proof fn lemma_spelled(t: Seq<char>, small: Seq<char>)
    requires
        is_spelled(t, small),
        forall|i: int| 0 <= i < small.len() ==> 'a' <= #[trigger] small[i] <= 'z',
    ensures
        lowered(t) == small,
{
    assert forall|i: int| 0 <= i < small.len() implies #[trigger] lowered(t)[i] == small[i] by {
        assert(is_letter(t[i], small[i]));
    }
    assert(lowered(t) =~= small);
}

proof fn lemma_unit(u: Seq<char>, bytes: nat)
    requires
        is_unit(u, bytes),
    ensures
        unit_size(lowered(u)) == Some(bytes),
{
    reveal_strlit("");
    reveal_strlit("b");
    reveal_strlit("k");
    reveal_strlit("kb");
    reveal_strlit("kib");
    reveal_strlit("m");
    reveal_strlit("mb");
    reveal_strlit("mib");
    reveal_strlit("g");
    reveal_strlit("gb");
    reveal_strlit("gib");
    assert("b"@[0] == 'b' && "b"@.len() == 1);
    assert("k"@[0] == 'k' && "k"@.len() == 1);
    assert("kb"@[0] == 'k' && "kb"@.len() == 2);
    assert("kib"@[0] == 'k' && "kib"@.len() == 3);
    assert("m"@[0] == 'm' && "m"@.len() == 1);
    assert("mb"@[0] == 'm' && "mb"@.len() == 2);
    assert("mib"@[0] == 'm' && "mib"@.len() == 3);
    assert("g"@[0] == 'g' && "g"@.len() == 1);
    assert("gb"@[0] == 'g' && "gb"@.len() == 2);
    assert("gib"@[0] == 'g' && "gib"@.len() == 3);
    let l = lowered(u);
    if bytes == 1 && u.len() == 0 {
        assert(l =~= ""@);
    } else if bytes == 1 && is_spelled(u, seq!['b']) {
        lemma_spelled(u, seq!['b']);
        assert(l =~= "b"@);
    } else if bytes == 1000 && is_spelled(u, seq!['k']) {
        lemma_spelled(u, seq!['k']);
        assert(l =~= "k"@);
    } else if bytes == 1000 && is_spelled(u, seq!['k', 'b']) {
        lemma_spelled(u, seq!['k', 'b']);
        assert(l =~= "kb"@);
    } else if bytes == 1000 * 1000 && is_spelled(u, seq!['m']) {
        lemma_spelled(u, seq!['m']);
        assert(l =~= "m"@);
    } else if bytes == 1000 * 1000 && is_spelled(u, seq!['m', 'b']) {
        lemma_spelled(u, seq!['m', 'b']);
        assert(l =~= "mb"@);
    } else if bytes == 1000 * 1000 * 1000 && is_spelled(u, seq!['g']) {
        lemma_spelled(u, seq!['g']);
        assert(l =~= "g"@);
    } else if bytes == 1000 * 1000 * 1000 && is_spelled(u, seq!['g', 'b']) {
        lemma_spelled(u, seq!['g', 'b']);
        assert(l =~= "gb"@);
    } else if bytes == 1024 && is_spelled(u, seq!['k', 'i', 'b']) {
        lemma_spelled(u, seq!['k', 'i', 'b']);
        assert(l =~= "kib"@);
    } else if bytes == 1024 * 1024 && is_spelled(u, seq!['m', 'i', 'b']) {
        lemma_spelled(u, seq!['m', 'i', 'b']);
        assert(l =~= "mib"@);
    } else if bytes == 1024 * 1024 * 1024 && is_spelled(u, seq!['g', 'i', 'b']) {
        lemma_spelled(u, seq!['g', 'i', 'b']);
        assert(l =~= "gib"@);
    }
}

proof fn lemma_number_end(t: Seq<char>, n: int, i: int)
    requires
        0 <= i <= n <= t.len(),
        forall|k: int| 0 <= k < n ==> '0' <= #[trigger] t[k] <= '9',
        n < t.len() ==> !in_number(t[n]),
    ensures
        number_end(t, i) == n,
    decreases n - i,
{
    if i < n {
        lemma_number_end(t, n, i + 1);
    }
}

proof fn lemma_scanned(t: Seq<char>, n: int)
    requires
        0 <= n <= t.len(),
        forall|k: int| 0 <= k < n ==> '0' <= #[trigger] t[k] <= '9',
    ensures
        scanned(t, n).digits.len() == n,
        scanned(t, n).points == 0,
        scanned(t, n).places == 0,
        value_of_digits(scanned(t, n).digits) == whole_number(t.take(n)),
    decreases n,
{
    if n > 0 {
        lemma_scanned(t, n - 1);
        assert(t.take(n).drop_last() =~= t.take(n - 1));
        assert(t.take(n).last() == t[n - 1]);
        let before = scanned(t, n - 1).digits;
        let all = scanned(t, n).digits;
        assert(all == before.push((t[n - 1] as int - 48) as u8));
        assert(all.drop_last() =~= before);
    } else {
        assert(t.take(0) =~= seq![]);
    }
}

/// A whole number of units is that many times the unit, as long as it comes to fewer than
/// `2^53` bytes: a thousand, a million or a thousand million for the decimal ones, and powers
/// of 1024 for those with an `i`. Space around the text, and between number and unit, does not
/// matter, and nor does the case.
pub proof fn a_size_is_its_number_of_units(
    s: &str,
    r: Result<u64, SizeError>,
    d: Seq<char>,
    rest: Seq<char>,
    bytes: nat,
)
    requires
        call_ensures(parse_size, (s,), r),
        trimmed(s@) == d + rest,
        is_digits(d),
        rest.len() > 0 ==> !('0' <= rest[0] <= '9') && rest[0] != '.',
        is_unit(trimmed(rest), bytes),
        0 < whole_number(d) * bytes < pow2(53),
    ensures
        r matches Ok(n) && n == whole_number(d) * bytes,
{
    let t = trimmed(s@);
    let n = d.len() as int;
    assert forall|k: int| 0 <= k < n implies '0' <= #[trigger] t[k] <= '9' by {
        assert(t[k] == d[k]);
    }
    lemma_number_end(t, n, 0);
    lemma_scanned(t, n);
    assert(t.take(n) =~= d);
    assert(t.skip(n) =~= rest);
    lemma_unit(trimmed(rest), bytes);
    let v = whole_number(d);
    whole_sizes_are_exact(v, bytes);
    assert(ten_to(0) == 1);
    assert(v < pow2(53)) by (nonlinear_arith)
        requires
            0 < v * bytes < pow2(53),
            bytes >= 1,
            v >= 0,
    ;
    lemma_pow2_strictly_increases(53, 970);
    lemma_pow2_strictly_increases(971, 1024);
    lemma_pow2_adds(1, 970);
    lemma_pow2_pos(970);
    lemma2_to64();
    lemma2_to64_rest();
    assert(v < (pow2(1024) - pow2(970)) * 1);
    assert(size_said(s@) is Ok);
}

} // verus!
