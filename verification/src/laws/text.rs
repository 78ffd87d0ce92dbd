//! What a number has to be written as.

use vstd::arithmetic::div_mod::lemma_div_denominator;
use vstd::prelude::*;

use crate::laws::size::{is_digits, whole_number};
use crate::text::{decimal, decimal_text, digit, four_places, four_places_text};

verus! {

proof fn lemma_decimal(n: nat)
    ensures
        is_digits(decimal(n)),
        whole_number(decimal(n)) == n,
        decimal(n).len() > 1 ==> decimal(n)[0] != '0',
        n > 0 ==> decimal(n)[0] != '0',
    decreases n,
{
    let d = decimal(n);
    if n >= 10 {
        let front = decimal(n / 10);
        lemma_decimal(n / 10);
        assert(d.drop_last() =~= front);
        assert forall|i: int| 0 <= i < d.len() implies '0' <= #[trigger] d[i] <= '9' by {
            if i < front.len() {
                assert(d[i] == front[i]);
            }
        }
        assert(d[0] == front[0]);
    } else {
        assert(d.drop_last() =~= seq![]);
        assert(whole_number(d.drop_last()) == 0);
        assert(d.last() == digit(n as int));
    }
}

/// A number is written in the decimal digits that make it, without a zero in front.
pub proof fn a_number_is_written_in_its_digits(n: u64, s: String)
    requires
        call_ensures(decimal_text, (n,), s),
    ensures
        is_digits(s@),
        whole_number(s@) == n,
        s@.len() > 1 ==> s@[0] != '0',
{
    lemma_decimal(n as nat);
}

/// A number of ten-thousandths is written with a point before its last four digits.
pub proof fn ten_thousandths_are_written_behind_a_point(n: u64, s: String)
    requires
        call_ensures(four_places_text, (n,), s),
    ensures
        ({
            let k = s@.len() - 5;
            &&& k > 0
            &&& s@[k] == '.'
            &&& is_digits(s@.take(k)) && is_digits(s@.skip(k + 1))
            &&& whole_number(s@.take(k)) * 10000 + whole_number(s@.skip(k + 1)) == n
        }),
{
    reveal_strlit(".");
    let front = decimal((n / 10000) as nat);
    lemma_decimal((n / 10000) as nat);
    let k = front.len() as int;
    let t = s@;
    assert(t == four_places(n as nat));
    assert(t.len() == k + 5);
    assert(t.take(k) =~= front);
    let (a, b, c, d) = lemma_places(n as int);
    lemma_four_digits(a, b, c, d);
    assert(t.skip(k + 1) =~= seq![digit(a), digit(b), digit(c), digit(d)]);
}

proof fn lemma_places(n: int) -> (p: (int, int, int, int))
    requires
        0 <= n,
    ensures
        p == (n / 1000 % 10, n / 100 % 10, n / 10 % 10, n % 10),
        0 <= p.0 <= 9 && 0 <= p.1 <= 9 && 0 <= p.2 <= 9 && 0 <= p.3 <= 9,
        n == n / 10000 * 10000 + 1000 * p.0 + 100 * p.1 + 10 * p.2 + p.3,
{
    lemma_div_denominator(n, 10, 10);
    lemma_div_denominator(n, 100, 10);
    lemma_div_denominator(n, 1000, 10);
    let (x, y, z, w) = (n / 10, n / 100, n / 1000, n / 10000);
    assert(y == x / 10 && z == y / 10 && w == z / 10);
    lemma_steps(n, x, y, z, w);
    (z % 10, y % 10, x % 10, n % 10)
}

proof fn lemma_steps(n: int, x: int, y: int, z: int, w: int)
    requires
        x == n / 10,
        y == x / 10,
        z == y / 10,
        w == z / 10,
    ensures
        n == w * 10000 + 1000 * (z % 10) + 100 * (y % 10) + 10 * (x % 10) + n % 10,
{
    assert(n == 10 * x + n % 10);
    assert(x == 10 * y + x % 10);
    assert(y == 10 * z + y % 10);
    assert(z == 10 * w + z % 10);
}

proof fn lemma_four_digits(a: int, b: int, c: int, d: int)
    requires
        0 <= a <= 9 && 0 <= b <= 9 && 0 <= c <= 9 && 0 <= d <= 9,
    ensures
        ({
            let t = seq![digit(a), digit(b), digit(c), digit(d)];
            is_digits(t) && whole_number(t) == 1000 * a + 100 * b + 10 * c + d
        }),
{
    let t = seq![digit(a), digit(b), digit(c), digit(d)];
    let t3 = seq![digit(a), digit(b), digit(c)];
    let t2 = seq![digit(a), digit(b)];
    let t1 = seq![digit(a)];
    assert(t1.drop_last() =~= seq![]);
    assert(whole_number(t1.drop_last()) == 0);
    assert(whole_number(t1) == a);
    assert(t2.drop_last() =~= t1);
    assert(whole_number(t2) == 10 * a + b);
    assert(t3.drop_last() =~= t2);
    assert(whole_number(t3) == 100 * a + 10 * b + c);
    assert(t.drop_last() =~= t3);
}

} // verus!
