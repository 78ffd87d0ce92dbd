//! Which colour space a name has to stand for.

use vstd::prelude::*;
use vstd::utf8::{encode_utf8, is_ascii_chars, is_ascii_chars_encode_utf8};

use crate::colour::{is_separator, lower, named, squeezed, Primaries, UnknownColourSpace};

verus! {

/// Whether a character is `small`, or the capital of it.
pub open spec fn is_same(c: char, small: char) -> bool {
    c == small || ('A' <= c <= 'Z' && c as int + 32 == small as int)
}

/// Whether a text is this word, in whatever case.
pub open spec fn is_written(t: Seq<char>, word: Seq<char>) -> bool {
    t.len() == word.len() && forall|i: int|
        0 <= i < word.len() ==> #[trigger] is_same(t[i], word[i])
}

/// Whether a text is a name of sRGB's primaries.
pub open spec fn is_srgb(t: Seq<char>) -> bool {
    ||| is_written(t, seq!['s', 'r', 'g', 'b'])
    ||| is_written(t, seq!['b', 't', '7', '0', '9'])
    ||| is_written(t, seq!['r', 'e', 'c', '7', '0', '9'])
    ||| is_written(t, seq!['7', '0', '9'])
}

/// Whether a text is a name of Display P3's primaries.
pub open spec fn is_p3(t: Seq<char>) -> bool {
    ||| is_written(t, seq!['p', '3'])
    ||| is_written(t, seq!['d', 'i', 's', 'p', 'l', 'a', 'y', 'p', '3'])
    ||| is_written(t, seq!['d', 'c', 'i', 'p', '3'])
}

/// Whether a text is a name of Rec. 2020's primaries.
pub open spec fn is_2020(t: Seq<char>) -> bool {
    ||| is_written(t, seq!['r', 'e', 'c', '2', '0', '2', '0'])
    ||| is_written(t, seq!['b', 't', '2', '0', '2', '0'])
    ||| is_written(t, seq!['2', '0', '2', '0'])
}

/// Whether a word is made of small letters and digits.
spec fn is_plain(word: Seq<char>) -> bool {
    forall|i: int|
        0 <= i < word.len() ==> ('a' <= #[trigger] word[i] <= 'z') || ('0' <= word[i] <= '9')
}

proof fn lemma_squeezed(b: Seq<u8>, w: Seq<u8>)
    requires
        b.len() == w.len(),
        forall|i: int| 0 <= i < b.len() ==> !is_separator(#[trigger] b[i]) && lower(b[i]) == w[i],
    ensures
        squeezed(b) == w,
    decreases b.len(),
{
    if b.len() > 0 {
        lemma_squeezed(b.drop_last(), w.drop_last());
        assert(w.drop_last().push(w.last()) =~= w);
    } else {
        assert(b =~= w);
    }
}

proof fn lemma_written(t: Seq<char>, word: Seq<char>)
    requires
        is_written(t, word),
        is_plain(word),
    ensures
        squeezed(encode_utf8(t)) == encode_utf8(word),
{
    assert forall|i: int| 0 <= i < t.len() implies 0 <= (#[trigger] t[i]) as int <= 127 by {
        assert(is_same(t[i], word[i]));
        assert('a' <= word[i] <= 'z' || '0' <= word[i] <= '9');
    }
    assert(is_ascii_chars(t));
    assert(is_ascii_chars(word));
    is_ascii_chars_encode_utf8(t);
    is_ascii_chars_encode_utf8(word);
    let b = encode_utf8(t);
    let w = encode_utf8(word);
    assert forall|i: int| 0 <= i < b.len() implies !is_separator(#[trigger] b[i]) && lower(b[i])
        == w[i] by {
        assert(is_same(t[i], word[i]));
        assert(b[i] == t[i] as u8);
        assert(w[i] == word[i] as u8);
    }
    lemma_squeezed(b, w);
}

proof fn lemma_word_bytes(word: Seq<char>)
    requires
        is_plain(word),
    ensures
        encode_utf8(word).len() == word.len(),
        forall|i: int| 0 <= i < word.len() ==> #[trigger] encode_utf8(word)[i] == word[i] as u8,
{
    assert(is_ascii_chars(word));
    is_ascii_chars_encode_utf8(word);
}

proof fn lemma_words()
    ensures
        "srgb"@ == seq!['s', 'r', 'g', 'b'],
        "bt709"@ == seq!['b', 't', '7', '0', '9'],
        "rec709"@ == seq!['r', 'e', 'c', '7', '0', '9'],
        "709"@ == seq!['7', '0', '9'],
        "p3"@ == seq!['p', '3'],
        "displayp3"@ == seq!['d', 'i', 's', 'p', 'l', 'a', 'y', 'p', '3'],
        "dcip3"@ == seq!['d', 'c', 'i', 'p', '3'],
        "rec2020"@ == seq!['r', 'e', 'c', '2', '0', '2', '0'],
        "bt2020"@ == seq!['b', 't', '2', '0', '2', '0'],
        "2020"@ == seq!['2', '0', '2', '0'],
{
    reveal_strlit("srgb");
    reveal_strlit("bt709");
    reveal_strlit("rec709");
    reveal_strlit("709");
    reveal_strlit("p3");
    reveal_strlit("displayp3");
    reveal_strlit("dcip3");
    reveal_strlit("rec2020");
    reveal_strlit("bt2020");
    reveal_strlit("2020");
    assert("srgb"@ =~= seq!['s', 'r', 'g', 'b']);
    assert("bt709"@ =~= seq!['b', 't', '7', '0', '9']);
    assert("rec709"@ =~= seq!['r', 'e', 'c', '7', '0', '9']);
    assert("709"@ =~= seq!['7', '0', '9']);
    assert("p3"@ =~= seq!['p', '3']);
    assert("displayp3"@ =~= seq!['d', 'i', 's', 'p', 'l', 'a', 'y', 'p', '3']);
    assert("dcip3"@ =~= seq!['d', 'c', 'i', 'p', '3']);
    assert("rec2020"@ =~= seq!['r', 'e', 'c', '2', '0', '2', '0']);
    assert("bt2020"@ =~= seq!['b', 't', '2', '0', '2', '0']);
    assert("2020"@ =~= seq!['2', '0', '2', '0']);
}

/// sRGB, Display P3 and Rec. 2020 are known by the names people give them, in whatever case.
pub proof fn a_colour_space_is_known_by_its_names(
    s: &str,
    r: Result<Primaries, UnknownColourSpace>,
)
    requires
        call_ensures(Primaries::parse, (s,), r),
    ensures
        is_srgb(s@) ==> (r matches Ok(p) && p == Primaries::Bt709),
        is_p3(s@) ==> (r matches Ok(p) && p == Primaries::DisplayP3),
        is_2020(s@) ==> (r matches Ok(p) && p == Primaries::Bt2020),
{
    lemma_words();
    let n = squeezed(encode_utf8(s@));
    lemma_word_bytes(seq!['s', 'r', 'g', 'b']);
    lemma_word_bytes(seq!['b', 't', '7', '0', '9']);
    lemma_word_bytes(seq!['r', 'e', 'c', '7', '0', '9']);
    lemma_word_bytes(seq!['7', '0', '9']);
    lemma_word_bytes(seq!['p', '3']);
    lemma_word_bytes(seq!['d', 'i', 's', 'p', 'l', 'a', 'y', 'p', '3']);
    lemma_word_bytes(seq!['d', 'c', 'i', 'p', '3']);
    lemma_word_bytes(seq!['r', 'e', 'c', '2', '0', '2', '0']);
    lemma_word_bytes(seq!['b', 't', '2', '0', '2', '0']);
    lemma_word_bytes(seq!['2', '0', '2', '0']);
    assert(encode_utf8("srgb"@)[0] == 0x73);
    assert(encode_utf8("bt709"@)[0] == 0x62);
    assert(encode_utf8("rec709"@)[0] == 0x72);
    assert(encode_utf8("dcip3"@)[0] == 0x64);
    assert(encode_utf8("rec2020"@)[0] == 0x72);
    assert(encode_utf8("bt2020"@)[0] == 0x62);
    assert(encode_utf8("2020"@)[0] == 0x32);
    if is_written(s@, seq!['s', 'r', 'g', 'b']) {
        lemma_written(s@, seq!['s', 'r', 'g', 'b']);
        assert(n == encode_utf8("srgb"@));
        assert(named(n) == Some(Primaries::Bt709));
    }
    if is_written(s@, seq!['b', 't', '7', '0', '9']) {
        lemma_written(s@, seq!['b', 't', '7', '0', '9']);
        assert(n == encode_utf8("bt709"@));
        assert(named(n) == Some(Primaries::Bt709));
    }
    if is_written(s@, seq!['r', 'e', 'c', '7', '0', '9']) {
        lemma_written(s@, seq!['r', 'e', 'c', '7', '0', '9']);
        assert(n == encode_utf8("rec709"@));
        assert(named(n) == Some(Primaries::Bt709));
    }
    if is_written(s@, seq!['7', '0', '9']) {
        lemma_written(s@, seq!['7', '0', '9']);
        assert(n == encode_utf8("709"@));
        assert(named(n) == Some(Primaries::Bt709));
    }
    if is_written(s@, seq!['p', '3']) {
        lemma_written(s@, seq!['p', '3']);
        assert(n == encode_utf8("p3"@));
        assert(named(n) == Some(Primaries::DisplayP3));
    }
    if is_written(s@, seq!['d', 'i', 's', 'p', 'l', 'a', 'y', 'p', '3']) {
        lemma_written(s@, seq!['d', 'i', 's', 'p', 'l', 'a', 'y', 'p', '3']);
        assert(n == encode_utf8("displayp3"@));
        assert(named(n) == Some(Primaries::DisplayP3));
    }
    if is_written(s@, seq!['d', 'c', 'i', 'p', '3']) {
        lemma_written(s@, seq!['d', 'c', 'i', 'p', '3']);
        assert(n == encode_utf8("dcip3"@));
        assert(named(n) == Some(Primaries::DisplayP3));
    }
    if is_written(s@, seq!['r', 'e', 'c', '2', '0', '2', '0']) {
        lemma_written(s@, seq!['r', 'e', 'c', '2', '0', '2', '0']);
        assert(n == encode_utf8("rec2020"@));
        assert(named(n) == Some(Primaries::Bt2020));
    }
    if is_written(s@, seq!['b', 't', '2', '0', '2', '0']) {
        lemma_written(s@, seq!['b', 't', '2', '0', '2', '0']);
        assert(n == encode_utf8("bt2020"@));
        assert(named(n) == Some(Primaries::Bt2020));
    }
    if is_written(s@, seq!['2', '0', '2', '0']) {
        lemma_written(s@, seq!['2', '0', '2', '0']);
        assert(n == encode_utf8("2020"@));
        assert(named(n) == Some(Primaries::Bt2020));
    }
}

proof fn lemma_squeezed_join(a: Seq<u8>, b: Seq<u8>)
    ensures
        squeezed(a + b) == squeezed(a) + squeezed(b),
    decreases b.len(),
{
    if b.len() > 0 {
        lemma_squeezed_join(a, b.drop_last());
        assert((a + b).drop_last() =~= a + b.drop_last());
        assert((a + b).last() == b.last());
        assert(squeezed(a + b) =~= squeezed(a) + squeezed(b));
    } else {
        assert(a + b =~= a);
        assert(squeezed(a) + squeezed(b) =~= squeezed(a));
    }
}

/// What people put between the parts of a name does not matter: a hyphen, an underscore, a space
/// or a full stop, wherever it stands.
pub proof fn a_separator_does_not_matter(
    with: &str,
    without: &str,
    a: Seq<char>,
    sep: char,
    b: Seq<char>,
    r: Result<Primaries, UnknownColourSpace>,
    q: Result<Primaries, UnknownColourSpace>,
)
    requires
        call_ensures(Primaries::parse, (with,), r),
        call_ensures(Primaries::parse, (without,), q),
        with@ == a + seq![sep] + b,
        without@ == a + b,
        sep == '-' || sep == '_' || sep == ' ' || sep == '.',
        is_ascii_chars(a),
        is_ascii_chars(b),
    ensures
        r matches Ok(p) ==> q == Ok::<Primaries, UnknownColourSpace>(p),
        r is Err ==> q is Err,
{
    let mid = seq![sep];
    assert(mid[0] == sep);
    assert(is_ascii_chars(mid));
    assert(is_ascii_chars(with@));
    assert(is_ascii_chars(without@));
    is_ascii_chars_encode_utf8(a);
    is_ascii_chars_encode_utf8(b);
    is_ascii_chars_encode_utf8(mid);
    is_ascii_chars_encode_utf8(with@);
    is_ascii_chars_encode_utf8(without@);
    let (x, y, z) = (encode_utf8(a), encode_utf8(b), encode_utf8(mid));
    assert(encode_utf8(without@) =~= x + y) by {
        assert forall|i: int| 0 <= i < without@.len() implies #[trigger] encode_utf8(without@)[i]
            == (x + y)[i] by {
            assert(encode_utf8(without@)[i] == without@[i] as u8);
            if i < a.len() {
                assert(x[i] == a[i] as u8);
            } else {
                assert(y[i - a.len()] == b[i - a.len()] as u8);
            }
        }
    }
    assert(encode_utf8(with@) =~= x + z + y) by {
        assert forall|i: int| 0 <= i < with@.len() implies #[trigger] encode_utf8(with@)[i] == (x
            + z + y)[i] by {
            assert(encode_utf8(with@)[i] == with@[i] as u8);
            if i < a.len() {
                assert(x[i] == a[i] as u8);
            } else if i == a.len() {
                assert(z[0] == mid[0] as u8);
            } else {
                assert(y[i - a.len() - 1] == b[i - a.len() - 1] as u8);
            }
        }
    }
    assert(z.len() == 1 && z[0] == sep as u8) by {
        assert(z[0] == mid[0] as u8);
    }
    assert(z.drop_last() =~= seq![]);
    assert(is_separator(z.last()));
    assert(squeezed(z) =~= seq![]) by {
        reveal_with_fuel(squeezed, 2);
    }
    lemma_squeezed_join(x, y);
    lemma_squeezed_join(x, z);
    lemma_squeezed_join(x + z, y);
    assert(squeezed(x) + squeezed(z) =~= squeezed(x));
}

} // verus!
