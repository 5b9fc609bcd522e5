//! What holds of strings: their order, their parts, and the numbers that they stand for.

use vstd::prelude::*;
use vstd::string::*;
use vstd::utf8::encode_utf8;

use crate::text::{begins_with, bytes_le, decimal_text, digits_value, ends_with, has_part, joined};
use crate::text::{lemma_decimal_value, lemma_last_position, lemma_text_le_antisymmetric};
use crate::text::{last_position, number_value, occurs_at, split_at_each, text_le, text_lt};
use crate::text::{trim_both, trim_end, trim_start, without_suffix};

verus! {

proof fn lemma_first_difference(p: Seq<u8>, x: u8, u: Seq<u8>, y: u8, v: Seq<u8>)
    requires
        x < y,
    ensures
        bytes_le(p + seq![x] + u, p + seq![y] + v),
        !bytes_le(p + seq![y] + v, p + seq![x] + u),
    decreases p.len(),
{
    let (a, b) = (p + seq![x] + u, p + seq![y] + v);
    if p.len() > 0 {
        assert(a.skip(1) =~= p.skip(1) + seq![x] + u);
        assert(b.skip(1) =~= p.skip(1) + seq![y] + v);
        lemma_first_difference(p.skip(1), x, u, y, v);
    }
}

proof fn lemma_beginning_first(p: Seq<u8>, u: Seq<u8>)
    ensures
        bytes_le(p, p + u),
    decreases p.len(),
{
    if p.len() > 0 {
        assert((p + u).skip(1) =~= p.skip(1) + u);
        lemma_beginning_first(p.skip(1), u);
    }
}

/// Strings are in the order of the first byte at which their encodings differ.
pub proof fn law_first_difference_decides(
    a: Seq<char>,
    b: Seq<char>,
    p: Seq<u8>,
    x: u8,
    u: Seq<u8>,
    y: u8,
    v: Seq<u8>,
)
    requires
        encode_utf8(a) == p + seq![x] + u,
        encode_utf8(b) == p + seq![y] + v,
        x < y,
    ensures
        text_lt(a, b),
        !text_le(b, a),
{
    lemma_first_difference(p, x, u, y, v);
}

/// A string comes before those whose encoding goes on where its own ends, and none of them before
/// it.
pub proof fn law_beginning_comes_first(a: Seq<char>, b: Seq<char>, u: Seq<u8>)
    requires
        encode_utf8(b) == encode_utf8(a) + u,
    ensures
        text_le(a, b),
        u.len() > 0 ==> text_lt(a, b) && !text_le(b, a),
{
    lemma_beginning_first(encode_utf8(a), u);
    if u.len() > 0 {
        assert(encode_utf8(b).len() > encode_utf8(a).len());
        if text_le(b, a) {
            lemma_text_le_antisymmetric(a, b);
        }
    }
}

/// What a string begins with, ends with or has in it is what can be put together with the rest to
/// make the string.
pub proof fn law_parts(s: Seq<char>, a: Seq<char>, part: Seq<char>, b: Seq<char>)
    ensures
        begins_with(part + b, part),
        ends_with(a + part, part),
        has_part(a + part + b, part),
        begins_with(s, part) ==> s == part + s.skip(part.len() as int),
        ends_with(s, part) ==> s == s.take(s.len() - part.len()) + part,
        has_part(s, part) ==> exists|i: int|
            0 <= i <= s.len() - part.len() && s == #[trigger] s.take(i) + part + s.skip(
                i + part.len(),
            ),
{
    assert((part + b).subrange(0, part.len() as int) =~= part);
    assert((a + part).subrange(a.len() as int, (a + part).len() as int) =~= part);
    assert(occurs_at(a + part + b, part, a.len() as int)) by {
        assert((a + part + b).subrange(a.len() as int, (a.len() + part.len()) as int) =~= part);
    }
    if begins_with(s, part) {
        assert(s.subrange(0, part.len() as int) == part);
        assert(s =~= s.subrange(0, part.len() as int) + s.skip(part.len() as int));
    }
    if ends_with(s, part) {
        let n = s.len() - part.len();
        assert(s.subrange(n, s.len() as int) == part);
        assert(s =~= s.take(n) + s.subrange(n, s.len() as int));
    }
    if has_part(s, part) {
        let i = choose|i: int| occurs_at(s, part, i);
        assert(s.subrange(i, i + part.len()) == part);
        assert(s =~= s.take(i) + s.subrange(i, i + part.len()) + s.skip(i + part.len()));
    }
}

/// Taking a suffix off gives what it was put after; a string that does not end with it stays.
pub proof fn law_without_suffix(s: Seq<char>, suffix: Seq<char>)
    ensures
        without_suffix(s + suffix, suffix) == s,
        !(exists|a: Seq<char>| s == #[trigger] (a + suffix)) ==> without_suffix(s, suffix) == s,
{
    law_parts(s, s, suffix, Seq::empty());
    assert(without_suffix(s + suffix, suffix) =~= s);
    if ends_with(s, suffix) {
        assert(s == s.take(s.len() - suffix.len()) + suffix);
    }
}

/// What trimming takes off: every `c` at either end, and nothing else.
pub proof fn law_trim(s: Seq<char>, c: char)
    ensures
        trim_both(seq![c] + s, c) == trim_both(s, c),
        trim_both(s.push(c), c) == trim_both(s, c),
        s.len() > 0 && s[0] != c && s.last() != c ==> trim_both(s, c) == s,
        s.len() == 0 ==> trim_both(s, c) == s,
    decreases s.len(),
{
    assert((seq![c] + s).skip(1) =~= s);
    lemma_trim_pushed(s, c);
}

proof fn lemma_trim_pushed(s: Seq<char>, c: char)
    ensures
        trim_both(s.push(c), c) == trim_both(s, c),
    decreases s.len(),
{
    if s.len() == 0 {
        assert(s.push(c).skip(1) =~= s);
    } else if s[0] == c {
        assert(s.push(c).skip(1) =~= s.skip(1).push(c));
        lemma_trim_pushed(s.skip(1), c);
        assert(trim_start(s.push(c), c) == trim_start(s.skip(1).push(c), c));
    } else {
        assert(s.push(c).drop_last() =~= s);
        assert(trim_start(s.push(c), c) == s.push(c));
        assert(trim_end(s.push(c), c) == trim_end(s, c));
    }
}

/// Splitting a string gives pieces without the separator that, joined by it, are the string again.
pub proof fn law_split_and_join(s: Seq<char>, c: char)
    ensures
        split_at_each(s, c).len() > 0,
        joined(split_at_each(s, c), seq![c]) == s,
        forall|i: int|
            0 <= i < split_at_each(s, c).len() ==> !(#[trigger] split_at_each(s, c)[i]).contains(c),
    decreases s.len(),
{
    let pieces = split_at_each(s, c);
    if s.len() == 0 {
        assert(joined(pieces, seq![c]) =~= s);
    } else {
        let rest = s.drop_last();
        let before = split_at_each(rest, c);
        law_split_and_join(rest, c);
        if s.last() == c {
            assert(pieces.drop_last() =~= before);
            assert(joined(pieces, seq![c]) =~= rest + seq![c] + Seq::<char>::empty());
            assert(s =~= rest + seq![c] + Seq::<char>::empty());
            assert forall|i: int| 0 <= i < pieces.len() implies !(#[trigger] pieces[i]).contains(
                c,
            ) by {
                if i < before.len() {
                    assert(pieces[i] == before[i]);
                }
            }
        } else {
            let last = before.last().push(s.last());
            assert(pieces.drop_last() =~= before.drop_last());
            assert(pieces.last() == last);
            assert forall|i: int| 0 <= i < pieces.len() implies !(#[trigger] pieces[i]).contains(
                c,
            ) by {
                if i < before.len() - 1 {
                    assert(pieces[i] == before[i]);
                } else {
                    assert(!before[before.len() - 1].contains(c));
                    assert forall|j: int| 0 <= j < last.len() implies last[j] != c by {
                        if j < before.last().len() {
                            assert(last[j] == before.last()[j]);
                        }
                    }
                }
            }
            if before.len() == 1 {
                assert(joined(pieces, seq![c]) =~= before[0].push(s.last()));
            } else {
                let head = joined(before.drop_last(), seq![c]);
                assert(joined(before, seq![c]) == head + seq![c] + before.last());
                assert(joined(pieces, seq![c]) =~= (head + seq![c] + before.last()).push(s.last()));
            }
            assert(joined(pieces, seq![c]) =~= rest.push(s.last()));
            assert(rest.push(s.last()) =~= s);
        }
    }
}

/// Joining puts the separator between each two pieces, and nowhere else.
pub proof fn law_join(pieces: Seq<Seq<char>>, piece: Seq<char>, sep: Seq<char>)
    ensures
        joined(seq![piece], sep) == piece,
        pieces.len() > 0 ==> joined(pieces.push(piece), sep) == joined(pieces, sep) + sep + piece,
        joined(Seq::<Seq<char>>::empty(), sep).len() == 0,
{
    assert(pieces.push(piece).drop_last() =~= pieces);
}

/// The last place of a character is where it stands and is not seen again.
pub proof fn law_last_place(a: Seq<char>, c: char, b: Seq<char>)
    requires
        !b.contains(c),
    ensures
        last_position(a + seq![c] + b, c) == a.len(),
        last_position(b, c) == -1,
{
    let s = a + seq![c] + b;
    lemma_last_position(s, c);
    lemma_last_position(b, c);
    assert(s[a.len() as int] == c);
    let at = last_position(s, c);
    if at > a.len() {
        assert(s[at] == b[at - a.len() - 1]);
    }
}

proof fn lemma_leading_digit(n: nat)
    requires
        n > 0,
    ensures
        decimal_text(n).len() > 0,
        decimal_text(n)[0] != '0',
    decreases n,
{
    if n >= 10 {
        lemma_leading_digit(n / 10);
        assert(decimal_text(n)[0] == decimal_text(n / 10)[0]);
    }
}

/// A number is written with digits alone and without needless zeros, and is read again; a plus
/// sign may stand before it, and nothing is read without digits or with anything else.
pub proof fn law_numbers(n: nat, s: Seq<char>, c: char)
    ensures
        number_value(decimal_text(n)) == Some(n),
        number_value(seq!['+'] + decimal_text(n)) == Some(n),
        n > 0 ==> decimal_text(n)[0] != '0',
        decimal_text(0).len() == 1,
        forall|i: int|
            0 <= i < decimal_text(n).len() ==> '0' <= #[trigger] decimal_text(n)[i] <= '9',
        number_value(Seq::empty()) is None,
        number_value(seq!['+']) is None,
        !('0' <= c <= '9') ==> number_value(decimal_text(n).push(c)) is None,
        digits_value(s) is Some && '0' <= c <= '9' ==> digits_value(s.push(c)) == Some(
            (digits_value(s)->0 * 10 + (c as u32 - '0' as u32)) as nat,
        ),
{
    lemma_decimal_value(n);
    let d = decimal_text(n);
    assert((seq!['+'] + d).skip(1) =~= d);
    if n > 0 {
        lemma_leading_digit(n);
    }
    assert(seq!['+'].skip(1) =~= Seq::<char>::empty());
    assert(d.push(c).drop_last() =~= d);
    assert(d.push(c)[0] == d[0]);
    assert(s.push(c).drop_last() =~= s);
}

}
