//! What holds of texts that are trimmed, split, joined, compared and read as numbers.
use vstd::prelude::*;

use crate::json::{pair_of, points_of, Coordinates};
use crate::text::{
    ascii_lowered, begins_with, digits, digits_value, first_place, has_part, is_white_space, joined,
    parsed_i64, pieces, signed_digits, text_le, trimmed, trimmed_end, trimmed_start,
};

verus! {

/// Of ASCII characters, blank, tab and the line ends are white space, and no others.
pub proof fn law_white_space(c: char)
    requires
        c as int <= 127,
    ensures
        is_white_space(c) <==> c == ' ' || 9 <= c as int <= 13,
{
}

/// `s` is white space throughout.
pub open spec fn blank(s: Seq<char>) -> bool {
    forall|i: int| 0 <= i < s.len() ==> is_white_space(#[trigger] s[i])
}

proof fn lemma_trimmed_start(s: Seq<char>)
    ensures
        exists|i: int|
            0 <= i <= s.len() && trimmed_start(s) == #[trigger] s.skip(i) && blank(s.take(i)),
        trimmed_start(s).len() > 0 ==> !is_white_space(trimmed_start(s)[0]),
    decreases s.len(),
{
    if s.len() > 0 && is_white_space(s[0]) {
        let rest = s.skip(1);
        lemma_trimmed_start(rest);
        let i = choose|i: int|
            0 <= i <= rest.len() && trimmed_start(rest) == #[trigger] rest.skip(i) && blank(
                rest.take(i),
            );
        assert(rest.skip(i) =~= s.skip(i + 1));
        assert forall|j: int| 0 <= j < i + 1 implies is_white_space(
            #[trigger] s.take(i + 1)[j],
        ) by {
            if j > 0 {
                assert(rest.take(i)[j - 1] == s[j]);
            }
        }
    } else {
        assert(s.skip(0) =~= s);
        assert(blank(s.take(0)));
    }
}

proof fn lemma_trimmed_end(s: Seq<char>)
    ensures
        exists|i: int|
            0 <= i <= s.len() && trimmed_end(s) == #[trigger] s.take(i) && blank(s.skip(i)),
        trimmed_end(s).len() > 0 ==> !is_white_space(trimmed_end(s).last()),
    decreases s.len(),
{
    if s.len() > 0 && is_white_space(s.last()) {
        let rest = s.drop_last();
        lemma_trimmed_end(rest);
        let i = choose|i: int|
            0 <= i <= rest.len() && trimmed_end(rest) == #[trigger] rest.take(i) && blank(
                rest.skip(i),
            );
        assert(rest.take(i) =~= s.take(i));
        assert forall|j: int| 0 <= j < s.skip(i).len() implies is_white_space(
            #[trigger] s.skip(i)[j],
        ) by {
            if j < s.len() - 1 - i {
                assert(rest.skip(i)[j] == s.skip(i)[j]);
            }
        }
    } else {
        assert(s.take(s.len() as int) =~= s);
        assert(blank(s.skip(s.len() as int)));
    }
}

/// Trimming takes white space from both ends, all of it and nothing else.
pub proof fn law_trimming_takes_the_white_space(s: Seq<char>)
    ensures
        exists|i: int, j: int|
            0 <= i <= j <= s.len() && trimmed(s) == #[trigger] s.subrange(i, j) && blank(s.take(i))
                && blank(s.skip(j)),
        trimmed(s).len() > 0 ==> !is_white_space(trimmed(s)[0]) && !is_white_space(
            trimmed(s).last(),
        ),
{
    let mid = trimmed_start(s);
    lemma_trimmed_start(s);
    lemma_trimmed_end(mid);
    let i = choose|i: int|
        0 <= i <= s.len() && mid == #[trigger] s.skip(i) && blank(s.take(i));
    let k = choose|k: int|
        0 <= k <= mid.len() && trimmed_end(mid) == #[trigger] mid.take(k) && blank(mid.skip(k));
    assert(mid.take(k) =~= s.subrange(i, i + k));
    assert(mid.skip(k) =~= s.skip(i + k));
    if k > 0 {
        assert(mid.take(k)[0] == mid[0]);
    }
}

pub proof fn lemma_first_place_found(s: Seq<char>, c: char)
    ensures
        0 <= first_place(s, c) <= s.len(),
        forall|j: int| 0 <= j < first_place(s, c) ==> #[trigger] s[j] != c,
        first_place(s, c) < s.len() ==> s[first_place(s, c)] == c,
    decreases s.len(),
{
    if s.len() > 0 && s[0] != c {
        lemma_first_place_found(s.skip(1), c);
        assert forall|j: int| 0 <= j < first_place(s, c) implies #[trigger] s[j] != c by {
            if j > 0 {
                assert(s.skip(1)[j - 1] == s[j]);
            }
        }
    }
}

/// A list joined with one more text before it.
proof fn lemma_joined_front(first: Seq<char>, rest: Seq<Seq<char>>, separator: Seq<char>)
    requires
        rest.len() > 0,
    ensures
        joined(seq![first] + rest, separator) == first + separator + joined(rest, separator),
    decreases rest.len(),
{
    reveal_with_fuel(joined, 2);
    let all = seq![first] + rest;
    assert(all.drop_last() =~= seq![first] + rest.drop_last());
    if rest.len() == 1 {
        assert(all.drop_last() =~= seq![first]);
        assert(all.last() == rest[0]);
    } else {
        lemma_joined_front(first, rest.drop_last(), separator);
        assert(joined(all, separator) =~= first + separator + joined(rest, separator));
    }
}

/// A text that was split gives itself back when its pieces are joined, and no piece holds the
/// separator.
pub proof fn law_splitting_and_joining(s: Seq<char>, c: char)
    ensures
        joined(pieces(s, c), seq![c]) == s,
        pieces(s, c).len() >= 1,
        forall|i: int|
            0 <= i < pieces(s, c).len() ==> !(#[trigger] pieces(s, c)[i]).contains(c),
    decreases s.len(),
{
    let i = first_place(s, c);
    lemma_first_place_found(s, c);
    if i < s.len() {
        let rest = pieces(s.skip(i + 1), c);
        law_splitting_and_joining(s.skip(i + 1), c);
        lemma_joined_front(s.take(i), rest, seq![c]);
        assert(s.take(i) + seq![c] + s.skip(i + 1) =~= s);
        assert forall|k: int| 0 <= k < pieces(s, c).len() implies !(#[trigger] pieces(
            s,
            c,
        )[k]).contains(c) by {
            if k > 0 {
                assert(pieces(s, c)[k] == rest[k - 1]);
            } else {
                assert(pieces(s, c)[0] == s.take(i));
                if s.take(i).contains(c) {
                    let j = s.take(i).index_of(c);
                    assert(s[j] == c);
                }
            }
        }
    } else {
        assert(pieces(s, c) =~= seq![s]);
        if s.contains(c) {
            let j = s.index_of(c);
            assert(s[j] != c);
        }
    }
}

/// What is joined is the texts in order, with the separator between each two.
pub proof fn law_joining_goes_on(list: Seq<Seq<char>>, next: Seq<char>, separator: Seq<char>)
    ensures
        joined(Seq::empty(), separator) == Seq::<char>::empty(),
        joined(seq![next], separator) == next,
        list.len() > 0 ==> joined(list.push(next), separator) == joined(list, separator)
            + separator + next,
{
    assert(list.push(next).drop_last() =~= list);
}

/// Where two texts first differ, the one with the smaller character comes first; a text comes
/// before any that goes on from it.
pub proof fn law_what_comes_first(a: Seq<char>, b: Seq<char>, k: int)
    requires
        0 <= k <= a.len(),
        k <= b.len(),
        a.take(k) == b.take(k),
    ensures
        k < a.len() && k < b.len() && (a[k] as int) < (b[k] as int) ==> text_le(a, b) && !text_le(
            b,
            a,
        ),
        k == a.len() ==> text_le(a, b),
        k == a.len() && k < b.len() ==> !text_le(b, a),
    decreases k,
{
    if k > 0 {
        assert(a[0] == a.take(k)[0] && b[0] == b.take(k)[0]);
        assert(a.skip(1).take(k - 1) =~= a.take(k).skip(1));
        assert(b.skip(1).take(k - 1) =~= b.take(k).skip(1));
        law_what_comes_first(a.skip(1), b.skip(1), k - 1);
    }
}

/// A number is read as it is written in decimal.
pub proof fn law_numbers_are_read_as_written(n: i64)
    ensures
        parsed_i64(signed_digits(n as int)) == Some(n),
{
    if n < 0 {
        let s = seq!['-'] + digits((-n) as nat);
        lemma_digits_read((-n) as nat);
        assert(s.skip(1) =~= digits((-n) as nat));
    } else {
        lemma_digits_read(n as nat);
    }
}

/// The digits of a number are read as the number, and begin with no sign.
pub proof fn lemma_digits_read(n: nat)
    ensures
        digits_value(digits(n)) == Some(n),
        digits(n).len() > 0,
        digits(n)[0] != '-' && digits(n)[0] != '+',
    decreases n,
{
    reveal_with_fuel(digits_value, 2);
    if n < 10 {
        assert(seq![crate::text::digit(n)].drop_last() =~= Seq::empty());
        assert(digits(n).last() == crate::text::digit(n));
    } else {
        lemma_digits_read(n / 10);
        let front = digits(n / 10);
        assert(digits(n).drop_last() =~= front);
        assert(digits(n)[0] == front[0]);
    }
}

/// A number is written with a digit for every place: none but the last is lost by dropping
/// the last, and no number but zero begins with a zero.
pub proof fn law_how_numbers_are_written(n: nat, d: nat)
    requires
        n > 0,
        d < 10,
    ensures
        digits(10 * n + d) == digits(n).push((48 + d) as char),
        digits(d) == seq![(48 + d) as char],
        digits(n)[0] != '0',
{
    assert((10 * n + d) / 10 == n && (10 * n + d) % 10 == d);
    lemma_no_leading_zero(n);
}

proof fn lemma_no_leading_zero(n: nat)
    requires
        n > 0,
    ensures
        digits(n).len() > 0,
        digits(n)[0] != '0',
    decreases n,
{
    if n >= 10 {
        lemma_no_leading_zero(n / 10);
    }
}

/// A text is a number exactly if it is one digit or more, perhaps after one sign, and its value
/// fits; one more digit counts ten times what is before it.
pub proof fn law_what_is_a_number(s: Seq<char>, c: char)
    ensures
        parsed_i64(Seq::empty()) is None,
        parsed_i64(seq!['-']) is None,
        parsed_i64(seq!['+']) is None,
        !('0' <= c <= '9') && s.len() > 0 ==> parsed_i64(s.push(c)) is None,
        '0' <= c <= '9' && parsed_i64(s) is Some && parsed_i64(s)->0 >= 0 && s[0] != '-' && 10
            * parsed_i64(s)->0 + (c as int - 48) <= i64::MAX ==> parsed_i64(s.push(c)) == Some(
            (10 * parsed_i64(s)->0 + (c as int - 48)) as i64,
        ),
        s.len() > 0 && s[0] != '-' && s[0] != '+' ==> parsed_i64(seq!['+'] + s) == parsed_i64(s),
        s.len() > 0 && s[0] != '-' && s[0] != '+' && parsed_i64(s) is Some ==> parsed_i64(
            seq!['-'] + s,
        ) == Some((-parsed_i64(s)->0) as i64),
{
    reveal_with_fuel(digits_value, 2);
    assert(seq!['-'].skip(1) =~= Seq::empty());
    assert(seq!['+'].skip(1) =~= Seq::empty());
    if s.len() > 0 {
        let t = s.push(c);
        let signed = s[0] == '-' || s[0] == '+';
        let body = if signed {
            s.skip(1)
        } else {
            s
        };
        let longer = if signed {
            t.skip(1)
        } else {
            t
        };
        assert(longer =~= body.push(c));
        assert(longer.drop_last() =~= body);
        assert((seq!['+'] + s).skip(1) =~= s);
        assert((seq!['-'] + s).skip(1) =~= s);
    }
}

/// Where a part stands in a text.
pub proof fn law_parts_of_texts(s: Seq<char>, a: Seq<char>, part: Seq<char>, b: Seq<char>)
    ensures
        s == a + part + b ==> has_part(s, part),
        s == part + b ==> begins_with(s, part),
        begins_with(s, part) ==> s == part + s.skip(part.len() as int),
        has_part(s, part) ==> exists|i: int|
            0 <= i <= s.len() - part.len() && s == s.take(i) + part + #[trigger] s.skip(
                i + part.len(),
            ),
{
    if s == a + part + b {
        assert(s.subrange(a.len() as int, (a.len() + part.len()) as int) =~= part);
    }
    if s == part + b {
        assert(s.take(part.len() as int) =~= part);
    }
    if begins_with(s, part) {
        assert(s =~= s.take(part.len() as int) + s.skip(part.len() as int));
    }
    if has_part(s, part) {
        let i = choose|i: int|
            0 <= i <= s.len() - part.len() && #[trigger] s.subrange(i, i + part.len()) == part;
        assert(s =~= s.take(i) + s.subrange(i, i + part.len()) + s.skip(i + part.len()));
    }
}

/// ASCII capitals become the small letters, and everything else stays.
pub proof fn law_small_letters(s: Seq<char>, i: int)
    requires
        0 <= i < s.len(),
    ensures
        ascii_lowered(s).len() == s.len(),
        'A' <= s[i] <= 'Z' ==> ascii_lowered(s)[i] as int == s[i] as int + 32,
        !('A' <= s[i] <= 'Z') ==> ascii_lowered(s)[i] == s[i],
{
}

/// A list that begins with two numbers is a point: the first is its longitude, the second its
/// latitude. Nothing else is one.
pub proof fn law_pairs_are_points(value: Coordinates)
    ensures
        pair_of(value) is Some <==> (value matches Coordinates::List(items) && items@.len() >= 2
            && items@[0] is Number && items@[1] is Number),
        pair_of(value) is Some ==> pair_of(value)->0.lon == value->List_0@[0]->Number_0
            && pair_of(value)->0.lat == value->List_0@[1]->Number_0,
        pair_of(value) is Some ==> points_of(value) == seq![pair_of(value)->0],
        value is Number || value is Other ==> points_of(value).len() == 0,
{
}

/// What stands before the first of a mark is determined by the whole.
pub proof fn lemma_before_a_mark(a: Seq<char>, x: Seq<char>, b: Seq<char>, y: Seq<char>, mark: char)
    requires
        !a.contains(mark),
        !b.contains(mark),
        a + seq![mark] + x == b + seq![mark] + y,
    ensures
        a == b,
        x == y,
{
    let s = a + seq![mark] + x;
    let t = b + seq![mark] + y;
    assert(s[a.len() as int] == mark);
    assert(t[b.len() as int] == mark);
    if a.len() < b.len() {
        assert(t[a.len() as int] == b[a.len() as int]);
        assert(false);
    }
    if b.len() < a.len() {
        assert(s[b.len() as int] == a[b.len() as int]);
        assert(false);
    }
    assert(a =~= s.take(a.len() as int));
    assert(b =~= t.take(b.len() as int));
    assert(x =~= s.skip(a.len() as int + 1));
    assert(y =~= t.skip(b.len() as int + 1));
}

/// A number in decimal is made of digits, after a minus sign where it is negative.
pub proof fn lemma_only_digits(n: int, mark: char)
    requires
        !('0' <= mark <= '9'),
        mark != '-',
    ensures
        !signed_digits(n).contains(mark),
{
    let tail = if n < 0 {
        digits((-n) as nat)
    } else {
        digits(n as nat)
    };
    lemma_no_mark(
        if n < 0 {
            (-n) as nat
        } else {
            n as nat
        },
        mark,
    );
    if signed_digits(n).contains(mark) {
        let i = signed_digits(n).index_of(mark);
        if n < 0 && i > 0 {
            assert(tail[i - 1] == mark);
        }
    }
}

proof fn lemma_no_mark(n: nat, mark: char)
    requires
        !('0' <= mark <= '9'),
    ensures
        !digits(n).contains(mark),
    decreases n,
{
    if n >= 10 {
        lemma_no_mark(n / 10, mark);
        let front = digits(n / 10);
        if digits(n).contains(mark) {
            let i = digits(n).index_of(mark);
            if i < front.len() {
                assert(front[i] == mark);
            }
        }
    }
}

/// What stands after the last of a mark is determined by the whole.
pub proof fn lemma_after_a_mark(a: Seq<char>, x: Seq<char>, b: Seq<char>, y: Seq<char>, mark: char)
    requires
        !x.contains(mark),
        !y.contains(mark),
        a + seq![mark] + x == b + seq![mark] + y,
    ensures
        a == b,
        x == y,
{
    let s = a + seq![mark] + x;
    let t = b + seq![mark] + y;
    assert(s[a.len() as int] == mark);
    assert(t[b.len() as int] == mark);
    assert(s.len() == a.len() + 1 + x.len() && t.len() == b.len() + 1 + y.len());
    if a.len() < b.len() {
        assert(s[b.len() as int] == x[b.len() - a.len() - 1]);
        assert(false);
    }
    if b.len() < a.len() {
        assert(t[a.len() as int] == y[a.len() - b.len() - 1]);
        assert(false);
    }
    assert(a =~= s.take(a.len() as int));
    assert(b =~= t.take(b.len() as int));
    assert(x =~= s.skip(a.len() as int + 1));
    assert(y =~= t.skip(b.len() as int + 1));
}

} // verus!
