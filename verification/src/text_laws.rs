//! What holds of the operations on text and of numbers in text.

use crate::number;
use crate::text;
use vstd::prelude::*;

verus! {

/// `n` times the character `c`.
pub open spec fn repeated(c: char, n: nat) -> Seq<char> {
    Seq::new(n, |i: int| c)
}

/// Only leading characters `c` are dropped, and all of them: the text is some of them followed by
/// what is left, which does not begin with `c`.
pub proof fn lemma_trim_leading(s: Seq<char>, c: char) -> (n: nat)
    ensures
        s == repeated(c, n) + text::trim_leading(s, c),
        text::trim_leading(s, c).len() > 0 ==> text::trim_leading(s, c)[0] != c,
    decreases s.len(),
{
    if s.len() > 0 && s[0] == c {
        let m = lemma_trim_leading(s.skip(1), c);
        let n = (m + 1) as nat;
        let rest = text::trim_leading(s.skip(1), c);
        assert(s =~= repeated(c, n) + rest) by {
            assert forall|i: int| 0 <= i < s.len() implies s[i] == (repeated(c, n) + rest)[i] by {
                if i > 0 {
                    assert(s[i] == s.skip(1)[i - 1]);
                    assert(s.skip(1)[i - 1] == (repeated(c, m) + rest)[i - 1]);
                }
            }
        }
        n
    } else {
        assert(s =~= repeated(c, 0) + s);
        0
    }
}

/// Dropping leading characters from `n` of them and a text that does not begin with them gives that
/// text.
pub proof fn lemma_trim_leading_of(s: Seq<char>, c: char, n: nat)
    requires
        s.len() == 0 || s[0] != c,
    ensures
        text::trim_leading(repeated(c, n) + s, c) == s,
    decreases n,
{
    let all = repeated(c, n) + s;
    if n == 0 {
        assert(all =~= s);
    } else {
        lemma_trim_leading_of(s, c, (n - 1) as nat);
        assert(all.skip(1) =~= repeated(c, (n - 1) as nat) + s);
        assert(all[0] == c);
    }
}

/// A text is cut exactly where it holds the separator, into two parts that it joins again, the
/// first of which does not hold it.
pub proof fn lemma_cut_first_parts(s: Seq<char>, c: char)
    ensures
        text::cut_first(s, c) is Some <==> s.contains(c),
        text::cut_first(s, c) matches Some((a, b)) ==> s == a + seq![c] + b && !a.contains(c),
{
    if s.contains(c) {
        s.index_of_first_ensures(c);
        let i = s.index_of_first(c)->0;
        let (a, b) = (s.take(i), s.skip(i + 1));
        assert(s =~= a + seq![c] + b);
        assert forall|j: int| 0 <= j < a.len() implies a[j] != c by {
            assert(a[j] == s[j]);
        }
    }
}

/// A text is cut exactly where it holds the separator, into two parts that it joins again, the last
/// of which does not hold it.
pub proof fn lemma_cut_last_parts(s: Seq<char>, c: char)
    ensures
        text::cut_last(s, c) is Some <==> s.contains(c),
        text::cut_last(s, c) matches Some((a, b)) ==> s == a + seq![c] + b && !b.contains(c),
{
    if s.contains(c) {
        s.index_of_last_ensures(c);
        let i = s.index_of_last(c)->0;
        let (a, b) = (s.take(i), s.skip(i + 1));
        assert(s =~= a + seq![c] + b);
        assert forall|j: int| 0 <= j < b.len() implies b[j] != c by {
            assert(b[j] == s[i + 1 + j]);
        }
    }
}

/// What stands before the first separator does not hold it, and is all of the text or is followed
/// by the separator.
pub proof fn lemma_before_first(s: Seq<char>, c: char)
    ensures
        !text::before_first(s, c).contains(c),
        s == text::before_first(s, c) || exists|rest: Seq<char>|
            s == text::before_first(s, c) + seq![c] + rest,
{
    lemma_cut_first_parts(s, c);
    if s.contains(c) {
        let (a, b) = text::cut_first(s, c)->0;
        assert(s == text::before_first(s, c) + seq![c] + b);
    }
}

/// A text without separators is its only piece.
pub proof fn lemma_one_piece(s: Seq<char>, seps: Seq<char>)
    requires
        forall|i: int| 0 <= i < s.len() ==> !seps.contains(#[trigger] s[i]),
    ensures
        text::pieces(s, seps) == seq![s],
    decreases s.len(),
{
    if s.len() > 0 {
        let init = s.drop_last();
        assert forall|i: int| 0 <= i < init.len() implies !seps.contains(#[trigger] init[i]) by {
            assert(init[i] == s[i]);
        }
        lemma_one_piece(init, seps);
        assert(s[s.len() - 1] == s.last());
        assert(init.push(s.last()) =~= s);
        assert(text::pieces(s, seps) =~= seq![s]);
    } else {
        assert(s =~= Seq::empty());
    }
}

/// The pieces of two texts joined by a separator are the pieces of the first and then those of the
/// second.
pub proof fn lemma_pieces_join(a: Seq<char>, sep: char, b: Seq<char>, seps: Seq<char>)
    requires
        seps.contains(sep),
    ensures
        text::pieces(a + seq![sep] + b, seps) == text::pieces(a, seps) + text::pieces(b, seps),
    decreases b.len(),
{
    let all = a + seq![sep] + b;
    if b.len() == 0 {
        assert(all.drop_last() =~= a);
        assert(all.last() == sep);
        assert(b =~= Seq::empty());
        assert(text::pieces(all, seps) =~= text::pieces(a, seps) + text::pieces(b, seps));
    } else {
        let init = b.drop_last();
        lemma_pieces_join(a, sep, init, seps);
        text::lemma_pieces_nonempty(init, seps);
        assert(all.drop_last() =~= a + seq![sep] + init);
        assert(all.last() == b.last());
        let before = text::pieces(a, seps) + text::pieces(init, seps);
        assert(before.last() == text::pieces(init, seps).last());
        assert(text::pieces(all, seps) =~= text::pieces(a, seps) + text::pieces(b, seps));
    }
}

/// Only white space.
pub open spec fn blank(s: Seq<char>) -> bool {
    forall|i: int| 0 <= i < s.len() ==> text::is_white_space(#[trigger] s[i])
}

/// The white space characters, by their code points: those from the tab to the carriage return, the
/// space, the next line and the no-break space; the Ogham space mark, the spaces of the general
/// punctuation with its line and paragraph separators, and the ideographic space.
pub proof fn lemma_white_space(c: char)
    ensures
        text::is_white_space(c) <==> {
            let code = c as int;
            ||| 9 <= code <= 13
            ||| code == 32
            ||| code == 133
            ||| code == 160
            ||| code == 5760
            ||| 8192 <= code <= 8202
            ||| 8232 <= code <= 8233
            ||| code == 8239
            ||| code == 8287
            ||| code == 12288
        },
{
}

/// Trimming drops white space at both ends and nothing else: a text is white space, the trimmed
/// text and white space, and the trimmed text neither begins nor ends with white space.
pub proof fn lemma_trimmed(s: Seq<char>) -> (r: (Seq<char>, Seq<char>))
    ensures
        s == r.0 + text::trimmed(s) + r.1,
        blank(r.0),
        blank(r.1),
        text::trimmed(s).len() > 0 ==> !text::is_white_space(text::trimmed(s)[0])
            && !text::is_white_space(text::trimmed(s).last()),
{
    let left = lemma_trimmed_start(s);
    let middle = text::trimmed_start(s);
    let right = lemma_trimmed_end(middle);
    assert(s =~= left + text::trimmed(s) + right);
    if text::trimmed(s).len() > 0 {
        assert(middle[0] == text::trimmed(s)[0]);
    }
    (left, right)
}

proof fn lemma_trimmed_start(s: Seq<char>) -> (left: Seq<char>)
    ensures
        s == left + text::trimmed_start(s),
        blank(left),
        text::trimmed_start(s).len() > 0 ==> !text::is_white_space(text::trimmed_start(s)[0]),
    decreases s.len(),
{
    if s.len() > 0 && text::is_white_space(s[0]) {
        let rest = lemma_trimmed_start(s.skip(1));
        let left = seq![s[0]] + rest;
        assert(s =~= seq![s[0]] + s.skip(1));
        assert(s =~= left + text::trimmed_start(s));
        assert forall|i: int| 0 <= i < left.len() implies text::is_white_space(
            #[trigger] left[i],
        ) by {
            if i > 0 {
                assert(left[i] == rest[i - 1]);
            }
        }
        left
    } else {
        assert(s =~= Seq::<char>::empty() + s);
        Seq::empty()
    }
}

proof fn lemma_trimmed_end(s: Seq<char>) -> (right: Seq<char>)
    ensures
        s == text::trimmed_end(s) + right,
        blank(right),
        text::trimmed_end(s).len() > 0 ==> !text::is_white_space(text::trimmed_end(s).last()),
    decreases s.len(),
{
    if s.len() > 0 && text::is_white_space(s.last()) {
        let rest = lemma_trimmed_end(s.drop_last());
        let right = rest.push(s.last());
        assert(s =~= s.drop_last().push(s.last()));
        assert(s =~= text::trimmed_end(s) + right);
        assert forall|i: int| 0 <= i < right.len() implies text::is_white_space(
            #[trigger] right[i],
        ) by {
            if i < rest.len() {
                assert(right[i] == rest[i]);
            }
        }
        right
    } else {
        assert(s =~= s + Seq::<char>::empty());
        Seq::empty()
    }
}

/// White space around a text that has none at its ends, or that is empty, is trimmed away.
pub proof fn lemma_trimmed_of(left: Seq<char>, s: Seq<char>, right: Seq<char>)
    requires
        blank(left),
        blank(right),
        s.len() > 0 ==> !text::is_white_space(s[0]) && !text::is_white_space(s.last()),
    ensures
        text::trimmed(left + s + right) == s,
{
    let all = left + s + right;
    lemma_skip_blank(left, s + right);
    assert(left + (s + right) =~= all);
    if s.len() == 0 {
        assert(s + right =~= right);
        lemma_skip_blank(right, Seq::empty());
        assert(right + Seq::<char>::empty() =~= right);
        assert(text::trimmed(all) =~= s);
    } else {
        assert((s + right)[0] == s[0]);
        assert(text::trimmed_start(s + right) == s + right);
        lemma_drop_blank(s, right);
        assert(text::trimmed_end(s) == s);
    }
}

proof fn lemma_skip_blank(left: Seq<char>, s: Seq<char>)
    requires
        blank(left),
    ensures
        text::trimmed_start(left + s) == text::trimmed_start(s),
    decreases left.len(),
{
    let all = left + s;
    if left.len() == 0 {
        assert(all =~= s);
    } else {
        let rest = left.skip(1);
        assert forall|i: int| 0 <= i < rest.len() implies text::is_white_space(
            #[trigger] rest[i],
        ) by {
            assert(rest[i] == left[i + 1]);
        }
        lemma_skip_blank(rest, s);
        assert(all.skip(1) =~= rest + s);
        assert(all[0] == left[0]);
    }
}

proof fn lemma_drop_blank(s: Seq<char>, right: Seq<char>)
    requires
        blank(right),
    ensures
        text::trimmed_end(s + right) == text::trimmed_end(s),
    decreases right.len(),
{
    let all = s + right;
    if right.len() == 0 {
        assert(all =~= s);
    } else {
        let rest = right.drop_last();
        assert forall|i: int| 0 <= i < rest.len() implies text::is_white_space(
            #[trigger] rest[i],
        ) by {
            assert(rest[i] == right[i]);
        }
        lemma_drop_blank(s, rest);
        assert(all.drop_last() =~= s + rest);
        assert(all.last() == right[right.len() - 1]);
    }
}

// ---------------------------------------------------------------------------------------------
// Numbers
// ---------------------------------------------------------------------------------------------

/// Zeros before a number do not change it, and neither does one `+` before those.
pub proof fn lemma_leading_zeros(n: u16, zeros: nat)
    ensures
        number::u16_of(repeated('0', zeros) + number::decimal_of(n as nat)) == Some(n),
        number::u16_of(seq!['+'] + (repeated('0', zeros) + number::decimal_of(n as nat))) == Some(n),
{
    let d = number::decimal_of(n as nat);
    let s = repeated('0', zeros) + d;
    number::lemma_decimal_value(n as nat);
    lemma_zeros_value(d, zeros);
    assert(number::is_digit(s[0])) by {
        if zeros == 0 {
            assert(s[0] == d[0]);
        }
    }
    let p = seq!['+'] + s;
    assert(p.skip(1) =~= s);
}

/// Zeros before digits do not change the number that they stand for.
pub proof fn lemma_zeros_value(d: Seq<char>, zeros: nat)
    requires
        number::all_digits(d),
    ensures
        number::all_digits(repeated('0', zeros) + d),
        number::digits_value(repeated('0', zeros) + d) == number::digits_value(d),
    decreases d.len(), zeros,
{
    let s = repeated('0', zeros) + d;
    assert forall|i: int| 0 <= i < s.len() implies number::is_digit(#[trigger] s[i]) by {
        if i >= zeros {
            assert(s[i] == d[i - zeros]);
        }
    }
    if d.len() > 0 {
        assert(s.drop_last() =~= repeated('0', zeros) + d.drop_last());
        assert(number::all_digits(d.drop_last()));
        lemma_zeros_value(d.drop_last(), zeros);
        assert(s.last() == d.last());
    } else if zeros > 0 {
        assert(s.drop_last() =~= repeated('0', (zeros - 1) as nat) + d);
        lemma_zeros_value(d, (zeros - 1) as nat);
        assert(s.last() == '0');
    } else {
        assert(s =~= d);
    }
}

/// A number is read from digits only, after one `+` at most, and is the number that they stand for:
/// what is read can be written again, up to the `+` and leading zeros.
pub proof fn lemma_number_read(s: Seq<char>, n: u16) -> (zeros: nat)
    requires
        number::u16_of(s) == Some(n),
    ensures
        ({
            let digits = if s[0] == '+' {
                s.skip(1)
            } else {
                s
            };
            &&& s.len() > 0
            &&& digits.len() > 0
            &&& forall|i: int| 0 <= i < digits.len() ==> '0' <= #[trigger] digits[i] <= '9'
            &&& digits == repeated('0', zeros) + number::decimal_of(n as nat) || (n == 0 && digits
                == repeated('0', zeros))
        }),
{
    let digits = number::without_plus(s);
    let zeros = lemma_digits_are(digits);
    assert forall|i: int| 0 <= i < digits.len() implies '0' <= #[trigger] digits[i] <= '9' by {
        assert(number::is_digit(digits[i]));
    }
    zeros
}

/// Digits are zeros and the number that they stand for, as it is written.
proof fn lemma_digits_are(s: Seq<char>) -> (zeros: nat)
    requires
        number::all_digits(s),
    ensures
        s == repeated('0', zeros) + number::decimal_of(number::digits_value(s)) || (
        number::digits_value(s) == 0 && s == repeated('0', zeros)),
    decreases s.len(),
{
    if s.len() == 0 {
        assert(s =~= repeated('0', 0));
        0
    } else {
        let init = s.drop_last();
        assert(number::all_digits(init)) by {
            assert forall|i: int| 0 <= i < init.len() implies number::is_digit(
                #[trigger] init[i],
            ) by {
                assert(init[i] == s[i]);
            }
        }
        let z = lemma_digits_are(init);
        let v = number::digits_value(init);
        let n = number::digits_value(s);
        assert(number::is_digit(s[s.len() - 1]));
        let d = (s.last() as int - '0' as int) as nat;
        assert(n == 10 * v + d);
        assert(number::digit_char(d) == s.last());
        if v == 0 {
            assert(number::decimal_of(0) == seq!['0']);
            let k: nat = init.len();
            assert(init =~= repeated('0', k)) by {
                if init != repeated('0', z) {
                    assert(init =~= repeated('0', z) + seq!['0']);
                }
            }
            assert(number::decimal_of(n) == seq![s.last()]);
            assert(s =~= repeated('0', k) + number::decimal_of(n));
            k
        } else {
            assert(n / 10 == v && n % 10 == d);
            assert(number::decimal_of(n) == number::decimal_of(v).push(s.last()));
            assert(init == repeated('0', z) + number::decimal_of(v));
            assert(s =~= init.push(s.last()));
            assert(s =~= repeated('0', z) + number::decimal_of(n));
            z
        }
    }
}

/// Nothing else is read: digits whose number does not fit are refused.
pub proof fn lemma_number_refused(n: nat, zeros: nat)
    requires
        n > u16::MAX,
    ensures
        number::u16_of(repeated('0', zeros) + number::decimal_of(n)) is None,
{
    number::lemma_decimal_value(n);
    let d = number::decimal_of(n);
    lemma_zeros_value(d, zeros);
    let s = repeated('0', zeros) + d;
    assert(number::is_digit(s[0]));
}

/// A number is written digit by digit: one below ten as its digit, and ten times a number and a
/// digit as that number followed by the digit.
pub proof fn lemma_decimal_digits(n: nat, d: nat)
    requires
        d < 10,
    ensures
        number::decimal_of(d).len() == 1,
        number::decimal_of(d)[0] as int == 48 + d,
        n > 0 ==> number::decimal_of(10 * n + d) == number::decimal_of(n) + number::decimal_of(d),
{
    if n > 0 {
        let m: nat = 10 * n + d;
        assert(m / 10 == n && m % 10 == d);
        assert(number::decimal_of(m) =~= number::decimal_of(n) + number::decimal_of(d));
    }
}

/// No written number begins with a zero, but for zero itself.
pub proof fn lemma_no_leading_zero(n: nat)
    requires
        n > 0,
    ensures
        number::decimal_of(n).len() > 0,
        number::decimal_of(n)[0] != '0',
    decreases n,
{
    if n >= 10 {
        lemma_no_leading_zero(n / 10);
    }
}

} // verus!
