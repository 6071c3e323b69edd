//! What is read from texts and written into them.
use crate::calibrate_mono::joined;
use crate::cli::{cross, cross_at};
use crate::labels::{first_label, largest, seen, Entry};
use crate::ort_session::minor_of;
use crate::text::{
    all_digits, decimal, digits_value, find, is_digit, number, small, split, strip, strip_end,
    strip_start, trim, trim_end, trim_start, white,
};
use vstd::prelude::*;

verus! {

/// A number that is written down reads as itself: it has digits only, at least
/// one, and none is a leading zero.
pub proof fn law_decimal_reads_back(n: nat)
    ensures
        decimal(n).len() > 0,
        all_digits(decimal(n)),
        digits_value(decimal(n)) == n,
        n > 0 ==> decimal(n)[0] != '0',
        decimal(n).len() <= n + 1,
    decreases n,
{
    let s = decimal(n);
    if n < 10 {
        assert(s.drop_last() =~= Seq::empty());
        assert(digits_value(s.drop_last()) == 0);
        assert(s.last() == (48 + n) as char);
    } else {
        law_decimal_reads_back(n / 10);
        let rest = decimal(n / 10);
        assert(s.drop_last() =~= rest);
        assert(s.last() == (48 + n % 10) as char);
        assert forall|i: int| 0 <= i < s.len() implies is_digit(#[trigger] s[i]) by {
            if i < rest.len() {
                assert(s[i] == rest[i]);
            }
        }
        assert(s[0] == rest[0]);
    }
}

/// A number that is written down and read again is the same, if it is not too
/// large, and with or without a plus sign.
pub proof fn law_number_reads_back(n: nat, max: nat)
    ensures
        number(decimal(n), max) == if n <= max {
            Some(n)
        } else {
            None
        },
        number(seq!['+'] + decimal(n), max) == number(decimal(n), max),
{
    law_decimal_reads_back(n);
    assert(is_digit(decimal(n)[0]));
    assert((seq!['+'] + decimal(n)).skip(1) =~= decimal(n));
}

/// Text that holds anything but digits is no number.
pub proof fn law_only_digits_are_numbers(s: Seq<char>, max: nat, i: int)
    requires
        0 < i < s.len(),
        !('0' <= s[i] && s[i] <= '9'),
    ensures
        number(s, max) is None,
{
    if s[0] == '+' {
        assert(s.skip(1)[i - 1] == s[i]);
    }
}

/// What is taken off the ends of a text is white, and all of it; the rest stays.
pub proof fn law_trim_takes_the_white_ends(s: Seq<char>)
    ensures
        exists|i: int, j: int|
            {
                &&& 0 <= i <= j <= s.len()
                &&& trim(s) == #[trigger] s.subrange(i, j)
                &&& forall|k: int| 0 <= k < i ==> white(#[trigger] s[k])
                &&& forall|k: int| j <= k < s.len() ==> white(#[trigger] s[k])
                &&& i < j ==> !white(s[i]) && !white(s[j - 1])
            },
{
    let i = lemma_start(s);
    let a = trim_start(s);
    let n = lemma_end(a);
    let j = i + n;
    assert(trim(s) =~= s.subrange(i, j));
    assert forall|k: int| j <= k < s.len() implies white(#[trigger] s[k]) by {
        assert(a[k - i] == s[k]);
    }
    if i < j {
        assert(a[0] == s[i] && a[n - 1] == s[j - 1]);
    }
}

/// Where the white start ends.
proof fn lemma_start(s: Seq<char>) -> (i: int)
    ensures
        0 <= i <= s.len(),
        trim_start(s) == s.skip(i),
        forall|k: int| 0 <= k < i ==> white(#[trigger] s[k]),
        i < s.len() ==> !white(s[i]),
    decreases s.len(),
{
    if s.len() > 0 && white(s[0]) {
        let r = s.skip(1);
        let j = lemma_start(r);
        assert(r.skip(j) =~= s.skip(j + 1));
        assert forall|k: int| 0 <= k < j + 1 implies white(#[trigger] s[k]) by {
            if k > 0 {
                assert(r[k - 1] == s[k]);
            }
        }
        j + 1
    } else {
        assert(s.skip(0) =~= s);
        0
    }
}

/// Where the white end starts.
proof fn lemma_end(s: Seq<char>) -> (j: int)
    ensures
        0 <= j <= s.len(),
        trim_end(s) == s.take(j),
        forall|k: int| j <= k < s.len() ==> white(#[trigger] s[k]),
        j > 0 ==> !white(s[j - 1]),
    decreases s.len(),
{
    if s.len() > 0 && white(s.last()) {
        let r = s.drop_last();
        let j = lemma_end(r);
        assert(r.take(j) =~= s.take(j));
        assert forall|k: int| j <= k < s.len() implies white(#[trigger] s[k]) by {
            if k < r.len() {
                assert(r[k] == s[k]);
            }
        }
        j
    } else {
        assert(s.take(s.len() as int) =~= s);
        s.len() as int
    }
}

/// What is stripped off a text is the given letter at either end and nothing
/// else.
pub proof fn law_strip_takes_the_letter(s: Seq<char>, c: char)
    ensures
        strip(s, c).len() > 0 ==> strip(s, c)[0] != c && strip(s, c).last() != c,
        strip(s, c).len() <= s.len(),
        s.len() > 0 && s[0] != c && s.last() != c ==> strip(s, c) == s,
        strip(seq![c] + s, c) == strip(s, c),
{
    lemma_strip_start(s, c);
    lemma_strip_end(strip_start(s, c), c);
    assert((seq![c] + s).skip(1) =~= s);
}

/// The first letter that is left is another one.
proof fn lemma_strip_start(s: Seq<char>, c: char)
    ensures
        strip_start(s, c).len() <= s.len(),
        strip_start(s, c).len() > 0 ==> strip_start(s, c)[0] != c,
    decreases s.len(),
{
    if s.len() > 0 && s[0] == c {
        lemma_strip_start(s.skip(1), c);
    }
}

/// The last letter that is left is another one.
proof fn lemma_strip_end(s: Seq<char>, c: char)
    ensures
        strip_end(s, c).len() <= s.len(),
        strip_end(s, c).len() > 0 ==> strip_end(s, c).last() != c && strip_end(s, c)[0] == s[0],
    decreases s.len(),
{
    if s.len() > 0 && s.last() == c {
        lemma_strip_end(s.drop_last(), c);
    }
}

/// A letter is found where it first stands, and at the end where it does not.
pub proof fn law_letter_is_found_first(s: Seq<char>, c: char)
    ensures
        0 <= find(s, c) <= s.len(),
        find(s, c) < s.len() ==> s[find(s, c)] == c,
        forall|i: int| 0 <= i < find(s, c) ==> #[trigger] s[i] != c,
    decreases s.len(),
{
    if s.len() > 0 && s[0] != c {
        law_letter_is_found_first(s.skip(1), c);
        assert forall|i: int| 0 <= i < find(s, c) implies #[trigger] s[i] != c by {
            if i > 0 {
                assert(s.skip(1)[i - 1] == s[i]);
            }
        }
    }
}

/// The sign between a width and a height is found where one first stands.
pub proof fn law_cross_is_found_first(s: Seq<char>)
    ensures
        0 <= cross_at(s) <= s.len(),
        cross_at(s) < s.len() ==> s[cross_at(s)] == 'x' || s[cross_at(s)] == 'X',
        forall|i: int| 0 <= i < cross_at(s) ==> #[trigger] s[i] != 'x' && s[i] != 'X',
    decreases s.len(),
{
    if s.len() > 0 && !cross(s[0]) {
        law_cross_is_found_first(s.skip(1));
        assert forall|i: int| 0 <= i < cross_at(s) implies #[trigger] s[i] != 'x' && s[i] != 'X' by {
            if i > 0 {
                assert(s.skip(1)[i - 1] == s[i]);
            }
        }
    }
}

/// Words put in front of joined words.
proof fn lemma_joined_front(word: Seq<char>, rest: Seq<Seq<char>>, between: Seq<char>)
    requires
        rest.len() > 0,
    ensures
        joined(seq![word] + rest, between) == word + between + joined(rest, between),
    decreases rest.len(),
{
    let all = seq![word] + rest;
    if rest.len() == 1 {
        assert(all.drop_last() =~= seq![word]);
        assert(joined(all.drop_last(), between) == word);
        assert(all.last() == rest[0]);
    } else {
        lemma_joined_front(word, rest.drop_last(), between);
        assert(all.drop_last() =~= seq![word] + rest.drop_last());
        assert(all.last() == rest.last());
        assert(joined(all, between) =~= word + between + joined(rest, between));
    }
}

/// The parts of a split text hold no separator, and joined by it they are the
/// text again.
pub proof fn law_split_joins_back(s: Seq<char>, c: char)
    ensures
        split(s, c).len() > 0,
        joined(split(s, c), seq![c]) == s,
        forall|i: int| 0 <= i < split(s, c).len() ==> !(#[trigger] split(s, c)[i]).contains(c),
    decreases s.len(),
{
    law_letter_is_found_first(s, c);
    let k = find(s, c);
    if k >= s.len() {
        assert forall|i: int| 0 <= i < split(s, c).len() implies !(#[trigger] split(s, c)[i])
            .contains(c) by {
            assert(split(s, c)[i] == s);
        }
    } else {
        let rest = s.skip(k + 1);
        law_split_joins_back(rest, c);
        lemma_joined_front(s.take(k), split(rest, c), seq![c]);
        assert(s.take(k) + seq![c] + rest =~= s);
        assert forall|i: int| 0 <= i < split(s, c).len() implies !(#[trigger] split(s, c)[i])
            .contains(c) by {
            if i == 0 {
                assert(split(s, c)[0] == s.take(k));
            } else {
                assert(split(s, c)[i] == split(rest, c)[i - 1]);
            }
        }
    }
}

/// The minor version is the number between the first and the second point.
pub proof fn law_minor_version_is_read(major: nat, minor: nat, patch: nat)
    requires
        minor <= u32::MAX,
    ensures
        minor_of(decimal(major) + seq!['.'] + decimal(minor) + seq!['.'] + decimal(patch)) == minor,
        minor_of(decimal(major)) == 0,
{
    let (a, b, c) = (decimal(major), decimal(minor), decimal(patch));
    law_decimal_reads_back(major);
    law_decimal_reads_back(minor);
    law_decimal_reads_back(patch);
    let tail = b + seq!['.'] + c;
    let s = a + seq!['.'] + b + seq!['.'] + c;
    assert(s =~= a + seq!['.'] + tail);
    lemma_split_digits(a, tail);
    lemma_split_digits(b, c);
    lemma_no_point(c);
    lemma_no_point(a);
    law_number_reads_back(minor, u32::MAX as nat);
}

/// Digits hold no point.
proof fn lemma_no_point(s: Seq<char>)
    requires
        all_digits(s),
    ensures
        split(s, '.') == seq![s],
{
    law_letter_is_found_first(s, '.');
    let k = find(s, '.');
    if k < s.len() {
        assert(is_digit(s[k]));
    }
}

/// Digits before the first point.
proof fn lemma_split_digits(a: Seq<char>, rest: Seq<char>)
    requires
        all_digits(a),
    ensures
        split(a + seq!['.'] + rest, '.') == seq![a] + split(rest, '.'),
{
    let s = a + seq!['.'] + rest;
    law_letter_is_found_first(s, '.');
    let k = find(s, '.');
    assert(s[a.len() as int] == '.');
    if k < a.len() {
        assert(is_digit(a[k]));
        assert(s[k] == a[k]);
    }
    assert(k == a.len());
    assert(s.take(k) =~= a);
    assert(s.skip(k + 1) =~= rest);
}

/// Small letters are kept and capital ones made small.
pub proof fn law_small_letters(c: char)
    ensures
        'A' <= c && c <= 'Z' ==> small(c) as int == c as int + 32,
        !('A' <= c && c <= 'Z') ==> small(c) == c,
        small(small(c)) == small(c),
{
}

/// The label of a number is that of the first entry with it, and the largest
/// number is that of an entry and of none above.
pub proof fn law_first_label_counts(es: Seq<Entry>, n: nat)
    ensures
        first_label(es, n) is None <==> forall|i: int| 0 <= i < es.len() ==> (#[trigger] es[i]).0 != n,
        first_label(es, n) matches Some(l) ==> exists|i: int|
            {
                &&& 0 <= i < es.len()
                &&& (#[trigger] es[i]).0 == n && es[i].1 == l
                &&& forall|j: int| 0 <= j < i ==> (#[trigger] es[j]).0 != n
            },
        forall|i: int| 0 <= i < es.len() ==> (#[trigger] es[i]).0 <= largest(es),
        es.len() > 0 ==> exists|i: int| 0 <= i < es.len() && (#[trigger] es[i]).0 == largest(es),
        seen(es, n) == es.filter(|e: Entry| e.0 == n).len(),
    decreases es.len(),
{
    reveal(Seq::filter);
    if es.len() > 0 {
        let rest = es.drop_last();
        law_first_label_counts(rest, n);
        assert(forall|i: int| 0 <= i < rest.len() ==> #[trigger] rest[i] == es[i]);
        let last = es[es.len() - 1];
        assert(es.last() == last);
        assert forall|i: int| 0 <= i < es.len() implies (#[trigger] es[i]).0 <= largest(es) by {
            if i < rest.len() {
                assert(rest[i] == es[i]);
            }
        }
        if first_label(rest, n) is Some {
            let i = choose|i: int|
                {
                    &&& 0 <= i < rest.len()
                    &&& (#[trigger] rest[i]).0 == n && rest[i].1 == first_label(rest, n)->0
                    &&& forall|j: int| 0 <= j < i ==> (#[trigger] rest[j]).0 != n
                };
            assert(es[i] == rest[i]);
            assert forall|j: int| 0 <= j < i implies (#[trigger] es[j]).0 != n by {
                assert(rest[j] == es[j]);
            }
        } else {
            assert forall|j: int| 0 <= j < rest.len() implies (#[trigger] es[j]).0 != n by {
                assert(rest[j] == es[j]);
            }
        }
        if rest.len() > 0 && last.0 <= largest(rest) {
            let i = choose|i: int| 0 <= i < rest.len() && (#[trigger] rest[i]).0 == largest(rest);
            assert(es[i] == rest[i]);
        }
    }
}

} // verus!
