//! Class labels out of model metadata.
use crate::text::{
    chars_of, decimal, find, find_in, number, push_decimal, read_number, split, strip, strip_range,
    trim, trim_range,
};
use vstd::prelude::*;
use vstd::string::{StrSliceExecFns, StringExecFns};

verus! {

/// Class numbers from this one on are refused.
pub const MAX_CLASS_COUNT: usize = 10_000;

/// A class number and its label.
pub type Entry = (nat, Seq<char>);

/// What a part of the metadata between commas says: a number, a colon, and a
/// label in quotes or without; anything else says nothing.
pub open spec fn entry_of(part: Seq<char>) -> Option<Entry> {
    let e = trim(part);
    let k = find(e, ':');
    if k < 0 || k >= e.len() {
        None
    } else {
        match number(trim(e.take(k)), usize::MAX as nat) {
            Some(n) => Some((n, strip(strip(trim(e.skip(k + 1)), '\''), '"'))),
            None => None,
        }
    }
}

/// What all the parts say, in order.
pub open spec fn entries(parts: Seq<Seq<char>>) -> Seq<Entry>
    decreases parts.len(),
{
    if parts.len() == 0 {
        Seq::empty()
    } else {
        match entry_of(parts[0]) {
            Some(e) => seq![e] + entries(parts.skip(1)),
            None => entries(parts.skip(1)),
        }
    }
}

/// What stands between the braces.
pub open spec fn between_braces(s: Seq<char>) -> Option<Seq<char>> {
    let t = trim(s);
    if t.len() > 2 && t[0] == '{' && t.last() == '}' {
        Some(t.subrange(1, t.len() - 1))
    } else {
        None
    }
}

/// How often a class number is given.
pub open spec fn seen(es: Seq<Entry>, i: nat) -> nat
    decreases es.len(),
{
    if es.len() == 0 {
        0
    } else {
        seen(es.drop_last(), i) + if es.last().0 == i {
            1nat
        } else {
            0nat
        }
    }
}

/// The label that a class number is given first.
pub open spec fn first_label(es: Seq<Entry>, i: nat) -> Option<Seq<char>>
    decreases es.len(),
{
    if es.len() == 0 {
        None
    } else {
        let earlier = first_label(es.drop_last(), i);
        if earlier is Some {
            earlier
        } else if es.last().0 == i {
            Some(es.last().1)
        } else {
            None
        }
    }
}

/// Some class number below `i` is given twice.
pub open spec fn doubled_below(es: Seq<Entry>, i: nat) -> bool
    decreases i,
{
    i > 0 && (seen(es, (i - 1) as nat) >= 2 || doubled_below(es, (i - 1) as nat))
}

/// The largest class number.
pub open spec fn largest(es: Seq<Entry>) -> nat
    decreases es.len(),
{
    if es.len() == 0 {
        0
    } else {
        let rest = largest(es.drop_last());
        if es.last().0 > rest {
            es.last().0
        } else {
            rest
        }
    }
}

/// The label of a class: the one it is given first, or one made of its number
/// where it is given none. Behind a number that is given twice, no given label
/// counts.
pub open spec fn label(es: Seq<Entry>, i: nat) -> Seq<char> {
    match first_label(es, i) {
        Some(name) => if doubled_below(es, i) {
            "class_"@ + decimal(i)
        } else {
            name
        },
        None => "class_"@ + decimal(i),
    }
}

/// The labels of all classes up to the largest number.
pub open spec fn label_list(names: Seq<char>) -> Option<Seq<Seq<char>>> {
    match between_braces(names) {
        None => None,
        Some(inner) => {
            let es = entries(split(inner, ','));
            if es.len() == 0 || largest(es) >= MAX_CLASS_COUNT {
                None
            } else {
                Some(Seq::new(largest(es) + 1, |i: int| label(es, i as nat)))
            }
        },
    }
}

/// The texts of strings.
pub open spec fn texts(v: Seq<String>) -> Seq<Seq<char>> {
    v.map_values(|s: String| s@)
}

/// The contents of numbered strings.
pub open spec fn contents(v: Seq<(usize, String)>) -> Seq<Entry> {
    v.map_values(|e: (usize, String)| (e.0 as nat, e.1@))
}

/// A label made of a class number.
fn made_label(i: usize) -> (r: String)
    ensures
        r@ == "class_"@ + decimal(i as nat),
{
    let mut s: String = String::from_str("class_");
    push_decimal(&mut s, i as u64);
    s
}

/// Reads one part of the metadata.
fn read_entry(names: &str, v: &Vec<char>, lo: usize, hi: usize) -> (r: Option<(usize, String)>)
    requires
        v@ == names@,
        lo <= hi <= v@.len(),
    ensures
        match entry_of(v@.subrange(lo as int, hi as int)) {
            Some(e) => r matches Some(x) && x.0 == e.0 && x.1@ == e.1,
            None => r is None,
        },
{
    let (a, b): (usize, usize) = trim_range(v, lo, hi);
    let k: usize = find_in(v, a, b, ':');
    let ghost e = v@.subrange(a as int, b as int);
    if k >= b {
        return None;
    }
    proof {
        assert(e.take(k - a) =~= v@.subrange(a as int, k as int));
        assert(e.skip(k - a + 1) =~= v@.subrange(k + 1, b as int));
    }
    let (na, nb): (usize, usize) = trim_range(v, a, k);
    match read_number(v, na, nb, usize::MAX as u64) {
        None => None,
        Some(n) => {
            let (ta, tb): (usize, usize) = trim_range(v, k + 1, b);
            let (sa, sb): (usize, usize) = strip_range(v, ta, tb, '\'');
            let (qa, qb): (usize, usize) = strip_range(v, sa, sb, '"');
            Some((n as usize, names.substring_char(qa, qb).to_owned()))
        },
    }
}

/// Reads all the parts of the metadata.
fn read_entries(names: &str, v: &Vec<char>, lo: usize, hi: usize) -> (r: Vec<(usize, String)>)
    requires
        v@ == names@,
        lo <= hi <= v@.len(),
    ensures
        contents(r@) == entries(split(v@.subrange(lo as int, hi as int), ',')),
{
    let mut out: Vec<(usize, String)> = Vec::new();
    let mut pos: usize = lo;
    let ghost all = entries(split(v@.subrange(lo as int, hi as int), ','));
    assert(contents(out@) =~= Seq::empty());
    loop
        invariant_except_break
            v@ == names@,
            lo <= pos <= hi <= v@.len(),
            all == contents(out@) + entries(split(v@.subrange(pos as int, hi as int), ',')),
        ensures
            contents(out@) == all,
        decreases hi - pos,
    {
        let k: usize = find_in(v, pos, hi, ',');
        let ghost part = v@.subrange(pos as int, hi as int);
        let ghost before = contents(out@);
        let found: Option<(usize, String)> = read_entry(names, v, pos, k);
        proof {
            assert(part.take(k - pos) =~= v@.subrange(pos as int, k as int));
            if k < hi {
                assert(part.skip(k - pos + 1) =~= v@.subrange(k + 1, hi as int));
                let rest = split(part.skip(k - pos + 1), ',');
                assert((seq![part.take(k - pos)] + rest).skip(1) =~= rest);
            } else {
                assert(part.take(k - pos) =~= part);
                assert(seq![part].skip(1) =~= Seq::empty());
                assert(entries(Seq::<Seq<char>>::empty()) =~= Seq::empty());
            }
        }
        match found {
            Some(e) => {
                let ghost it = (e.0 as nat, e.1@);
                out.push(e);
                assert(contents(out@) =~= before.push(it));
            },
            None => {},
        }
        if k >= hi {
            assert(contents(out@) =~= all);
            break;
        }
        proof {
            assert(all =~= contents(out@) + entries(split(v@.subrange(k + 1, hi as int), ',')));
        }
        pos = k + 1;
    }
    out
}

proof fn lemma_seen_first(es: Seq<Entry>, i: nat)
    ensures
        seen(es, i) > 0 <==> first_label(es, i) is Some,
    decreases es.len(),
{
    if es.len() > 0 {
        lemma_seen_first(es.drop_last(), i);
    }
}

/// No class number is above the largest.
proof fn lemma_largest(es: Seq<Entry>, k: int)
    requires
        0 <= k < es.len(),
    ensures
        es[k].0 <= largest(es),
    decreases es.len(),
{
    if k < es.len() - 1 {
        lemma_largest(es.drop_last(), k);
    }
}

/// Where a class number was given first, one more than its place, or zero;
/// and whether it was given again.
spec fn tabled(es: Seq<Entry>, e: int, i: nat, first: usize, twice: bool) -> bool {
    &&& twice == (seen(es.take(e), i) >= 2)
    &&& (first == 0 <==> seen(es.take(e), i) == 0)
    &&& first > 0 ==> first <= e && first_label(es.take(e), i) == Some(es[first - 1].1)
}

/// The dense list of labels.
fn fill(given: &Vec<(usize, String)>, max: usize) -> (r: Vec<String>)
    requires
        max == largest(contents(given@)),
        max < MAX_CLASS_COUNT,
    ensures
        texts(r@) == Seq::new(
            largest(contents(given@)) + 1,
            |i: int| label(contents(given@), i as nat),
        ),
{
    let ghost es = contents(given@);
    let mut first: Vec<usize> = Vec::new();
    let mut twice: Vec<bool> = Vec::new();
    assert(es.take(0) =~= Seq::empty());
    for i in 0..max + 1
        invariant
            max < MAX_CLASS_COUNT,
            first@.len() == i,
            twice@.len() == i,
            es.take(0) =~= Seq::empty(),
            forall|j: int| 0 <= j < i ==> tabled(es, 0, j as nat, #[trigger] first@[j], twice@[j]),
    {
        first.push(0);
        twice.push(false);
    }
    for e in 0..given.len()
        invariant
            es == contents(given@),
            max == largest(es),
            max < MAX_CLASS_COUNT,
            first@.len() == max + 1,
            twice@.len() == max + 1,
            forall|j: int|
                0 <= j <= max ==> tabled(es, e as int, j as nat, #[trigger] first@[j], twice@[j]),
    {
        let c: usize = given[e].0;
        proof {
            lemma_largest(es, e as int);
            assert(es.take(e + 1).drop_last() =~= es.take(e as int));
            assert(tabled(es, e as int, c as nat, first@[c as int], twice@[c as int]));
            lemma_seen_first(es.take(e as int), c as nat);
        }
        let ghost before = first@;
        let ghost again = twice@;
        if first[c] == 0 {
            first[c] = e + 1;
        } else {
            twice[c] = true;
        }
        proof {
            assert forall|j: int| 0 <= j <= max implies tabled(
                es,
                e + 1,
                j as nat,
                #[trigger] first@[j],
                twice@[j],
            ) by {
                assert(tabled(es, e as int, j as nat, before[j], again[j]));
                lemma_seen_first(es.take(e as int), j as nat);
                lemma_seen_first(es.take(e + 1), j as nat);
            }
        }
    }
    assert(es.take(given@.len() as int) =~= es);
    let mut out: Vec<String> = Vec::new();
    let mut doubled: bool = false;
    for i in 0..max + 1
        invariant
            es == contents(given@),
            es.take(given@.len() as int) == es,
            max < MAX_CLASS_COUNT,
            first@.len() == max + 1,
            twice@.len() == max + 1,
            forall|j: int|
                0 <= j <= max ==> tabled(
                    es,
                    given@.len() as int,
                    j as nat,
                    #[trigger] first@[j],
                    twice@[j],
                ),
            doubled == doubled_below(es, i as nat),
            out@.len() == i,
            forall|j: int| 0 <= j < i ==> (#[trigger] out@[j])@ == label(es, j as nat),
    {
        proof {
            assert(tabled(
                es,
                given@.len() as int,
                i as nat,
                first@[i as int],
                twice@[i as int],
            ));
            lemma_seen_first(es, i as nat);
        }
        let k: usize = first[i];
        if k > 0 && !doubled {
            out.push(given[k - 1].1.clone());
        } else {
            out.push(made_label(i));
        }
        doubled = doubled || twice[i];
    }
    assert(texts(out@) =~= Seq::new(
        largest(contents(given@)) + 1,
        |i: int| label(contents(given@), i as nat),
    ));
    out
}

fn find_largest(given: &Vec<(usize, String)>) -> (r: usize)
    ensures
        r == largest(contents(given@)),
{
    let ghost es = contents(given@);
    let mut max: usize = 0;
    assert(es.take(0) =~= Seq::empty());
    for i in 0..given.len()
        invariant
            es == contents(given@),
            max == largest(es.take(i as int)),
    {
        assert(es.take(i + 1).drop_last() =~= es.take(i as int));
        if given[i].0 > max {
            max = given[i].0;
        }
    }
    assert(es.take(given@.len() as int) =~= es);
    max
}

/// Reads the labels of a model off its metadata, which is written as a Python
/// dictionary from class number to label.
pub fn parse_names_dict_string(names_str: &str) -> (r: Option<Vec<String>>)
    ensures
        match label_list(names_str@) {
            Some(list) => r matches Some(v) && texts(v@) == list,
            None => r is None,
        },
{
    let v: Vec<char> = chars_of(names_str);
    assert(v@.subrange(0, v@.len() as int) =~= v@);
    let (a, b): (usize, usize) = trim_range(&v, 0, v.len());
    if b - a <= 2 || v[a] != '{' || v[b - 1] != '}' {
        return None;
    }
    let ghost t = v@.subrange(a as int, b as int);
    assert(t.subrange(1, t.len() - 1) =~= v@.subrange(a + 1, b - 1));
    let given: Vec<(usize, String)> = read_entries(names_str, &v, a + 1, b - 1);
    proof {
        assert(between_braces(names_str@) == Some(v@.subrange(a + 1, b - 1)));
        assert(contents(given@).len() == given@.len());
    }
    if given.len() == 0 {
        return None;
    }
    let max: usize = find_largest(&given);
    if max >= MAX_CLASS_COUNT {
        return None;
    }
    Some(fill(&given, max))
}

/// The same parser, for fuzzing.
pub fn __fuzz_parse_names_dict_string(names_str: &str) -> (r: Option<Vec<String>>)
    ensures
        match label_list(names_str@) {
            Some(list) => r matches Some(v) && texts(v@) == list,
            None => r is None,
        },
{
    parse_names_dict_string(names_str)
}

/// However large the numbers in the metadata are, the list is neither empty nor
/// longer than the largest number of classes.
pub proof fn law_label_count_bounded(names: Seq<char>)
    ensures
        label_list(names) matches Some(list) ==> 0 < list.len() <= MAX_CLASS_COUNT,
{
}

/// Where no class number is given twice, every given label stands at its
/// number.
pub proof fn law_given_labels_stand(es: Seq<Entry>, k: int)
    requires
        0 <= k < es.len(),
        forall|i: nat| seen(es, i) <= 1,
    ensures
        label(es, es[k].0) == es[k].1,
{
    lemma_first_is_given(es, k);
    lemma_none_doubled(es, es[k].0);
}

proof fn lemma_first_is_given(es: Seq<Entry>, k: int)
    requires
        0 <= k < es.len(),
        forall|i: nat| seen(es, i) <= 1,
    ensures
        first_label(es, es[k].0) == Some(es[k].1),
    decreases es.len(),
{
    assert(seen(es, es[k].0) <= 1);
    if k < es.len() - 1 {
        assert forall|i: nat| seen(es.drop_last(), i) <= 1 by {
            assert(seen(es, i) <= 1);
        }
        lemma_first_is_given(es.drop_last(), k);
    } else {
        lemma_seen_first(es.drop_last(), es[k].0);
    }
}

proof fn lemma_none_doubled(es: Seq<Entry>, i: nat)
    requires
        forall|j: nat| seen(es, j) <= 1,
    ensures
        !doubled_below(es, i),
    decreases i,
{
    if i > 0 {
        assert(seen(es, (i - 1) as nat) <= 1);
        lemma_none_doubled(es, (i - 1) as nat);
    }
}

} // verus!
