//! The documents that a model is trained on.

use rand::rngs::StdRng;
use rand::seq::SliceRandom;
use rand::SeedableRng;
use vstd::prelude::*;

use crate::tape::{below, pick};
use crate::text::{
    is_space, law_a_line_feed_ends_a_line, law_the_last_line, law_trimming, lines, lines_of, trim,
    trimmed, views,
};

verus! {

/// The standard generator of pseudo-random numbers, of which nothing is known here.
#[verifier::external_type_specification]
#[verifier::external_body]
pub struct ExStdRng(StdRng);

/// What `SliceRandom::shuffle` makes of `items` with the generator that
/// `StdRng::seed_from_u64(seed)` gives.
pub uninterp spec fn shuffled(items: Seq<usize>, seed: u64) -> Seq<usize>;

/// Calls `rand`'s `SliceRandom::shuffle` with the generator that
/// `StdRng::seed_from_u64(seed)` gives, which is a deterministic one.
///
/// Claimed of the shuffled items: they are determined by the items and the seed,
/// and they are the same items, each as often as before. Nothing is claimed of
/// the generator, which comes back as the shuffle leaves it.
#[verifier::external_body]
fn shuffle(items: Vec<usize>, seed: u64) -> (r: (Vec<usize>, StdRng))
    ensures
        r.0@ == shuffled(items@, seed),
        r.0@.to_multiset() == items@.to_multiset(),
{
    let mut items = items;
    let mut rng = StdRng::seed_from_u64(seed);
    items.shuffle(&mut rng);
    (items, rng)
}

/// The documents of a text: its lines without the white space at both ends,
/// where anything is left of them.
pub open spec fn docs_of(text: Seq<char>) -> Seq<Seq<char>> {
    lines_of(text).map_values(|line: Seq<char>| trimmed(line)).filter(
        |doc: Seq<char>| doc.len() > 0,
    )
}

/// The numbers below `n`, in order.
pub open spec fn in_order(n: nat) -> Seq<usize> {
    Seq::new(n, |i: int| i as usize)
}

/// The documents of a text, in the order of the text.
pub fn parse_docs(content: &str) -> (docs: Vec<String>)
    ensures
        views(docs@) == docs_of(content@),
{
    let found = lines(content);
    let ghost all = lines_of(content@).map_values(|line: Seq<char>| trimmed(line));
    let ghost kept = |doc: Seq<char>| doc.len() > 0;
    let mut docs: Vec<String> = Vec::new();
    let mut i: usize = 0;
    assert(all.take(0).filter(kept) =~= Seq::empty()) by {
        reveal(Seq::filter);
    }
    while i < found.len()
        invariant
            views(found@) == lines_of(content@),
            all == lines_of(content@).map_values(|line: Seq<char>| trimmed(line)),
            kept == |doc: Seq<char>| doc.len() > 0,
            i <= found@.len(),
            views(docs@) == all.take(i as int).filter(kept),
        decreases found@.len() - i,
    {
        let ghost so_far = views(docs@);
        assert(views(found@)[i as int] == found@[i as int]@);
        let doc = trim(found[i].as_str());
        assert(doc@ == all[i as int]);
        assert(all.take(i + 1).drop_last() =~= all.take(i as int));
        assert(all.take(i + 1).last() == doc@);
        proof {
            reveal(Seq::filter);
        }
        if !doc.as_str().is_empty() {
            docs.push(doc);
            assert(views(docs@) =~= so_far.push(doc@));
        }
        i += 1;
    }
    assert(all.take(all.len() as int) =~= all);
    docs
}

/// The documents in the given order.
pub fn arrange(docs: &Vec<String>, order: &Vec<usize>) -> (arranged: Vec<String>)
    requires
        below(order@, docs@.len()),
    ensures
        views(arranged@) == pick(views(docs@), order@),
{
    let mut arranged: Vec<String> = Vec::new();
    let mut i: usize = 0;
    while i < order.len()
        invariant
            below(order@, docs@.len()),
            i <= order@.len(),
            views(arranged@) == pick(views(docs@), order@).take(i as int),
        decreases order@.len() - i,
    {
        let ghost so_far = views(arranged@);
        assert(order@[i as int] < docs@.len());
        arranged.push(docs[order[i]].clone());
        assert(views(arranged@) =~= so_far.push(docs@[order@[i as int] as int]@));
        i += 1;
        assert(views(arranged@) =~= pick(views(docs@), order@).take(i as int));
    }
    assert(pick(views(docs@), order@).take(order@.len() as int) =~= pick(views(docs@), order@));
    arranged
}

/// The numbers below `n`, in order.
fn numbers(n: usize) -> (v: Vec<usize>)
    ensures
        v@ == in_order(n as nat),
{
    let mut v: Vec<usize> = Vec::new();
    let mut i: usize = 0;
    while i < n
        invariant
            i <= n,
            v@ == in_order(i as nat),
        decreases n - i,
    {
        v.push(i);
        i += 1;
        assert(v@ =~= in_order(i as nat));
    }
    v
}

/// Equal collections of positions pick equal collections of items.
proof fn lemma_pick_permuted<T>(s: Seq<T>, a: Seq<usize>, b: Seq<usize>)
    requires
        a.to_multiset() == b.to_multiset(),
    ensures
        pick(s, a).to_multiset() == pick(s, b).to_multiset(),
    decreases a.len(),
{
    broadcast use vstd::seq_lib::group_to_multiset_ensures;

    assert(a.to_multiset().len() == a.len() && b.to_multiset().len() == b.len());
    if a.len() > 0 {
        let x = a.last();
        assert(a[a.len() - 1] == x);
        assert(a.contains(x));
        assert(b.to_multiset().count(x) > 0);
        assert(b.contains(x));
        let j = choose|j: int| 0 <= j < b.len() && b[j] == x;
        let shorter = a.drop_last();
        let other = b.remove(j);
        assert(a =~= shorter.push(x));
        assert(shorter.to_multiset() =~= a.to_multiset().remove(x));
        assert(other.to_multiset() =~= b.to_multiset().remove(x));
        lemma_pick_permuted(s, shorter, other);
        assert(pick(s, a) =~= pick(s, shorter).push(s[x as int]));
        assert(pick(s, other) =~= pick(s, b).remove(j));
        assert(pick(s, b)[j] == s[x as int]);
        assert(pick(s, b).to_multiset() =~= pick(s, other).to_multiset().insert(s[x as int]));
    } else {
        assert(pick(s, a) =~= pick(s, b));
    }
}

/// The documents of a text in a shuffled order that the seed determines, and the
/// generator that shuffled them.
pub fn load_docs(content: &str, seed: u64) -> (r: (Vec<String>, StdRng))
    ensures
        views(r.0@) == pick(
            docs_of(content@),
            shuffled(in_order(docs_of(content@).len()), seed),
        ),
        views(r.0@).to_multiset() == docs_of(content@).to_multiset(),
{
    let docs = parse_docs(content);
    let start = numbers(docs.len());
    let ghost n = docs@.len();
    assert(views(docs@).len() == n);
    let (order, rng) = shuffle(start, seed);
    proof {
        broadcast use vstd::seq_lib::group_to_multiset_ensures;

        let s = docs_of(content@);
        assert forall|i: int| 0 <= i < order@.len() implies (#[trigger] order@[i]) < n by {
            assert(order@.contains(order@[i]));
            assert(in_order(n).to_multiset().count(order@[i]) > 0);
            assert(in_order(n).contains(order@[i]));
        }
        lemma_pick_permuted(s, order@, in_order(n));
        assert(pick(s, in_order(n)) =~= s);
    }
    (arrange(&docs, &order), rng)
}

/// Whether `doc` is what is left of a line without the white space at its ends.
pub open spec fn stripped(line: Seq<char>, doc: Seq<char>) -> bool {
    exists|from: int, to: int| #[trigger] stripped_at(line, doc, from, to)
}

/// Whether `doc` is the part of a line between two positions, with white space before
/// and after it, and something else at its own ends.
pub open spec fn stripped_at(line: Seq<char>, doc: Seq<char>, from: int, to: int) -> bool {
    &&& 0 <= from < to <= line.len()
    &&& doc == line.subrange(from, to)
    &&& !is_space(line[from])
    &&& !is_space(line[to - 1])
    &&& forall|i: int| 0 <= i < from ==> is_space(#[trigger] line[i])
    &&& forall|i: int| to <= i < line.len() ==> is_space(#[trigger] line[i])
}

/// Whether a line has a character that is no white space.
pub open spec fn says_something(line: Seq<char>) -> bool {
    exists|i: int| 0 <= i < line.len() && !is_space(#[trigger] line[i])
}

/// A line that says something is not empty without the white space at its ends.
proof fn lemma_stripped(line: Seq<char>)
    ensures
        says_something(line) <==> trimmed(line).len() > 0,
        says_something(line) ==> stripped(line, trimmed(line)),
{
    let (from, to) = law_trimming(line);
    if from < to {
        assert(!is_space(line[from]));
        assert(stripped_at(line, trimmed(line), from, to));
    }
}

/// The documents of some lines, and the lines that they come from.
proof fn lemma_kept_lines(ls: Seq<Seq<char>>) -> (places: Seq<int>)
    ensures
        ({
            let docs = ls.map_values(|line: Seq<char>| trimmed(line)).filter(
                |doc: Seq<char>| doc.len() > 0,
            );
            &&& places.len() == docs.len()
            &&& forall|k: int|
                0 <= k < places.len() ==> 0 <= #[trigger] places[k] < ls.len() && says_something(
                    ls[places[k]],
                ) && stripped(ls[places[k]], docs[k])
            &&& forall|j: int, k: int|
                0 <= j < k < places.len() ==> #[trigger] places[j] < #[trigger] places[k]
            &&& forall|i: int|
                0 <= i < ls.len() && says_something(#[trigger] ls[i]) ==> places.contains(i)
        }),
    decreases ls.len(),
{
    reveal(Seq::filter);
    let strip = |line: Seq<char>| trimmed(line);
    let kept = |doc: Seq<char>| doc.len() > 0;
    let all = ls.map_values(strip);
    if ls.len() == 0 {
        assert(all.filter(kept).len() == 0);
        Seq::empty()
    } else {
        let before = ls.drop_last();
        let n = before.len() as int;
        let earlier = lemma_kept_lines(before);
        let some = before.map_values(strip).filter(kept);
        lemma_stripped(ls.last());
        assert(all.drop_last() =~= before.map_values(strip));
        assert(all.last() == trimmed(ls.last()));
        let places = if trimmed(ls.last()).len() > 0 {
            earlier.push(n)
        } else {
            earlier
        };
        let docs = all.filter(kept);
        assert(trimmed(ls.last()).len() > 0 ==> docs == some.push(trimmed(ls.last())));
        assert(trimmed(ls.last()).len() == 0 ==> docs == some);
        assert forall|k: int| 0 <= k < places.len() implies 0 <= #[trigger] places[k] < ls.len()
            && says_something(ls[places[k]]) && stripped(ls[places[k]], docs[k]) by {
            if k < earlier.len() {
                assert(places[k] == earlier[k]);
                assert(before[earlier[k]] == ls[places[k]]);
                assert(docs[k] == some[k]);
            }
        }
        assert forall|i: int| 0 <= i < ls.len() && says_something(#[trigger] ls[i]) implies
            places.contains(i) by {
            if i < n {
                assert(before[i] == ls[i]);
                let k = choose|k: int| 0 <= k < earlier.len() && earlier[k] == i;
                assert(places[k] == i);
            } else {
                assert(places[earlier.len() as int] == i);
            }
        }
        places
    }
}

/// No line that says something is lost, and none is made up: the documents of a text
/// are, in order, its lines with a character that is no white space, without the white
/// space at their ends. The places are the numbers of those lines.
pub proof fn law_documents_are_the_lines(text: Seq<char>) -> (places: Seq<int>)
    ensures
        ({
            let ls = lines_of(text);
            let docs = docs_of(text);
            &&& places.len() == docs.len()
            &&& forall|k: int|
                0 <= k < places.len() ==> 0 <= #[trigger] places[k] < ls.len() && says_something(
                    ls[places[k]],
                ) && stripped(ls[places[k]], docs[k])
            &&& forall|j: int, k: int|
                0 <= j < k < places.len() ==> #[trigger] places[j] < #[trigger] places[k]
            &&& forall|i: int|
                0 <= i < ls.len() && says_something(#[trigger] ls[i]) ==> places.contains(i)
        }),
{
    lemma_kept_lines(lines_of(text))
}

/// Names, each on a line of its own.
pub open spec fn one_on_each_line(names: Seq<Seq<char>>) -> Seq<char>
    decreases names.len(),
{
    if names.len() == 0 {
        Seq::empty()
    } else {
        names[0] + seq!['\n'] + one_on_each_line(names.drop_first())
    }
}

/// Names on lines of their own are the documents, whatever their number and their length.
pub proof fn law_names_are_the_documents(names: Seq<Seq<char>>)
    requires
        forall|k: int, i: int|
            0 <= k < names.len() && 0 <= i < names[k].len() ==> (#[trigger] names[k][i]) != '\n',
        forall|k: int|
            0 <= k < names.len() ==> (#[trigger] names[k]).len() > 0 && !is_space(names[k][0])
                && !is_space(names[k][names[k].len() - 1]),
    ensures
        docs_of(one_on_each_line(names)) == names,
    decreases names.len(),
{
    reveal(Seq::filter);
    let strip = |line: Seq<char>| trimmed(line);
    let kept = |doc: Seq<char>| doc.len() > 0;
    let text = one_on_each_line(names);
    lemma_lines_of_names(names);
    let ls = lines_of(text);
    assert(ls.map_values(strip) =~= names) by {
        assert forall|k: int| 0 <= k < names.len() implies trimmed(names[k]) == names[k] by {
            let (from, to) = law_trimming(names[k]);
            let n = names[k].len();
            assert(!is_space(names[k][0]));
            assert(from == 0 && to == n);
            assert(names[k].subrange(0, n as int) =~= names[k]);
        }
    }
    lemma_all_kept(names);
}

proof fn lemma_lines_of_names(names: Seq<Seq<char>>)
    requires
        forall|k: int, i: int|
            0 <= k < names.len() && 0 <= i < names[k].len() ==> (#[trigger] names[k][i]) != '\n',
        forall|k: int|
            0 <= k < names.len() ==> (#[trigger] names[k]).len() > 0 && !is_space(names[k][0])
                && !is_space(names[k][names[k].len() - 1]),
    ensures
        lines_of(one_on_each_line(names)) == names,
    decreases names.len(),
{
    if names.len() == 0 {
        law_the_last_line(Seq::empty());
        assert(lines_of(one_on_each_line(names)) =~= names);
    } else {
        let rest = names.drop_first();
        assert forall|k: int, i: int| 0 <= k < rest.len() && 0 <= i < rest[k].len() implies (
        #[trigger] rest[k][i]) != '\n' by {
            assert(names[k + 1][i] != '\n');
        }
        assert forall|k: int| 0 <= k < rest.len() implies (#[trigger] rest[k]).len() > 0
            && !is_space(rest[k][0]) && !is_space(rest[k][rest[k].len() - 1]) by {
            assert(names[k + 1].len() > 0);
        }
        lemma_lines_of_names(rest);
        assert forall|i: int| 0 <= i < names[0].len() implies (#[trigger] names[0][i]) != '\n' by {}
        law_a_line_feed_ends_a_line(names[0], one_on_each_line(rest));
        let found = lines_of(one_on_each_line(names));
        assert(!is_space(names[0][names[0].len() - 1]));
        assert(found =~= seq![found[0]] + found.drop_first());
        assert(found =~= names);
    }
}

proof fn lemma_all_kept(docs: Seq<Seq<char>>)
    requires
        forall|k: int| 0 <= k < docs.len() ==> (#[trigger] docs[k]).len() > 0,
    ensures
        docs.filter(|doc: Seq<char>| doc.len() > 0) == docs,
    decreases docs.len(),
{
    reveal(Seq::filter);
    if docs.len() > 0 {
        let before = docs.drop_last();
        assert forall|k: int| 0 <= k < before.len() implies (#[trigger] before[k]).len() > 0 by {
            assert(docs[k].len() > 0);
        }
        lemma_all_kept(before);
        assert(docs[docs.len() - 1].len() > 0);
        assert(before.push(docs.last()) =~= docs);
    } else {
        assert(docs.filter(|doc: Seq<char>| doc.len() > 0) =~= docs);
    }
}

/// The numbers that are shuffled are those of the documents, each once and in order.
pub proof fn law_in_order(n: nat, i: int)
    requires
        n <= usize::MAX,
        0 <= i < n,
    ensures
        in_order(n).len() == n,
        in_order(n)[i] == i,
{
}

proof fn lemma_filter_first(doc: Seq<char>, rest: Seq<Seq<char>>)
    ensures
        ({
            let kept = |doc: Seq<char>| doc.len() > 0;
            (seq![doc] + rest).filter(kept) == if doc.len() > 0 {
                seq![doc] + rest.filter(kept)
            } else {
                rest.filter(kept)
            }
        }),
    decreases rest.len(),
{
    reveal(Seq::filter);
    let kept = |doc: Seq<char>| doc.len() > 0;
    let all = seq![doc] + rest;
    if rest.len() == 0 {
        assert(all.drop_last() =~= Seq::empty());
        assert(all.last() == doc);
        assert(all.drop_last().filter(kept) =~= Seq::empty());
        assert(rest.filter(kept) =~= Seq::empty());
        assert(all.filter(kept) =~= if doc.len() > 0 {
            seq![doc] + rest.filter(kept)
        } else {
            rest.filter(kept)
        });
    } else {
        let before = rest.drop_last();
        lemma_filter_first(doc, before);
        assert(all.drop_last() =~= seq![doc] + before);
        assert(all.last() == rest.last());
        assert(all.filter(kept) =~= if doc.len() > 0 {
            seq![doc] + rest.filter(kept)
        } else {
            rest.filter(kept)
        });
    }
}

/// What is left of a line that has something between white space is just that.
proof fn lemma_trimmed_is(gap: Seq<char>, doc: Seq<char>, end: Seq<char>)
    requires
        forall|i: int| 0 <= i < gap.len() ==> is_space(#[trigger] gap[i]),
        forall|i: int| 0 <= i < end.len() ==> is_space(#[trigger] end[i]),
        doc.len() > 0 ==> !is_space(doc[0]) && !is_space(doc[doc.len() - 1]),
    ensures
        trimmed(gap + doc + end) == doc,
{
    let s = gap + doc + end;
    let (from, to) = law_trimming(s);
    let (a, b) = (gap.len() as int, (gap.len() + doc.len()) as int);
    assert forall|i: int| 0 <= i < s.len() && !(a <= i < b) implies is_space(#[trigger] s[i]) by {
        if i < a {
            assert(s[i] == gap[i]);
        } else {
            assert(s[i] == end[i - b]);
        }
    }
    if doc.len() > 0 {
        assert(s[a] == doc[0] && s[b - 1] == doc[doc.len() - 1]);
        assert(from <= a && b <= to);
        assert(from < to);
        assert(!is_space(s[from]) && !is_space(s[to - 1]));
        assert(from == a && to == b);
        assert(s.subrange(a, b) =~= doc);
    } else {
        assert(from == to);
        assert(s.subrange(from, to) =~= doc);
    }
}

/// Every line of a text is a document, without the white space at its ends, unless nothing
/// is left of it; the lines after it do not change that.
pub proof fn law_each_line_is_a_document(
    gap: Seq<char>,
    doc: Seq<char>,
    end: Seq<char>,
    rest: Seq<char>,
)
    requires
        forall|i: int| 0 <= i < gap.len() ==> is_space(#[trigger] gap[i]) && gap[i] != '\n',
        forall|i: int| 0 <= i < end.len() ==> is_space(#[trigger] end[i]) && end[i] != '\n',
        forall|i: int| 0 <= i < doc.len() ==> (#[trigger] doc[i]) != '\n',
        doc.len() > 0 ==> !is_space(doc[0]) && !is_space(doc[doc.len() - 1]),
    ensures
        doc.len() > 0 ==> docs_of(gap + doc + end + seq!['\n'] + rest) == seq![doc] + docs_of(rest),
        doc.len() == 0 ==> docs_of(gap + doc + end + seq!['\n'] + rest) == docs_of(rest),
        doc.len() > 0 ==> docs_of(gap + doc + end) == seq![doc],
        doc.len() == 0 ==> docs_of(gap + doc + end).len() == 0,
{
    let strip = |line: Seq<char>| trimmed(line);
    let kept = |doc: Seq<char>| doc.len() > 0;
    let line = gap + doc + end;
    assert forall|i: int| 0 <= i < line.len() implies (#[trigger] line[i]) != '\n' by {
        let (a, b) = (gap.len() as int, (gap.len() + doc.len()) as int);
        if i < a {
            assert(line[i] == gap[i]);
        } else if i < b {
            assert(line[i] == doc[i - a]);
        } else {
            assert(line[i] == end[i - b]);
        }
    }
    lemma_trimmed_is(gap, doc, end);
    law_a_line_feed_ends_a_line(line, rest);
    let found = lines_of(line + seq!['\n'] + rest);
    let first = found[0];
    assert(trimmed(first) == doc) by {
        if line.len() > 0 && line[line.len() - 1] == '\r' {
            assert(is_space('\r'));
            if end.len() > 0 {
                lemma_trimmed_is(gap, doc, end.drop_last());
                assert(gap + doc + end.drop_last() =~= first);
            } else if doc.len() > 0 {
                assert(line[line.len() - 1] == doc[doc.len() - 1]);
            } else {
                lemma_trimmed_is(gap.drop_last(), doc, end);
                assert(gap.drop_last() + doc + end =~= first);
            }
        }
    }
    assert(found =~= seq![first] + lines_of(rest)) by {
        assert(found =~= seq![first] + found.drop_first());
    }
    assert(found.map_values(strip) =~= seq![doc] + lines_of(rest).map_values(strip));
    lemma_filter_first(doc, lines_of(rest).map_values(strip));
    law_the_last_line(line);
    reveal(Seq::filter);
    let alone = lines_of(line).map_values(strip);
    if line.len() > 0 {
        assert(alone =~= seq![doc] + Seq::<Seq<char>>::empty());
        lemma_filter_first(doc, Seq::empty());
        assert(Seq::<Seq<char>>::empty().filter(kept) =~= Seq::empty());
        assert(seq![doc] + Seq::<Seq<char>>::empty() =~= seq![doc]);
    } else {
        assert(alone =~= Seq::empty());
        assert(alone.filter(kept) =~= Seq::empty());
    }
}

} // verus!
