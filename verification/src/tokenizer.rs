//! The tokenizer: one token for each character, and one that marks both ends of
//! a document.

use vstd::prelude::*;

use crate::text::{chars_of, views};

verus! {

/// The characters that have a token; a character's token is its position. The token
/// `bos` marks the start and the end of a document.
pub struct Tokenizer {
    pub uchars: Vec<char>,
    pub bos: usize,
    pub vocab_size: usize,
}

/// Whether a character occurs in a document.
pub open spec fn occurs(docs: Seq<Seq<char>>, c: char) -> bool {
    exists|i: int| 0 <= i < docs.len() && (#[trigger] docs[i]).contains(c)
}

/// Whether the characters stand in ascending order, none twice.
pub open spec fn ascending(chars: Seq<char>) -> bool {
    forall|i: int, j: int| 0 <= i < j < chars.len() ==> chars[i] < chars[j]
}

/// Whether every character of a document is one of `uchars`.
pub open spec fn covered(uchars: Seq<char>, doc: Seq<char>) -> bool {
    forall|i: int| 0 <= i < doc.len() ==> uchars.contains(#[trigger] doc[i])
}

/// The first position of a character, or the number of characters where it is not
/// one of them.
pub open spec fn first_place(uchars: Seq<char>, c: char) -> nat
    decreases uchars.len(),
{
    if uchars.len() == 0 || uchars[0] == c {
        0
    } else {
        1 + first_place(uchars.drop_first(), c)
    }
}

/// The tokens of a document: the first positions of its characters, between two end
/// marks.
pub open spec fn encoded(uchars: Seq<char>, bos: usize, doc: Seq<char>) -> Seq<usize> {
    seq![bos] + Seq::new(doc.len(), |i: int| first_place(uchars, doc[i]) as usize) + seq![bos]
}

/// The characters that some tokens stand for.
pub open spec fn decoded(uchars: Seq<char>, tokens: Seq<usize>) -> Seq<char> {
    Seq::new(tokens.len(), |i: int| uchars[tokens[i] as int])
}

impl Tokenizer {
    /// The characters ascend, and the mark is the token after the last of them.
    pub open spec fn wf(self) -> bool {
        &&& ascending(self.uchars@)
        &&& self.bos == self.uchars@.len()
        &&& self.vocab_size == self.uchars@.len() + 1
    }

    /// Whether the characters with a token are those that occur in the documents.
    pub open spec fn fits(self, docs: Seq<Seq<char>>) -> bool {
        &&& self.wf()
        &&& forall|c: char| #[trigger] self.uchars@.contains(c) <==> occurs(docs, c)
    }
}

proof fn lemma_code_point(c: char)
    ensures
        0 <= c as int <= 0x10FFFF,
{
}

/// There are no more characters than Unicode has code points.
pub proof fn lemma_few_characters(chars: Seq<char>, n: nat)
    requires
        ascending(chars),
        n < chars.len(),
    ensures
        chars[n as int] as int >= n,
        n <= 0x10FFFF,
    decreases n,
{
    if n > 0 {
        lemma_few_characters(chars, (n - 1) as nat);
        assert(chars[n - 1] < chars[n as int]);
    }
    lemma_code_point(chars[n as int]);
}

/// What the first position of a character is.
pub proof fn lemma_first_place(uchars: Seq<char>, c: char)
    ensures
        first_place(uchars, c) <= uchars.len(),
        forall|i: int| 0 <= i < first_place(uchars, c) ==> (#[trigger] uchars[i]) != c,
        first_place(uchars, c) < uchars.len() ==> uchars[first_place(uchars, c) as int] == c,
        first_place(uchars, c) < uchars.len() <==> uchars.contains(c),
    decreases uchars.len(),
{
    let p = first_place(uchars, c);
    if uchars.len() > 0 && uchars[0] != c {
        let rest = uchars.drop_first();
        lemma_first_place(rest, c);
        assert forall|i: int| 0 <= i < p implies (#[trigger] uchars[i]) != c by {
            if i > 0 {
                assert(rest[i - 1] == uchars[i]);
            }
        }
    }
    if p < uchars.len() {
        assert(uchars[p as int] == c);
    }
}

/// A position with a character, and none before it with the same, is the first.
proof fn lemma_first_place_is(uchars: Seq<char>, c: char, p: nat)
    requires
        p <= uchars.len(),
        forall|i: int| 0 <= i < p ==> (#[trigger] uchars[i]) != c,
        p < uchars.len() ==> uchars[p as int] == c,
    ensures
        first_place(uchars, c) == p,
{
    lemma_first_place(uchars, c);
    let q = first_place(uchars, c);
    if q < p {
        assert(uchars[q as int] != c);
    }
}

/// The position of `c` among ascending characters, or where it would stand.
fn find(chars: &Vec<char>, c: char) -> (p: usize)
    requires
        ascending(chars@),
    ensures
        p <= chars@.len(),
        forall|i: int| 0 <= i < p ==> (#[trigger] chars@[i]) < c,
        forall|i: int| p <= i < chars@.len() ==> c <= (#[trigger] chars@[i]),
{
    let mut p: usize = 0;
    while p < chars.len() && chars[p] < c
        invariant
            p <= chars@.len(),
            forall|i: int| 0 <= i < p ==> (#[trigger] chars@[i]) < c,
        decreases chars@.len() - p,
    {
        p += 1;
    }
    p
}

/// Adds a character to ascending characters, where it is not one of them.
fn insert_char(chars: &mut Vec<char>, c: char)
    requires
        ascending(old(chars)@),
    ensures
        ascending(final(chars)@),
        forall|x: char| #[trigger]
            final(chars)@.contains(x) <==> old(chars)@.contains(x) || x == c,
{
    let ghost start = chars@;
    let p = find(chars, c);
    if p < chars.len() && chars[p] == c {
        assert(start.contains(c));
    } else {
        chars.insert(p, c);
        assert(chars@[p as int] == c);
        assert forall|x: char| #[trigger] chars@.contains(x) <==> start.contains(x) || x == c by {
            if start.contains(x) {
                let i = choose|i: int| 0 <= i < start.len() && start[i] == x;
                if i < p {
                    assert(chars@[i] == x);
                } else {
                    assert(chars@[i + 1] == x);
                }
            }
            if chars@.contains(x) && x != c {
                let i = choose|i: int| 0 <= i < chars@.len() && chars@[i] == x;
                if i < p {
                    assert(start[i] == x);
                } else {
                    assert(start[i - 1] == x);
                }
            }
        }
    }
}

impl Tokenizer {
    /// The tokenizer for the characters that occur in some documents.
    pub fn new(docs: &Vec<String>) -> (tok: Tokenizer)
        ensures
            tok.fits(views(docs@)),
    {
        let ghost all = views(docs@);
        let mut uchars: Vec<char> = Vec::new();
        let mut d: usize = 0;
        while d < docs.len()
            invariant
                all == views(docs@),
                d <= docs@.len(),
                ascending(uchars@),
                forall|c: char| #[trigger] uchars@.contains(c) <==> occurs(all.take(d as int), c),
            decreases docs@.len() - d,
        {
            let chars = chars_of(docs[d].as_str());
            let ghost earlier = all.take(d as int);
            let mut k: usize = 0;
            while k < chars.len()
                invariant
                    k <= chars@.len(),
                    ascending(uchars@),
                    forall|c: char| #[trigger]
                        uchars@.contains(c) <==> occurs(earlier, c) || chars@.take(
                            k as int,
                        ).contains(c),
                decreases chars@.len() - k,
            {
                let ghost before = uchars@;
                insert_char(&mut uchars, chars[k]);
                let ghost seen = chars@.take(k as int);
                let ghost next = chars@.take(k + 1);
                assert(next =~= seen.push(chars@[k as int]));
                assert forall|c: char| #[trigger] uchars@.contains(c) <==> occurs(earlier, c)
                    || next.contains(c) by {
                    if seen.contains(c) {
                        let i = choose|i: int| 0 <= i < seen.len() && seen[i] == c;
                        assert(next[i] == c);
                    }
                    if next.contains(c) && c != chars@[k as int] {
                        let i = choose|i: int| 0 <= i < next.len() && next[i] == c;
                        assert(seen[i] == c);
                    }
                    assert(next[k as int] == chars@[k as int]);
                    assert(before.contains(c) <==> occurs(earlier, c) || seen.contains(c));
                }
                k += 1;
            }
            assert(chars@.take(chars@.len() as int) =~= chars@);
            assert(all[d as int] == chars@);
            let ghost next = all.take(d + 1);
            assert forall|c: char| #[trigger] uchars@.contains(c) <==> occurs(next, c) by {
                if occurs(earlier, c) {
                    let i = choose|i: int| 0 <= i < earlier.len() && (#[trigger] earlier[i]).contains(c);
                    assert(next[i].contains(c));
                }
                if chars@.contains(c) {
                    assert(next[d as int].contains(c));
                }
                if occurs(next, c) {
                    let i = choose|i: int| 0 <= i < next.len() && (#[trigger] next[i]).contains(c);
                    if i < d {
                        assert(earlier[i].contains(c));
                    }
                }
            }
            d += 1;
        }
        assert(all.take(all.len() as int) =~= all);
        let bos: usize = uchars.len();
        proof {
            if bos > 0 {
                lemma_few_characters(uchars@, (bos - 1) as nat);
            }
        }
        let vocab_size: usize = uchars.len() + 1;
        Tokenizer { uchars, bos, vocab_size }
    }

    /// The first position of a character, or the number of characters where it is not
    /// one of them.
    fn position(&self, c: char) -> (p: usize)
        ensures
            p == first_place(self.uchars@, c),
    {
        let mut p: usize = 0;
        while p < self.uchars.len() && self.uchars[p] != c
            invariant
                p <= self.uchars@.len(),
                forall|i: int| 0 <= i < p ==> (#[trigger] self.uchars@[i]) != c,
            decreases self.uchars@.len() - p,
        {
            p += 1;
        }
        proof {
            lemma_first_place_is(self.uchars@, c, p as nat);
        }
        p
    }

    /// Whether every character of a document has a token.
    pub fn covers(&self, doc: &str) -> (b: bool)
        ensures
            b == covered(self.uchars@, doc@),
    {
        let chars = chars_of(doc);
        let mut k: usize = 0;
        while k < chars.len()
            invariant
                chars@ == doc@,
                k <= chars@.len(),
                forall|i: int| 0 <= i < k ==> self.uchars@.contains(#[trigger] chars@[i]),
            decreases chars@.len() - k,
        {
            let p = self.position(chars[k]);
            proof {
                lemma_first_place(self.uchars@, chars@[k as int]);
            }
            if p == self.uchars.len() {
                return false;
            }
            k += 1;
        }
        true
    }

    /// The tokens of a document.
    pub fn encode(&self, doc: &str) -> (tokens: Vec<usize>)
        requires
            covered(self.uchars@, doc@),
        ensures
            tokens@ == encoded(self.uchars@, self.bos, doc@),
    {
        let chars = chars_of(doc);
        let ghost bos = seq![self.bos];
        let ghost inner = Seq::new(
            chars@.len(),
            |i: int| first_place(self.uchars@, chars@[i]) as usize,
        );
        let mut tokens: Vec<usize> = Vec::new();
        tokens.push(self.bos);
        let mut k: usize = 0;
        assert(tokens@ =~= bos + inner.take(0));
        while k < chars.len()
            invariant
                chars@ == doc@,
                k <= chars@.len(),
                inner == Seq::new(
                    chars@.len(),
                    |i: int| first_place(self.uchars@, chars@[i]) as usize,
                ),
                tokens@ == bos + inner.take(k as int),
            decreases chars@.len() - k,
        {
            let p = self.position(chars[k]);
            tokens.push(p);
            k += 1;
            assert(tokens@ =~= bos + inner.take(k as int));
        }
        tokens.push(self.bos);
        assert(tokens@ =~= encoded(self.uchars@, self.bos, doc@));
        tokens
    }

    /// The character that a token stands for.
    pub fn char_of(&self, token: usize) -> (c: char)
        requires
            token < self.uchars@.len(),
        ensures
            c == self.uchars@[token as int],
    {
        self.uchars[token]
    }
}

/// Encoding loses nothing: between the two end marks, which no character shares,
/// stand tokens of the vocabulary that decode to the document.
pub proof fn law_encode_then_decode(tok: Tokenizer, doc: Seq<char>)
    requires
        tok.wf(),
        covered(tok.uchars@, doc),
    ensures
        ({
            let tokens = encoded(tok.uchars@, tok.bos, doc);
            &&& tokens.len() == doc.len() + 2
            &&& tokens.first() == tok.bos
            &&& tokens.last() == tok.bos
            &&& forall|i: int| 0 < i < tokens.len() - 1 ==> (#[trigger] tokens[i]) < tok.bos
            &&& tok.bos < tok.vocab_size
            &&& decoded(tok.uchars@, tokens.drop_first().drop_last()) == doc
        }),
{
    let tokens = encoded(tok.uchars@, tok.bos, doc);
    assert forall|i: int| 0 < i < tokens.len() - 1 implies (#[trigger] tokens[i]) < tok.bos
        && tok.uchars@[tokens[i] as int] == doc[i - 1] by {
        assert(tok.uchars@.contains(doc[i - 1]));
        lemma_first_place(tok.uchars@, doc[i - 1]);
    }
    assert(decoded(tok.uchars@, tokens.drop_first().drop_last()) =~= doc);
}

/// A tokenizer has a token for every character of the documents it was made for.
pub proof fn law_tokenizer_covers_its_documents(tok: Tokenizer, docs: Seq<Seq<char>>, i: int)
    requires
        tok.fits(docs),
        0 <= i < docs.len(),
    ensures
        covered(tok.uchars@, docs[i]),
{
    assert forall|k: int| 0 <= k < docs[i].len() implies tok.uchars@.contains(
        #[trigger] docs[i][k],
    ) by {
        assert(docs[i].contains(docs[i][k]));
        assert(occurs(docs, docs[i][k]));
    }
}

/// Ascending characters are determined by which they are.
proof fn lemma_ascending_unique(a: Seq<char>, b: Seq<char>)
    requires
        ascending(a),
        ascending(b),
        forall|c: char| #[trigger] a.contains(c) <==> b.contains(c),
    ensures
        a == b,
    decreases a.len(),
{
    if a.len() == 0 {
        if b.len() > 0 {
            assert(b.contains(b[0]));
            assert(a.contains(b[0]));
        }
        assert(a =~= b);
    } else {
        assert(a.contains(a[0]));
        assert(b.contains(a[0]));
        assert(b.contains(b[0]));
        assert(a.contains(b[0]));
        let x = a.last();
        let y = b.last();
        assert(a[a.len() - 1] == x);
        assert(b[b.len() - 1] == y);
        assert(a.contains(x));
        assert(b.contains(x));
        assert(b.contains(y));
        assert(a.contains(y));
        let i = choose|i: int| 0 <= i < b.len() && b[i] == x;
        let j = choose|j: int| 0 <= j < a.len() && a[j] == y;
        assert(x == y);
        let s = a.drop_last();
        let t = b.drop_last();
        assert forall|c: char| #[trigger] s.contains(c) <==> t.contains(c) by {
            if s.contains(c) {
                let k = choose|k: int| 0 <= k < s.len() && s[k] == c;
                assert(a[k] == c);
                assert(c < x);
                assert(a.contains(c));
                assert(b.contains(c));
                let l = choose|l: int| 0 <= l < b.len() && b[l] == c;
                assert(t[l] == c);
            }
            if t.contains(c) {
                let k = choose|k: int| 0 <= k < t.len() && t[k] == c;
                assert(b[k] == c);
                assert(c < x);
                assert(b.contains(c));
                assert(a.contains(c));
                let l = choose|l: int| 0 <= l < a.len() && a[l] == c;
                assert(s[l] == c);
            }
        }
        lemma_ascending_unique(s, t);
        assert(a =~= s.push(x));
        assert(b =~= t.push(x));
    }
}

/// Whether the same characters occur in two collections of documents.
pub open spec fn same_characters(docs: Seq<Seq<char>>, others: Seq<Seq<char>>) -> bool {
    forall|c: char| #[trigger] occurs(docs, c) <==> occurs(others, c)
}

/// Shuffling documents keeps the characters that occur in them.
pub proof fn law_shuffled_documents_have_the_same_characters(
    docs: Seq<Seq<char>>,
    shuffled: Seq<Seq<char>>,
)
    requires
        docs.to_multiset() == shuffled.to_multiset(),
    ensures
        same_characters(docs, shuffled),
{
    broadcast use vstd::seq_lib::group_to_multiset_ensures;

    assert forall|c: char| #[trigger] occurs(docs, c) <==> occurs(shuffled, c) by {
        if occurs(docs, c) {
            let i = choose|i: int| 0 <= i < docs.len() && (#[trigger] docs[i]).contains(c);
            assert(docs.contains(docs[i]));
            assert(shuffled.to_multiset().count(docs[i]) > 0);
            assert(shuffled.contains(docs[i]));
            let j = choose|j: int| 0 <= j < shuffled.len() && shuffled[j] == docs[i];
            assert(shuffled[j].contains(c));
        }
        if occurs(shuffled, c) {
            let i = choose|i: int| 0 <= i < shuffled.len() && (#[trigger] shuffled[i]).contains(c);
            assert(shuffled.contains(shuffled[i]));
            assert(docs.to_multiset().count(shuffled[i]) > 0);
            assert(docs.contains(shuffled[i]));
            let j = choose|j: int| 0 <= j < docs.len() && docs[j] == shuffled[i];
            assert(docs[j].contains(c));
        }
    }
}

/// The tokenizer depends on nothing but which characters occur in the documents, so not
/// on their order or on how often they come.
pub proof fn law_tokenizer_ignores_order(
    t: Tokenizer,
    u: Tokenizer,
    docs: Seq<Seq<char>>,
    others: Seq<Seq<char>>,
)
    requires
        t.fits(docs),
        u.fits(others),
        same_characters(docs, others),
    ensures
        t.uchars@ == u.uchars@,
        t.bos == u.bos,
        t.vocab_size == u.vocab_size,
{
    assert forall|c: char| #[trigger] t.uchars@.contains(c) <==> u.uchars@.contains(c) by {
        assert(occurs(docs, c) <==> occurs(others, c));
        assert(u.uchars@.contains(c) <==> occurs(others, c));
    }
    lemma_ascending_unique(t.uchars@, u.uchars@);
}

/// A tokenizer has the characters of its documents and no others, each once and in
/// ascending order; the mark is the token after the last.
pub proof fn law_tokenizer_has_just_the_characters(tok: Tokenizer, docs: Seq<Seq<char>>)
    requires
        tok.fits(docs),
    ensures
        forall|k: int, i: int|
            0 <= k < docs.len() && 0 <= i < docs[k].len() ==> tok.uchars@.contains(
                #[trigger] docs[k][i],
            ),
        forall|c: char| #[trigger]
            tok.uchars@.contains(c) ==> exists|k: int|
                0 <= k < docs.len() && (#[trigger] docs[k]).contains(c),
        forall|p: int, q: int|
            0 <= p < q < tok.uchars@.len() ==> #[trigger] tok.uchars@[p]
                < #[trigger] tok.uchars@[q],
        tok.bos == tok.uchars@.len(),
        tok.vocab_size == tok.uchars@.len() + 1,
{
    assert forall|k: int, i: int| 0 <= k < docs.len() && 0 <= i < docs[k].len() implies
        tok.uchars@.contains(#[trigger] docs[k][i]) by {
        assert(docs[k].contains(docs[k][i]));
        assert(occurs(docs, docs[k][i]));
    }
}

/// A document is covered where every one of its characters stands somewhere among the
/// characters with a token.
pub proof fn law_covered(uchars: Seq<char>, doc: Seq<char>)
    ensures
        covered(uchars, doc) <==> forall|i: int|
            0 <= i < doc.len() ==> uchars.contains(#[trigger] doc[i]),
{
}

/// Encoding gives one token for each character, between two end marks: the first position
/// at which the character stands, whatever the length of the document.
pub proof fn law_encoding(uchars: Seq<char>, bos: usize, doc: Seq<char>)
    requires
        covered(uchars, doc),
        uchars.len() <= usize::MAX,
    ensures
        ({
            let tokens = encoded(uchars, bos, doc);
            &&& tokens.len() == doc.len() + 2
            &&& tokens[0] == bos
            &&& tokens[doc.len() as int + 1] == bos
            &&& forall|i: int|
                0 <= i < doc.len() ==> (#[trigger] tokens[i + 1]) < uchars.len()
                    && uchars[tokens[i + 1] as int] == doc[i]
            &&& forall|i: int, p: int|
                0 <= i < doc.len() && 0 <= p < tokens[i + 1] ==> #[trigger] uchars[p]
                    != #[trigger] doc[i]
        }),
{
    let tokens = encoded(uchars, bos, doc);
    assert forall|i: int| 0 <= i < doc.len() implies (#[trigger] tokens[i + 1]) < uchars.len()
        && uchars[tokens[i + 1] as int] == doc[i] by {
        assert(uchars.contains(doc[i]));
        lemma_first_place(uchars, doc[i]);
    }
    assert forall|i: int, p: int| 0 <= i < doc.len() && 0 <= p < tokens[i + 1] implies #[trigger] uchars[p]
        != #[trigger] doc[i] by {
        assert(uchars.contains(doc[i]));
        lemma_first_place(uchars, doc[i]);
    }
}

} // verus!
