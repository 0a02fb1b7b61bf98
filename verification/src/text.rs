//! Text handling: lines, words, numbers and the order of strings.

use vstd::prelude::*;

verus! {

/// `String::push` appends one character.
pub assume_specification[ String::push ](s: &mut String, c: char)
    ensures
        final(s)@ == old(s)@.push(c),
;

/// The characters of a string.
pub fn chars_of(s: &str) -> (chars: Vec<char>)
    ensures
        chars@ == s@,
{
    let mut chars: Vec<char> = Vec::new();
    for c in it: s.chars()
        invariant
            it.seq() == s@,
            chars@ == s@.take(it.index() as int),
    {
        chars.push(c);
        assert(s@.take(it.index() as int + 1) =~= s@.take(it.index() as int).push(c));
    }
    assert(s@.take(s@.len() as int) =~= s@);
    chars
}

/// The string made of the characters from `from` up to `to`.
pub fn string_of(chars: &Vec<char>, from: usize, to: usize) -> (s: String)
    requires
        from <= to <= chars@.len(),
    ensures
        s@ == chars@.subrange(from as int, to as int),
{
    let mut s = String::new();
    let mut i: usize = from;
    while i < to
        invariant
            from <= i <= to <= chars@.len(),
            s@ == chars@.subrange(from as int, i as int),
        decreases to - i,
    {
        s.push(chars[i]);
        i += 1;
        assert(chars@.subrange(from as int, i as int) =~= chars@.subrange(
            from as int,
            i - 1,
        ).push(chars@[i - 1]));
    }
    s
}

/// Whether a character has the Unicode property `White_Space`.
pub open spec fn is_space(c: char) -> bool {
    ||| '\u{9}' <= c <= '\u{d}'
    ||| c == '\u{20}'
    ||| c == '\u{85}'
    ||| c == '\u{a0}'
    ||| c == '\u{1680}'
    ||| '\u{2000}' <= c <= '\u{200a}'
    ||| c == '\u{2028}'
    ||| c == '\u{2029}'
    ||| c == '\u{202f}'
    ||| c == '\u{205f}'
    ||| c == '\u{3000}'
}

/// Whether a character has the Unicode property `White_Space`.
pub fn is_whitespace(c: char) -> (b: bool)
    ensures
        b == is_space(c),
{
    ('\u{9}' <= c && c <= '\u{d}') || c == '\u{20}' || c == '\u{85}' || c == '\u{a0}' || c
        == '\u{1680}' || ('\u{2000}' <= c && c <= '\u{200a}') || c == '\u{2028}' || c == '\u{2029}'
        || c == '\u{202f}' || c == '\u{205f}' || c == '\u{3000}'
}

/// The contents of some strings.
pub open spec fn views(strings: Seq<String>) -> Seq<Seq<char>> {
    Seq::new(strings.len(), |i: int| strings[i]@)
}

/// How many characters at the start of `s` satisfy `p`, before the first that does not.
pub open spec fn leading(s: Seq<char>, p: spec_fn(char) -> bool) -> nat
    decreases s.len(),
{
    if s.len() > 0 && p(s[0]) {
        1 + leading(s.drop_first(), p)
    } else {
        0
    }
}

/// Any character but `c`.
pub open spec fn other_than(c: char) -> spec_fn(char) -> bool {
    |x: char| x != c
}

/// White space.
pub open spec fn blank() -> spec_fn(char) -> bool {
    |x: char| is_space(x)
}

/// Anything but white space.
pub open spec fn solid() -> spec_fn(char) -> bool {
    |x: char| !is_space(x)
}

/// What `leading` counts.
pub proof fn lemma_leading(s: Seq<char>, p: spec_fn(char) -> bool)
    ensures
        leading(s, p) <= s.len(),
        forall|i: int| 0 <= i < leading(s, p) ==> p(#[trigger] s[i]),
        leading(s, p) < s.len() ==> !p(s[leading(s, p) as int]),
    decreases s.len(),
{
    if s.len() > 0 && p(s[0]) {
        let t = s.drop_first();
        lemma_leading(t, p);
        assert forall|i: int| 0 <= i < leading(s, p) implies p(#[trigger] s[i]) by {
            if i > 0 {
                assert(t[i - 1] == s[i]);
            }
        }
    }
}

/// Nothing else is the number that `leading` counts.
pub proof fn lemma_leading_is(s: Seq<char>, p: spec_fn(char) -> bool, n: nat)
    requires
        n <= s.len(),
        forall|i: int| 0 <= i < n ==> p(#[trigger] s[i]),
        n < s.len() ==> !p(s[n as int]),
    ensures
        leading(s, p) == n,
{
    lemma_leading(s, p);
    let m = leading(s, p);
    if m < n {
        assert(p(s[m as int]));
    }
}

/// `s` without the white space at its start.
pub open spec fn trim_start(s: Seq<char>) -> Seq<char> {
    s.skip(leading(s, blank()) as int)
}

/// `s` without the white space at its end.
pub open spec fn trim_end(s: Seq<char>) -> Seq<char>
    decreases s.len(),
{
    if s.len() > 0 && is_space(s.last()) {
        trim_end(s.drop_last())
    } else {
        s
    }
}

/// `s` without the white space at its start and at its end.
pub open spec fn trimmed(s: Seq<char>) -> Seq<char> {
    trim_end(trim_start(s))
}

/// A line without the carriage return that belongs to its line ending.
pub open spec fn without_return(line: Seq<char>) -> Seq<char> {
    if line.len() > 0 && line.last() == '\r' {
        line.drop_last()
    } else {
        line
    }
}

/// The lines of a text. A line ends with a line feed, or with a carriage return
/// and a line feed; the last one may lack its ending.
pub open spec fn lines_of(s: Seq<char>) -> Seq<Seq<char>>
    decreases s.len(),
{
    let n = leading(s, other_than('\n'));
    if s.len() == 0 {
        Seq::empty()
    } else if n < s.len() {
        seq![without_return(s.take(n as int))] + lines_of(s.skip(n as int + 1))
    } else {
        seq![s]
    }
}

/// The words of a text: its longest stretches without white space.
pub open spec fn words_of(s: Seq<char>) -> Seq<Seq<char>>
    decreases s.len(),
{
    let t = trim_start(s);
    let n = leading(t, solid());
    if t.len() == 0 || n == 0 {
        Seq::empty()
    } else {
        proof {
            lemma_leading(s, blank());
            lemma_leading(t, solid());
        }
        seq![t.take(n as int)] + words_of(t.skip(n as int))
    }
}

/// What stands before and after the first space; nothing stands after it where
/// there is none.
pub open spec fn split_at_space(s: Seq<char>) -> (Seq<char>, Seq<char>) {
    let n = leading(s, other_than(' '));
    (
        s.take(n as int),
        if n < s.len() {
            s.skip(n as int + 1)
        } else {
            Seq::empty()
        },
    )
}

/// Whether `part` occurs in `s`.
pub open spec fn has_part(s: Seq<char>, part: Seq<char>) -> bool {
    exists|i: int| part_at(s, part, i)
}

/// Whether `part` occurs in `s` at position `i`.
pub open spec fn part_at(s: Seq<char>, part: Seq<char>, i: int) -> bool {
    0 <= i && i + part.len() <= s.len() && s.subrange(i, i + part.len()) == part
}

/// The decimal digit `d`.
pub open spec fn digit(d: nat) -> char {
    if d == 0 {
        '0'
    } else if d == 1 {
        '1'
    } else if d == 2 {
        '2'
    } else if d == 3 {
        '3'
    } else if d == 4 {
        '4'
    } else if d == 5 {
        '5'
    } else if d == 6 {
        '6'
    } else if d == 7 {
        '7'
    } else if d == 8 {
        '8'
    } else {
        '9'
    }
}

/// A number in decimal notation.
pub open spec fn decimal(n: nat) -> Seq<char>
    decreases n,
{
    if n < 10 {
        seq![digit(n)]
    } else {
        decimal(n / 10).push(digit(n % 10))
    }
}

/// Decimal notation has at least one character, and only digits.
pub proof fn lemma_decimal_digits(n: nat)
    ensures
        decimal(n).len() > 0,
        forall|i: int| 0 <= i < decimal(n).len() ==> '0' <= #[trigger] decimal(n)[i] <= '9',
    decreases n,
{
    if n >= 10 {
        lemma_decimal_digits(n / 10);
    }
}

/// Different numbers have different decimal notations.
pub proof fn lemma_decimal_injective(m: nat, n: nat)
    requires
        decimal(m) == decimal(n),
    ensures
        m == n,
    decreases m,
{
    lemma_decimal_digits(m / 10);
    lemma_decimal_digits(n / 10);
    assert(decimal(m).last() == digit(m % 10));
    assert(decimal(n).last() == digit(n % 10));
    if m >= 10 && n >= 10 {
        assert(decimal(m).drop_last() =~= decimal(m / 10));
        assert(decimal(n).drop_last() =~= decimal(n / 10));
        lemma_decimal_injective(m / 10, n / 10);
    } else {
        assert(decimal(m).len() == decimal(n).len());
    }
}

/// Whether `a` comes before `b` in the order of strings.
pub open spec fn before(a: Seq<char>, b: Seq<char>) -> bool
    decreases a.len(),
{
    if b.len() == 0 {
        false
    } else if a.len() == 0 {
        true
    } else if a[0] == b[0] {
        before(a.drop_first(), b.drop_first())
    } else {
        a[0] < b[0]
    }
}

/// Whether the strings stand in order, none twice.
pub open spec fn strictly_sorted(names: Seq<Seq<char>>) -> bool {
    forall|i: int, j: int|
        0 <= i < j < names.len() ==> before(#[trigger] names[i], #[trigger] names[j])
}

/// `s` without the white space at both ends.
pub fn trim(s: &str) -> (t: String)
    ensures
        t@ == trimmed(s@),
{
    let chars = chars_of(s);
    let n: usize = chars.len();
    let mut from: usize = 0;
    while from < n && is_whitespace(chars[from])
        invariant
            n == chars@.len(),
            from <= n,
            forall|i: int| 0 <= i < from ==> is_space(#[trigger] chars@[i]),
        decreases n - from,
    {
        from += 1;
    }
    proof {
        lemma_leading_is(chars@, blank(), from as nat);
    }
    let ghost start = trim_start(chars@);
    let mut to: usize = n;
    assert(chars@.subrange(from as int, to as int) =~= start);
    while from < to && is_whitespace(chars[to - 1])
        invariant
            n == chars@.len(),
            from <= to <= n,
            trim_end(chars@.subrange(from as int, to as int)) == trim_end(start),
        decreases to - from,
    {
        assert(chars@.subrange(from as int, to as int).drop_last() =~= chars@.subrange(
            from as int,
            to - 1,
        ));
        to -= 1;
    }
    string_of(&chars, from, to)
}

/// The lines of a text.
pub fn lines(s: &str) -> (out: Vec<String>)
    ensures
        views(out@) == lines_of(s@),
{
    let chars = chars_of(s);
    let n: usize = chars.len();
    let mut out: Vec<String> = Vec::new();
    let mut i: usize = 0;
    assert(chars@.skip(0) =~= chars@);
    assert(views(out@) + lines_of(chars@) =~= lines_of(chars@));
    while i < n
        invariant
            n == chars@.len(),
            i <= n,
            views(out@) + lines_of(chars@.skip(i as int)) == lines_of(chars@),
        decreases n - i,
    {
        let ghost rest = chars@.skip(i as int);
        let ghost done = views(out@);
        let mut j: usize = i;
        while j < n && chars[j] != '\n'
            invariant
                n == chars@.len(),
                i <= j <= n,
                forall|k: int| i <= k < j ==> (#[trigger] chars@[k]) != '\n',
            decreases n - j,
        {
            j += 1;
        }
        proof {
            lemma_leading_is(rest, other_than('\n'), (j - i) as nat);
        }
        if j < n {
            let mut to: usize = j;
            if i < j && chars[j - 1] == '\r' {
                to = j - 1;
            }
            let line = string_of(&chars, i, to);
            assert(rest.take(j - i) =~= chars@.subrange(i as int, j as int));
            assert(line@ =~= without_return(rest.take(j - i)));
            assert(rest.skip(j - i + 1) =~= chars@.skip(j + 1));
            out.push(line);
            assert(views(out@) =~= done.push(line@));
            i = j + 1;
            assert(views(out@) + lines_of(chars@.skip(i as int)) =~= done + lines_of(rest));
        } else {
            let line = string_of(&chars, i, n);
            assert(line@ =~= rest);
            out.push(line);
            assert(views(out@) =~= done.push(line@));
            i = n;
            assert(chars@.skip(n as int).len() == 0);
            assert(views(out@) + lines_of(chars@.skip(i as int)) =~= done + lines_of(rest));
        }
    }
    assert(views(out@) + lines_of(chars@.skip(n as int)) =~= views(out@));
    out
}

/// The words of a text.
pub fn words(s: &str) -> (out: Vec<String>)
    ensures
        views(out@) == words_of(s@),
{
    let chars = chars_of(s);
    let n: usize = chars.len();
    let mut out: Vec<String> = Vec::new();
    let mut i: usize = 0;
    let mut more: bool = true;
    assert(chars@.skip(0) =~= chars@);
    assert(views(out@) + words_of(chars@) =~= words_of(chars@));
    while more
        invariant
            n == chars@.len(),
            i <= n,
            more ==> views(out@) + words_of(chars@.skip(i as int)) == words_of(chars@),
            !more ==> views(out@) == words_of(chars@),
        decreases n - i + if more {
            1int
        } else {
            0
        },
    {
        let ghost rest = chars@.skip(i as int);
        let ghost done = views(out@);
        let mut j: usize = i;
        while j < n && is_whitespace(chars[j])
            invariant
                n == chars@.len(),
                i <= j <= n,
                forall|k: int| i <= k < j ==> is_space(#[trigger] chars@[k]),
            decreases n - j,
        {
            j += 1;
        }
        proof {
            lemma_leading_is(rest, blank(), (j - i) as nat);
        }
        let ghost word = trim_start(rest);
        assert(word =~= chars@.skip(j as int));
        let mut k: usize = j;
        while k < n && !is_whitespace(chars[k])
            invariant
                n == chars@.len(),
                j <= k <= n,
                forall|l: int| j <= l < k ==> !is_space(#[trigger] chars@[l]),
            decreases n - k,
        {
            k += 1;
        }
        proof {
            lemma_leading_is(word, solid(), (k - j) as nat);
        }
        if j == k {
            assert(views(out@) + words_of(rest) =~= views(out@));
            more = false;
        } else {
            let w = string_of(&chars, j, k);
            assert(w@ =~= word.take(k - j));
            assert(word.skip(k - j) =~= chars@.skip(k as int));
            out.push(w);
            assert(views(out@) =~= done.push(w@));
            i = k;
            assert(views(out@) + words_of(chars@.skip(i as int)) =~= done + words_of(rest));
        }
    }
    out
}

/// What stands before and after the first space.
pub fn split_once(s: &str) -> (parts: (String, String))
    ensures
        parts.0@ == split_at_space(s@).0,
        parts.1@ == split_at_space(s@).1,
{
    let chars = chars_of(s);
    let n: usize = chars.len();
    let mut j: usize = 0;
    while j < n && chars[j] != ' '
        invariant
            n == chars@.len(),
            j <= n,
            forall|k: int| 0 <= k < j ==> (#[trigger] chars@[k]) != ' ',
        decreases n - j,
    {
        j += 1;
    }
    proof {
        lemma_leading_is(chars@, other_than(' '), j as nat);
    }
    let head = string_of(&chars, 0, j);
    assert(head@ =~= chars@.take(j as int));
    if j < n {
        let tail = string_of(&chars, j + 1, n);
        assert(tail@ =~= chars@.skip(j + 1));
        (head, tail)
    } else {
        (head, String::new())
    }
}

/// Whether `part` occurs in `s`.
pub fn contains(s: &str, part: &str) -> (b: bool)
    ensures
        b == has_part(s@, part@),
{
    let chars = chars_of(s);
    let wanted = chars_of(part);
    let n: usize = chars.len();
    let m: usize = wanted.len();
    let mut i: usize = 0;
    while m <= n - i
        invariant
            chars@ == s@,
            wanted@ == part@,
            n == chars@.len(),
            m == wanted@.len(),
            i <= n,
            forall|j: int| 0 <= j < i ==> !part_at(chars@, wanted@, j),
        decreases n - i,
    {
        let mut k: usize = 0;
        while k < m && chars[i + k] == wanted[k]
            invariant
                n == chars@.len(),
                m == wanted@.len(),
                i + m <= n,
                k <= m,
                forall|l: int| 0 <= l < k ==> chars@[i + l] == #[trigger] wanted@[l],
            decreases m - k,
        {
            k += 1;
        }
        if k == m {
            assert(chars@.subrange(i as int, i + m) =~= wanted@);
            assert(part_at(chars@, wanted@, i as int));
            return true;
        }
        assert(!part_at(chars@, wanted@, i as int)) by {
            if part_at(chars@, wanted@, i as int) {
                assert(chars@.subrange(i as int, i + m)[k as int] == wanted@[k as int]);
            }
        }
        i += 1;
    }
    false
}

/// The decimal digit `d`.
fn digit_char(d: usize) -> (c: char)
    ensures
        c == digit(d as nat),
{
    if d == 0 {
        '0'
    } else if d == 1 {
        '1'
    } else if d == 2 {
        '2'
    } else if d == 3 {
        '3'
    } else if d == 4 {
        '4'
    } else if d == 5 {
        '5'
    } else if d == 6 {
        '6'
    } else if d == 7 {
        '7'
    } else if d == 8 {
        '8'
    } else {
        '9'
    }
}

/// Appends a number in decimal notation.
pub fn push_decimal(s: &mut String, n: usize)
    ensures
        final(s)@ == old(s)@ + decimal(n as nat),
    decreases n,
{
    let ghost start = s@;
    if n >= 10 {
        push_decimal(s, n / 10);
    }
    s.push(digit_char(n % 10));
    assert(s@ =~= start + decimal(n as nat));
}

/// Whether `a` comes before `b` in the order of strings.
pub fn is_before(a: &str, b: &str) -> (r: bool)
    ensures
        r == before(a@, b@),
{
    let left = chars_of(a);
    let right = chars_of(b);
    let mut i: usize = 0;
    assert(left@.skip(0) =~= left@);
    assert(right@.skip(0) =~= right@);
    while i < left.len() && i < right.len() && left[i] == right[i]
        invariant
            i <= left@.len(),
            i <= right@.len(),
            before(left@, right@) == before(left@.skip(i as int), right@.skip(i as int)),
        decreases left@.len() - i,
    {
        assert(left@.skip(i as int).drop_first() =~= left@.skip(i + 1));
        assert(right@.skip(i as int).drop_first() =~= right@.skip(i + 1));
        i += 1;
    }
    if i == right.len() {
        false
    } else if i == left.len() {
        true
    } else {
        left[i] < right[i]
    }
}

/// Whether two strings hold the same characters.
pub fn same(a: &str, b: &str) -> (r: bool)
    ensures
        r == (a@ == b@),
{
    let left = chars_of(a);
    let right = chars_of(b);
    if left.len() != right.len() {
        return false;
    }
    let mut i: usize = 0;
    while i < left.len()
        invariant
            left@ == a@,
            right@ == b@,
            left@.len() == right@.len(),
            i <= left@.len(),
            forall|k: int| 0 <= k < i ==> #[trigger] left@[k] == right@[k],
        decreases left@.len() - i,
    {
        if left[i] != right[i] {
            return false;
        }
        i += 1;
    }
    assert(left@ =~= right@);
    true
}

/// A line feed ends a line, and so does one after a carriage return; what follows is
/// split in the same way.
pub proof fn law_a_line_feed_ends_a_line(line: Seq<char>, rest: Seq<char>)
    requires
        forall|i: int| 0 <= i < line.len() ==> (#[trigger] line[i]) != '\n',
    ensures
        ({
            let found = lines_of(line + seq!['\n'] + rest);
            let first = if line.len() > 0 && line[line.len() - 1] == '\r' {
                line.take(line.len() - 1)
            } else {
                line
            };
            &&& found.len() == 1 + lines_of(rest).len()
            &&& found[0] == first
            &&& found.drop_first() == lines_of(rest)
        }),
{
    let s = line + seq!['\n'] + rest;
    assert forall|i: int| 0 <= i < line.len() implies (other_than('\n'))(#[trigger] s[i]) by {
        assert(s[i] == line[i]);
    }
    assert(s[line.len() as int] == '\n');
    lemma_leading_is(s, other_than('\n'), line.len());
    assert(s.take(line.len() as int) =~= line);
    assert(s.skip(line.len() as int + 1) =~= rest);
    assert(lines_of(s).drop_first() =~= lines_of(rest));
    if line.len() > 0 && line.last() == '\r' {
        assert(line.drop_last() =~= line.take(line.len() - 1));
    }
}

/// What has no line feed is one line as it is, or none where it is empty.
pub proof fn law_the_last_line(line: Seq<char>)
    requires
        forall|i: int| 0 <= i < line.len() ==> (#[trigger] line[i]) != '\n',
    ensures
        line.len() == 0 ==> lines_of(line).len() == 0,
        line.len() > 0 ==> lines_of(line).len() == 1 && lines_of(line)[0] == line,
{
    assert forall|i: int| 0 <= i < line.len() implies (other_than('\n'))(#[trigger] line[i]) by {}
    lemma_leading_is(line, other_than('\n'), line.len());
}

proof fn lemma_trim_end(s: Seq<char>) -> (to: int)
    ensures
        0 <= to <= s.len(),
        trim_end(s) == s.take(to),
        forall|i: int| to <= i < s.len() ==> is_space(#[trigger] s[i]),
        to > 0 ==> !is_space(s[to - 1]),
    decreases s.len(),
{
    if s.len() > 0 && is_space(s.last()) {
        let t = s.drop_last();
        let to = lemma_trim_end(t);
        assert(t.take(to) =~= s.take(to));
        assert forall|i: int| to <= i < s.len() implies is_space(#[trigger] s[i]) by {
            if i < t.len() {
                assert(t[i] == s[i]);
            }
        }
        if to > 0 {
            assert(t[to - 1] == s[to - 1]);
        }
        to
    } else {
        assert(s.take(s.len() as int) =~= s);
        s.len() as int
    }
}

/// Trimming leaves the part between two positions: everything before and after it is
/// white space, and it starts and ends with something else, unless it is empty.
pub proof fn law_trimming(s: Seq<char>) -> (ends: (int, int))
    ensures
        0 <= ends.0 <= ends.1 <= s.len(),
        trimmed(s) == s.subrange(ends.0, ends.1),
        forall|i: int| 0 <= i < ends.0 ==> is_space(#[trigger] s[i]),
        forall|i: int| ends.1 <= i < s.len() ==> is_space(#[trigger] s[i]),
        ends.0 < ends.1 ==> !is_space(s[ends.0]) && !is_space(s[ends.1 - 1]),
{
    lemma_leading(s, blank());
    let from = leading(s, blank()) as int;
    let t = trim_start(s);
    let to = lemma_trim_end(t);
    assert(trimmed(s) =~= s.subrange(from, from + to));
    assert forall|i: int| 0 <= i < from implies is_space(#[trigger] s[i]) by {
        assert((blank())(s[i]));
    }
    assert forall|i: int| from + to <= i < s.len() implies is_space(#[trigger] s[i]) by {
        assert(t[i - from] == s[i]);
    }
    if to > 0 {
        assert(!(blank())(s[from]));
        assert(t[to - 1] == s[from + to - 1]);
    }
    (from, from + to)
}

/// A stretch without white space, with white space or nothing on both sides, is a word;
/// white space alone has no words.
pub proof fn law_words(gap: Seq<char>, word: Seq<char>, rest: Seq<char>)
    requires
        forall|i: int| 0 <= i < gap.len() ==> is_space(#[trigger] gap[i]),
        word.len() > 0,
        forall|i: int| 0 <= i < word.len() ==> !is_space(#[trigger] word[i]),
        rest.len() > 0 ==> is_space(rest[0]),
    ensures
        words_of(gap).len() == 0,
        words_of(gap + word + rest).len() == 1 + words_of(rest).len(),
        words_of(gap + word + rest)[0] == word,
        words_of(gap + word + rest).drop_first() == words_of(rest),
{
    assert forall|i: int| 0 <= i < gap.len() implies (blank())(#[trigger] gap[i]) by {}
    lemma_leading_is(gap, blank(), gap.len());
    assert(trim_start(gap).len() == 0);
    let s = gap + word + rest;
    assert forall|i: int| 0 <= i < gap.len() implies (blank())(#[trigger] s[i]) by {
        assert(s[i] == gap[i]);
    }
    assert(s[gap.len() as int] == word[0]);
    lemma_leading_is(s, blank(), gap.len());
    let t = word + rest;
    assert(trim_start(s) =~= t);
    assert forall|i: int| 0 <= i < word.len() implies (solid())(#[trigger] t[i]) by {
        assert(t[i] == word[i]);
    }
    if rest.len() > 0 {
        assert(t[word.len() as int] == rest[0]);
    }
    lemma_leading_is(t, solid(), word.len());
    assert(t.take(word.len() as int) =~= word);
    assert(t.skip(word.len() as int) =~= rest);
    assert(words_of(s).drop_first() =~= words_of(rest));
}

/// A string splits at its first space.
pub proof fn law_split(first: Seq<char>, second: Seq<char>)
    requires
        forall|i: int| 0 <= i < first.len() ==> (#[trigger] first[i]) != ' ',
    ensures
        split_at_space(first + seq![' '] + second) == (first, second),
        split_at_space(first) == (first, Seq::<char>::empty()),
{
    let s = first + seq![' '] + second;
    assert forall|i: int| 0 <= i < first.len() implies (other_than(' '))(#[trigger] s[i]) by {
        assert(s[i] == first[i]);
    }
    assert(s[first.len() as int] == ' ');
    lemma_leading_is(s, other_than(' '), first.len());
    assert(s.take(first.len() as int) =~= first);
    assert(s.skip(first.len() as int + 1) =~= second);
    assert forall|i: int| 0 <= i < first.len() implies (other_than(' '))(#[trigger] first[i]) by {}
    lemma_leading_is(first, other_than(' '), first.len());
    assert(first.take(first.len() as int) =~= first);
}

/// Strings are ordered by the first character in which they differ; one that ends before
/// comes first.
pub proof fn law_order_of_strings(a: Seq<char>, b: Seq<char>, k: int)
    requires
        0 <= k <= a.len(),
        k <= b.len(),
        forall|i: int| 0 <= i < k ==> #[trigger] a[i] == b[i],
    ensures
        k == b.len() ==> !before(a, b),
        k == a.len() && k < b.len() ==> before(a, b),
        k < a.len() && k < b.len() && a[k] < b[k] ==> before(a, b),
        k < a.len() && k < b.len() && b[k] < a[k] ==> !before(a, b),
    decreases k,
{
    if k > 0 {
        let (s, t) = (a.drop_first(), b.drop_first());
        assert(a[0] == b[0]);
        assert forall|i: int| 0 <= i < k - 1 implies #[trigger] s[i] == t[i] by {
            assert(a[i + 1] == b[i + 1]);
        }
        law_order_of_strings(s, t, k - 1);
    }
}

/// The number that some decimal digits stand for.
pub open spec fn number_of(digits: Seq<char>) -> int
    decreases digits.len(),
{
    if digits.len() == 0 {
        0
    } else {
        number_of(digits.drop_last()) * 10 + (digits.last() as int - '0' as int)
    }
}

/// Decimal notation stands for its number, and has no needless zero at its start.
pub proof fn law_decimal_notation(n: nat)
    ensures
        number_of(decimal(n)) == n,
        forall|i: int| 0 <= i < decimal(n).len() ==> '0' <= #[trigger] decimal(n)[i] <= '9',
        n < 10 ==> decimal(n).len() == 1,
        n > 0 ==> decimal(n)[0] != '0',
    decreases n,
{
    lemma_decimal_digits(n);
    if n < 10 {
        assert(decimal(n).drop_last() =~= Seq::<char>::empty());
        assert(number_of(decimal(n).drop_last()) == 0);
        assert(decimal(n).last() == digit(n));
        assert(digit(n) as int - '0' as int == n);
    } else {
        law_decimal_notation(n / 10);
        lemma_decimal_digits(n / 10);
        assert(decimal(n).drop_last() =~= decimal(n / 10));
        assert(decimal(n)[0] == decimal(n / 10)[0]);
        assert(decimal(n).last() == digit(n % 10));
        assert(digit(n % 10) as int - '0' as int == n % 10);
    }
}

/// A string contains another where some part of it is the other.
pub proof fn law_parts(s: Seq<char>, part: Seq<char>, i: int)
    ensures
        0 <= i <= s.len() - part.len() && s.subrange(i, i + part.len()) == part ==> has_part(
            s,
            part,
        ),
        has_part(s, part) ==> exists|k: int|
            0 <= k <= s.len() - part.len() && #[trigger] s.subrange(k, k + part.len()) == part,
{
    if 0 <= i <= s.len() - part.len() && s.subrange(i, i + part.len()) == part {
        assert(part_at(s, part, i));
    }
    if has_part(s, part) {
        let k = choose|k: int| part_at(s, part, k);
        assert(s.subrange(k, k + part.len()) == part);
    }
}

} // verus!
