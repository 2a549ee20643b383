//! Text as sequences of characters: white space, words, lines and string building.

use vstd::prelude::*;
use vstd::slice::slice_subrange;
use vstd::string::*;
use vstd::utf8::*;

verus! {

/// `String::push` of std: appends one character.
pub assume_specification[ String::push ](s: &mut String, c: char)
    ensures
        final(s)@ == old(s)@.push(c),
;

/// Whether two strings hold the same characters.
pub(crate) fn same_text(a: &str, b: &str) -> (r: bool)
    ensures
        r == (a@ == b@),
{
    let x: &[u8] = a.as_bytes();
    let y: &[u8] = b.as_bytes();
    proof {
        encode_utf8_decode_utf8(a@);
        encode_utf8_decode_utf8(b@);
    }
    if x.len() != y.len() {
        return false;
    }
    let mut i: usize = 0;
    while i < x.len()
        invariant
            i <= x@.len(),
            x@.len() == y@.len(),
            x@ == encode_utf8(a@),
            y@ == encode_utf8(b@),
            forall|j: int| 0 <= j < i ==> x@[j] == y@[j],
        decreases x@.len() - i,
    {
        if x[i] != y[i] {
            return false;
        }
        i += 1;
    }
    assert(x@ =~= y@);
    true
}

/// Whether one string comes before another.
pub(crate) fn text_less(a: &str, b: &str) -> (r: bool)
    ensures
        r == before(a@, b@),
{
    if a.is_ascii() && b.is_ascii() {
        return ascii_less(a, b);
    }
    let x: Vec<char> = chars_of(a);
    let y: Vec<char> = chars_of(b);
    let mut i: usize = 0;
    assert(x@.skip(0) =~= x@);
    assert(y@.skip(0) =~= y@);
    while i < x.len() && i < y.len()
        invariant
            x@ == a@,
            y@ == b@,
            i <= x@.len(),
            i <= y@.len(),
            before(x@, y@) == before(x@.skip(i as int), y@.skip(i as int)),
        decreases x@.len() - i,
    {
        assert(x@.skip(i as int)[0] == x@[i as int]);
        assert(y@.skip(i as int)[0] == y@[i as int]);
        if x[i] != y[i] {
            return x[i] < y[i];
        }
        assert(x@.skip(i as int).drop_first() =~= x@.skip(i + 1));
        assert(y@.skip(i as int).drop_first() =~= y@.skip(i + 1));
        i += 1;
    }
    i < y.len()
}

/// Whether one string comes before another, where both are made of single bytes.
fn ascii_less(a: &str, b: &str) -> (r: bool)
    requires
        is_ascii(a),
        is_ascii(b),
    ensures
        r == before(a@, b@),
{
    let x: &[u8] = a.as_bytes();
    let y: &[u8] = b.as_bytes();
    proof {
        is_ascii_spec_bytes(a);
        is_ascii_spec_bytes(b);
    }
    let mut i: usize = 0;
    assert(a@.skip(0) =~= a@);
    assert(b@.skip(0) =~= b@);
    while i < x.len() && i < y.len()
        invariant
            x@.len() == a@.len(),
            y@.len() == b@.len(),
            i <= x@.len(),
            i <= y@.len(),
            is_ascii(a),
            is_ascii(b),
            forall|j: int| 0 <= j < x@.len() ==> x@[j] == #[trigger] a@[j] as u8,
            forall|j: int| 0 <= j < y@.len() ==> y@[j] == #[trigger] b@[j] as u8,
            before(a@, b@) == before(a@.skip(i as int), b@.skip(i as int)),
        decreases x@.len() - i,
    {
        assert(a@.skip(i as int)[0] == a@[i as int]);
        assert(b@.skip(i as int)[0] == b@[i as int]);
        if x[i] != y[i] {
            return x[i] < y[i];
        }
        assert(a@.skip(i as int).drop_first() =~= a@.skip(i + 1));
        assert(b@.skip(i as int).drop_first() =~= b@.skip(i + 1));
        i += 1;
    }
    i < y.len()
}

/// Lexicographic order of texts by code points.
pub open spec fn before(a: Seq<char>, b: Seq<char>) -> bool
    decreases a.len(),
{
    if b.len() == 0 {
        false
    } else if a.len() == 0 {
        true
    } else if a[0] != b[0] {
        a[0] < b[0]
    } else {
        before(a.drop_first(), b.drop_first())
    }
}

/// No text comes before itself.
pub proof fn lemma_before_irreflexive(a: Seq<char>)
    ensures
        !before(a, a),
    decreases a.len(),
{
    if a.len() > 0 {
        lemma_before_irreflexive(a.drop_first());
    }
}

/// The order of texts is transitive.
pub proof fn lemma_before_transitive(a: Seq<char>, b: Seq<char>, c: Seq<char>)
    requires
        before(a, b),
        before(b, c),
    ensures
        before(a, c),
    decreases a.len(),
{
    if a.len() > 0 && a[0] == b[0] && b[0] == c[0] {
        lemma_before_transitive(a.drop_first(), b.drop_first(), c.drop_first());
    }
}

/// Of two different texts one comes before the other.
pub proof fn lemma_before_total(a: Seq<char>, b: Seq<char>)
    ensures
        before(a, b) || before(b, a) || a == b,
    decreases a.len(),
{
    if a.len() > 0 && b.len() > 0 && a[0] == b[0] {
        lemma_before_total(a.drop_first(), b.drop_first());
        if a.drop_first() == b.drop_first() {
            assert(a =~= seq![a[0]] + a.drop_first());
            assert(b =~= seq![b[0]] + b.drop_first());
        }
    } else if a.len() == 0 && b.len() == 0 {
        assert(a =~= b);
    }
}

/// The characters with the Unicode `White_Space` property.
pub open spec fn is_space(c: char) -> bool {
    ||| '\u{9}' <= c <= '\u{d}'
    ||| c == ' '
    ||| c == '\u{85}'
    ||| c == '\u{a0}'
    ||| c == '\u{1680}'
    ||| '\u{2000}' <= c <= '\u{200a}'
    ||| c == '\u{2028}'
    ||| c == '\u{2029}'
    ||| c == '\u{202f}'
    ||| c == '\u{205f}'
    ||| c == '\u{3000}'
}

/// The characters of the Unicode category `Cc`.
pub open spec fn is_control(c: char) -> bool {
    c <= '\u{1f}' || '\u{7f}' <= c <= '\u{9f}'
}

/// Whether a character is white space.
pub fn space(c: char) -> (r: bool)
    ensures
        r == is_space(c),
{
    (c >= '\u{9}' && c <= '\u{d}') || c == ' ' || c == '\u{85}' || c == '\u{a0}' || c == '\u{1680}'
        || (c >= '\u{2000}' && c <= '\u{200a}') || c == '\u{2028}' || c == '\u{2029}' || c
        == '\u{202f}' || c == '\u{205f}' || c == '\u{3000}'
}

/// Whether a character is a control character.
pub fn control(c: char) -> (r: bool)
    ensures
        r == is_control(c),
{
    c <= '\u{1f}' || (c >= '\u{7f}' && c <= '\u{9f}')
}

/// The text without its leading white space.
pub open spec fn trim_start(s: Seq<char>) -> Seq<char>
    decreases s.len(),
{
    if s.len() > 0 && is_space(s[0]) {
        trim_start(s.drop_first())
    } else {
        s
    }
}

/// The text without its trailing white space.
pub open spec fn trim_end(s: Seq<char>) -> Seq<char>
    decreases s.len(),
{
    if s.len() > 0 && is_space(s.last()) {
        trim_end(s.drop_last())
    } else {
        s
    }
}

/// The text without white space at either end.
pub open spec fn trim(s: Seq<char>) -> Seq<char> {
    trim_end(trim_start(s))
}

/// How many characters stand before the first white space.
pub open spec fn word_len(s: Seq<char>) -> nat
    decreases s.len(),
{
    if s.len() == 0 || is_space(s[0]) {
        0
    } else {
        1 + word_len(s.drop_first())
    }
}

/// The words of a text: its longest runs free of white space.
pub open spec fn words(s: Seq<char>) -> Seq<Seq<char>>
    decreases s.len(),
{
    let t = trim_start(s);
    if t.len() == 0 {
        Seq::empty()
    } else {
        proof {
            lemma_trim_start_len(s);
            lemma_word_len(t);
        }
        let n = word_len(t) as int;
        seq![t.take(n)] + words(t.skip(n))
    }
}

/// The position of the first `c`, or the length of the text where there is none.
pub open spec fn find_char(s: Seq<char>, c: char) -> nat
    decreases s.len(),
{
    if s.len() == 0 || s[0] == c {
        0
    } else {
        1 + find_char(s.drop_first(), c)
    }
}

pub proof fn lemma_trim_start_len(s: Seq<char>)
    ensures
        trim_start(s).len() <= s.len(),
        trim_start(s).len() > 0 ==> !is_space(trim_start(s)[0]),
        trim_start(s) == s.skip(s.len() - trim_start(s).len()),
        forall|i: int| 0 <= i < s.len() - trim_start(s).len() ==> is_space(s[i]),
    decreases s.len(),
{
    if s.len() > 0 && is_space(s[0]) {
        let d = s.drop_first();
        lemma_trim_start_len(d);
        let n = trim_start(d).len();
        assert(s.skip(s.len() - n) =~= d.skip(d.len() - n));
        assert forall|i: int| 0 <= i < s.len() - n implies is_space(s[i]) by {
            if i > 0 {
                assert(d[i - 1] == s[i]);
            }
        }
    } else {
        assert(s.skip(0) =~= s);
    }
}

pub proof fn lemma_word_len(s: Seq<char>)
    ensures
        word_len(s) <= s.len(),
        word_len(s) < s.len() ==> is_space(s[word_len(s) as int]),
        s.len() > 0 && !is_space(s[0]) ==> word_len(s) > 0,
        forall|i: int| 0 <= i < word_len(s) ==> !is_space(s[i]),
    decreases s.len(),
{
    if s.len() > 0 && !is_space(s[0]) {
        let d = s.drop_first();
        lemma_word_len(d);
        assert forall|i: int| 0 <= i < word_len(s) implies !is_space(s[i]) by {
            if i > 0 {
                assert(d[i - 1] == s[i]);
            }
        }
    }
}

pub proof fn lemma_find_char(s: Seq<char>, c: char)
    ensures
        find_char(s, c) <= s.len(),
        find_char(s, c) < s.len() ==> s[find_char(s, c) as int] == c,
        forall|i: int| 0 <= i < find_char(s, c) ==> s[i] != c,
    decreases s.len(),
{
    if s.len() > 0 && s[0] != c {
        let d = s.drop_first();
        lemma_find_char(d, c);
        assert forall|i: int| 0 <= i < find_char(s, c) implies s[i] != c by {
            if i > 0 {
                assert(d[i - 1] == s[i]);
            }
        }
    }
}

/// The first `c` of a text stands where no earlier character is one.
pub proof fn lemma_find_char_at(s: Seq<char>, c: char, n: nat)
    requires
        n <= s.len(),
        n < s.len() ==> s[n as int] == c,
        forall|i: int| 0 <= i < n ==> s[i] != c,
    ensures
        find_char(s, c) == n,
{
    lemma_find_char(s, c);
    let m = find_char(s, c);
    if m < n {
        assert(s[m as int] != c);
    } else if m > n {
        assert(s[n as int] != c);
    }
}

/// A run of characters that holds something, and no white space.
pub open spec fn is_word(w: Seq<char>) -> bool {
    w.len() > 0 && forall|i: int| 0 <= i < w.len() ==> !is_space(#[trigger] w[i])
}

/// Words are words.
pub proof fn lemma_words_are_words(s: Seq<char>)
    ensures
        forall|i: int| 0 <= i < words(s).len() ==> is_word(#[trigger] words(s)[i]),
    decreases s.len(),
{
    let t = trim_start(s);
    if t.len() > 0 {
        lemma_trim_start_len(s);
        lemma_word_len(t);
        let n = word_len(t) as int;
        let rest = words(t.skip(n));
        lemma_words_are_words(t.skip(n));
        assert forall|i: int| 0 <= i < words(s).len() implies is_word(#[trigger] words(s)[i]) by {
            if i == 0 {
                assert(words(s)[0] == t.take(n));
            } else {
                assert(words(s)[i] == rest[i - 1]);
            }
        }
    }
}

proof fn lemma_trim_start_append(s: Seq<char>, t: Seq<char>)
    ensures
        trim_start(s).len() > 0 ==> trim_start(s + t) == trim_start(s) + t,
        trim_start(s).len() == 0 ==> trim_start(s + t) == trim_start(t),
    decreases s.len(),
{
    if s.len() > 0 {
        assert((s + t)[0] == s[0]);
        assert((s + t).drop_first() =~= s.drop_first() + t);
        if is_space(s[0]) {
            lemma_trim_start_append(s.drop_first(), t);
        }
    } else {
        assert(s + t =~= t);
    }
}

proof fn lemma_word_len_append(s: Seq<char>, t: Seq<char>)
    requires
        t.len() > 0 ==> is_space(t[0]),
    ensures
        word_len(s + t) == word_len(s),
    decreases s.len(),
{
    if s.len() > 0 {
        assert((s + t)[0] == s[0]);
        assert((s + t).drop_first() =~= s.drop_first() + t);
        if !is_space(s[0]) {
            lemma_word_len_append(s.drop_first(), t);
        }
    } else {
        assert(s + t =~= t);
    }
}

/// White space parts words: the words of two texts, the second of which begins with white
/// space, are the words of the one and then of the other.
pub proof fn lemma_words_append(s: Seq<char>, t: Seq<char>)
    requires
        t.len() > 0 ==> is_space(t[0]),
    ensures
        words(s + t) == words(s) + words(t),
    decreases s.len(),
{
    lemma_trim_start_append(s, t);
    lemma_trim_start_len(s);
    let u = trim_start(s);
    if u.len() == 0 {
        assert(words(s + t) =~= words(s) + words(t)) by {
            assert(words(t) == words(s + t)) by {
                assert(trim_start(s + t) == trim_start(t));
            }
        }
    } else {
        lemma_word_len(u);
        lemma_word_len_append(u, t);
        let n = word_len(u) as int;
        assert((u + t).take(n) =~= u.take(n));
        assert((u + t).skip(n) =~= u.skip(n) + t);
        lemma_words_append(u.skip(n), t);
        assert(words(s + t) =~= seq![u.take(n)] + (words(u.skip(n)) + words(t)));
        assert(words(s) =~= seq![u.take(n)] + words(u.skip(n)));
        assert(words(s + t) =~= words(s) + words(t));
    }
}

/// A word alone.
pub proof fn lemma_one_word(w: Seq<char>)
    requires
        is_word(w),
    ensures
        words(w) == seq![w],
        words(seq![' '] + w) == seq![w],
{
    assert(!is_space(w[0]));
    lemma_word_len(w);
    if word_len(w) < w.len() {
        assert(is_space(w[word_len(w) as int]));
    }
    assert(w.take(w.len() as int) =~= w);
    assert(w.skip(w.len() as int) =~= Seq::empty());
    assert(words(Seq::<char>::empty()) =~= Seq::empty());
    assert(words(w) =~= seq![w]);
    let s = seq![' '] + w;
    assert(s.drop_first() =~= w);
    assert(trim_start(s) == trim_start(w));
    assert(trim_start(w) == w);
}

/// The characters of a string.
pub fn chars_of(s: &str) -> (v: Vec<char>)
    ensures
        v@ == s@,
{
    let mut v: Vec<char> = Vec::new();
    for c in it: s.chars()
        invariant
            it.seq() == s@,
            v@ == s@.take(it.index()),
    {
        v.push(c);
    }
    assert(v@ == s@);
    v
}

/// The string of the given characters.
pub fn string_of(v: &[char]) -> (s: String)
    ensures
        s@ == v@,
{
    let mut s: String = String::new();
    let mut i: usize = 0;
    while i < v.len()
        invariant
            i <= v@.len(),
            s@ == v@.take(i as int),
        decreases v@.len() - i,
    {
        s.push(v[i]);
        i += 1;
        assert(v@.take(i as int) =~= v@.take(i - 1).push(v@[i - 1]));
    }
    assert(v@.take(v@.len() as int) =~= v@);
    s
}

/// Whether the characters are those of the string.
pub fn equals(v: &[char], s: &str) -> (r: bool)
    ensures
        r == (v@ == s@),
{
    let w: Vec<char> = chars_of(s);
    if v.len() != w.len() {
        return false;
    }
    let mut i: usize = 0;
    while i < v.len()
        invariant
            i <= v@.len(),
            v@.len() == w@.len(),
            w@ == s@,
            forall|j: int| 0 <= j < i ==> v@[j] == w@[j],
        decreases v@.len() - i,
    {
        if v[i] != w[i] {
            return false;
        }
        i += 1;
    }
    assert(v@ =~= s@);
    true
}

/// How many characters of white space stand first.
pub fn leading_space(v: &[char]) -> (n: usize)
    ensures
        n <= v@.len(),
        trim_start(v@) == v@.skip(n as int),
{
    let mut n: usize = 0;
    assert(v@.skip(0) =~= v@);
    while n < v.len() && space(v[n])
        invariant
            n <= v@.len(),
            trim_start(v@) == trim_start(v@.skip(n as int)),
        decreases v@.len() - n,
    {
        assert(v@.skip(n as int).drop_first() =~= v@.skip(n + 1));
        n += 1;
    }
    n
}

/// The text without white space at either end.
pub fn trimmed(v: &[char]) -> (r: &[char])
    ensures
        r@ == trim(v@),
{
    let from: usize = leading_space(v);
    let ghost t = v@.skip(from as int);
    let mut to: usize = v.len();
    assert(t =~= v@.subrange(from as int, to as int));
    while to > from && space(v[to - 1])
        invariant
            from <= to <= v@.len(),
            trim_end(t) == trim_end(v@.subrange(from as int, to as int)),
        decreases to,
    {
        assert(v@.subrange(from as int, to as int).drop_last() =~= v@.subrange(
            from as int,
            to - 1,
        ));
        to -= 1;
    }
    slice_subrange(v, from, to)
}

/// How many characters stand before the first white space.
pub fn leading_word(v: &[char]) -> (n: usize)
    ensures
        n == word_len(v@),
        n <= v@.len(),
{
    let mut n: usize = 0;
    assert(v@.skip(0) =~= v@);
    while n < v.len() && !space(v[n])
        invariant
            n <= v@.len(),
            word_len(v@) == n + word_len(v@.skip(n as int)),
        decreases v@.len() - n,
    {
        assert(v@.skip(n as int).drop_first() =~= v@.skip(n + 1));
        n += 1;
    }
    n
}

/// The position of the first `c`, or the length of the text where there is none.
pub fn position_of(v: &[char], c: char) -> (n: usize)
    ensures
        n == find_char(v@, c),
        n <= v@.len(),
{
    let mut n: usize = 0;
    assert(v@.skip(0) =~= v@);
    while n < v.len() && v[n] != c
        invariant
            n <= v@.len(),
            find_char(v@, c) == n + find_char(v@.skip(n as int), c),
        decreases v@.len() - n,
    {
        assert(v@.skip(n as int).drop_first() =~= v@.skip(n + 1));
        n += 1;
    }
    n
}

/// The words of a text.
pub fn words_of(v: &[char]) -> (r: Vec<Vec<char>>)
    ensures
        r@.len() == words(v@).len(),
        forall|i: int| 0 <= i < r@.len() ==> (#[trigger] r@[i])@ == words(v@)[i],
{
    let mut r: Vec<Vec<char>> = Vec::new();
    let mut at: usize = 0;
    assert(v@.skip(0) =~= v@);
    loop
        invariant_except_break
            at <= v@.len(),
            r@.len() + words(v@.skip(at as int)).len() == words(v@).len(),
            forall|i: int| 0 <= i < r@.len() ==> (#[trigger] r@[i])@ == words(v@)[i],
            forall|i: int|
                0 <= i < words(v@.skip(at as int)).len() ==> #[trigger] words(v@.skip(at as int))[i]
                    == words(v@)[r@.len() + i],
        ensures
            r@.len() == words(v@).len(),
            forall|i: int| 0 <= i < r@.len() ==> (#[trigger] r@[i])@ == words(v@)[i],
        decreases v@.len() - at,
    {
        let rest: &[char] = slice_subrange(v, at, v.len());
        let ghost all = v@.skip(at as int);
        assert(rest@ =~= all);
        let skip: usize = leading_space(rest);
        let tail: &[char] = slice_subrange(rest, skip, rest.len());
        let ghost t = trim_start(all);
        assert(tail@ =~= t);
        if tail.len() == 0 {
            assert(words(all).len() == 0);
            break;
        }
        let n: usize = leading_word(tail);
        proof {
            lemma_trim_start_len(all);
            lemma_word_len(t);
        }
        let word: Vec<char> = copied(slice_subrange(tail, 0, n));
        assert(word@ =~= t.take(n as int));
        let ghost old_len = r@.len();
        let ghost later = words(t.skip(n as int));
        assert(words(all) == seq![t.take(n as int)] + later);
        assert(words(all)[0] == t.take(n as int));
        assert forall|i: int| 0 <= i < later.len() implies #[trigger] later[i] == words(v@)[old_len
            + 1 + i] by {
            assert(later[i] == words(all)[i + 1]);
        }
        r.push(word);
        at = at + skip + n;
        assert(t.skip(n as int) =~= v@.skip(at as int));
    }
    r
}

/// An owned copy of the items.
pub fn copied<T: Copy>(v: &[T]) -> (r: Vec<T>)
    ensures
        r@ == v@,
{
    let mut r: Vec<T> = Vec::new();
    let mut i: usize = 0;
    while i < v.len()
        invariant
            i <= v@.len(),
            r@ == v@.take(i as int),
        decreases v@.len() - i,
    {
        r.push(v[i]);
        i += 1;
        assert(v@.take(i as int) =~= v@.take(i - 1).push(v@[i - 1]));
    }
    assert(v@.take(v@.len() as int) =~= v@);
    r
}

} // verus!
