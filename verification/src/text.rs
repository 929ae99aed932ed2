//! Characters and character sequences: white space, trimming, searching,
//! and the passage between strings and their characters.

use vstd::prelude::*;

verus! {

/// Whether `c` is white space: the code points that carry the Unicode
/// property `White_Space`.
pub open spec fn is_space(c: char) -> bool {
    let n = c as u32;
    ||| 0x09 <= n <= 0x0D
    ||| n == 0x20
    ||| n == 0x85
    ||| n == 0xA0
    ||| n == 0x1680
    ||| 0x2000 <= n <= 0x200A
    ||| n == 0x2028
    ||| n == 0x2029
    ||| n == 0x202F
    ||| n == 0x205F
    ||| n == 0x3000
}

/// Whether every character of `s` is white space.
pub open spec fn all_space(s: Seq<char>) -> bool {
    forall|i: int| 0 <= i < s.len() ==> is_space(#[trigger] s[i])
}

/// How many characters of white space `s` starts with.
pub open spec fn leading(s: Seq<char>) -> nat
    decreases s.len(),
{
    if s.len() > 0 && is_space(s.first()) {
        1 + leading(s.drop_first())
    } else {
        0
    }
}

/// How many characters of white space `s` ends with.
pub open spec fn trailing(s: Seq<char>) -> nat
    decreases s.len(),
{
    if s.len() > 0 && is_space(s.last()) {
        1 + trailing(s.drop_last())
    } else {
        0
    }
}

/// `s` without its leading white space.
pub open spec fn trim_start(s: Seq<char>) -> Seq<char> {
    s.skip(leading(s) as int)
}

/// `s` without its trailing white space.
pub open spec fn trim_end(s: Seq<char>) -> Seq<char> {
    s.take(s.len() - trailing(s))
}

/// `s` without its leading and trailing white space.
pub open spec fn trim(s: Seq<char>) -> Seq<char> {
    trim_end(trim_start(s))
}

/// Whether `s` is its own trimmed form: it neither starts nor ends with
/// white space.
pub open spec fn is_trimmed(s: Seq<char>) -> bool {
    s.len() > 0 ==> !is_space(s.first()) && !is_space(s.last())
}

/// The index of the first `c` in `s`, or the length of `s` where it holds none.
pub open spec fn first_index(s: Seq<char>, c: char) -> nat
    decreases s.len(),
{
    if s.len() == 0 || s.first() == c {
        0
    } else {
        1 + first_index(s.drop_first(), c)
    }
}

/// `first_index` is the least index that holds `c`, and the length if there is none.
pub proof fn lemma_first_index(s: Seq<char>, c: char)
    ensures
        first_index(s, c) <= s.len(),
        first_index(s, c) < s.len() ==> s[first_index(s, c) as int] == c,
        forall|i: int| 0 <= i < first_index(s, c) ==> s[i] != c,
    decreases s.len(),
{
    if s.len() > 0 && s.first() != c {
        let rest = s.drop_first();
        lemma_first_index(rest, c);
        assert forall|i: int| 0 <= i < first_index(s, c) implies s[i] != c by {
            if i > 0 {
                assert(s[i] == rest[i - 1]);
            }
        }
    }
}

/// An index that holds `c`, or the length, with no `c` before it, is `first_index`.
pub proof fn lemma_first_index_is(s: Seq<char>, c: char, k: int)
    requires
        0 <= k <= s.len(),
        k < s.len() ==> s[k] == c,
        forall|i: int| 0 <= i < k ==> s[i] != c,
    ensures
        first_index(s, c) == k,
{
    lemma_first_index(s, c);
}

/// The leading white space of `s` is white space, and what follows it, if
/// anything, is not.
pub proof fn lemma_leading(s: Seq<char>)
    ensures
        leading(s) <= s.len(),
        forall|i: int| 0 <= i < leading(s) ==> is_space(s[i]),
        leading(s) < s.len() ==> !is_space(s[leading(s) as int]),
    decreases s.len(),
{
    if s.len() > 0 && is_space(s.first()) {
        let rest = s.drop_first();
        lemma_leading(rest);
        assert forall|i: int| 0 <= i < leading(s) implies is_space(s[i]) by {
            if i > 0 {
                assert(s[i] == rest[i - 1]);
            }
        }
        if leading(s) < s.len() {
            assert(s[leading(s) as int] == rest[leading(rest) as int]);
        }
    }
}

/// The trailing white space of `s` is white space, and what precedes it, if
/// anything, is not.
pub proof fn lemma_trailing(s: Seq<char>)
    ensures
        trailing(s) <= s.len(),
        forall|i: int| s.len() - trailing(s) <= i < s.len() ==> is_space(s[i]),
        trailing(s) < s.len() ==> !is_space(s[s.len() - trailing(s) - 1]),
    decreases s.len(),
{
    if s.len() > 0 && is_space(s.last()) {
        let rest = s.drop_last();
        lemma_trailing(rest);
        assert forall|i: int| s.len() - trailing(s) <= i < s.len() implies is_space(s[i]) by {
            if i < s.len() - 1 {
                assert(s[i] == rest[i]);
            }
        }
        if trailing(s) < s.len() {
            assert(s[s.len() - trailing(s) - 1] == rest[rest.len() - trailing(rest) - 1]);
        }
    }
}

/// Where `s` is white space up to `a` and from `b` on, and neither `s[a]` nor
/// `s[b - 1]` is, `a` is its leading white space, what follows `b` is its
/// trailing white space, and its trimmed form is the part from `a` to `b`.
pub proof fn lemma_trim_is(s: Seq<char>, a: int, b: int)
    requires
        0 <= a <= b <= s.len(),
        forall|i: int| 0 <= i < a ==> is_space(s[i]),
        forall|i: int| b <= i < s.len() ==> is_space(s[i]),
        a < b ==> !is_space(s[a]) && !is_space(s[b - 1]),
        a == b ==> a == s.len(),
    ensures
        leading(s) == a,
        a < b ==> trailing(s) == s.len() - b,
        trim(s) == s.subrange(a, b),
{
    lemma_leading(s);
    lemma_trailing(s);
    let t = s.skip(a);
    lemma_trailing(t);
    if a < b {
        assert(t[b - a - 1] == s[b - 1]);
        assert forall|i: int| b - a <= i < t.len() implies is_space(t[i]) by {
            assert(t[i] == s[a + i]);
        }
        if t.len() - trailing(t) > b - a {
            assert(t[t.len() - trailing(t) - 1] == s[s.len() - trailing(t) - 1]);
        }
    }
    assert(t.take(t.len() - trailing(t)) =~= s.subrange(a, b));
}

/// The trimmed form of `s` is a part of `s` that neither starts nor ends with
/// white space, and what surrounds it in `s` is white space.
pub proof fn lemma_trim(s: Seq<char>) -> (bounds: (int, int))
    ensures
        0 <= bounds.0 <= bounds.1 <= s.len(),
        trim(s) == s.subrange(bounds.0, bounds.1),
        all_space(s.take(bounds.0)),
        all_space(s.skip(bounds.1)),
        is_trimmed(trim(s)),
{
    let a = leading(s) as int;
    lemma_leading(s);
    let b = if a == s.len() {
        a
    } else {
        s.len() - trailing(s)
    };
    lemma_trailing(s);
    lemma_trim_is(s, a, b);
    (a, b)
}

/// White space put around a text does not change its trimmed form.
pub proof fn lemma_trim_ignores_space_around(before: Seq<char>, s: Seq<char>, after: Seq<char>)
    requires
        all_space(before),
        all_space(after),
    ensures
        trim(before + s + after) == trim(s),
{
    let (x, y) = lemma_trim(s);
    let t = before + s + after;
    let n = before.len() as int;
    assert forall|i: int| 0 <= i < n + x implies is_space(t[i]) by {
        if i < n {
            assert(t[i] == before[i]);
        } else {
            assert(t[i] == s.take(x)[i - n]);
        }
    }
    assert forall|i: int| n + y <= i < t.len() implies is_space(t[i]) by {
        if i < n + s.len() {
            assert(t[i] == s.skip(y)[i - n - y]);
        } else {
            assert(t[i] == after[i - n - s.len()]);
        }
    }
    if x < y {
        assert(t[n + x] == trim(s).first());
        assert(t[n + y - 1] == trim(s).last());
        lemma_trim_is(t, n + x, n + y);
        assert(t.subrange(n + x, n + y) =~= s.subrange(x, y));
    } else {
        assert forall|i: int| 0 <= i < t.len() implies is_space(t[i]) by {
            if n <= i < n + s.len() {
                if i - n < x {
                    assert(t[i] == s.take(x)[i - n]);
                } else {
                    assert(t[i] == s.skip(y)[i - n - y]);
                }
            }
        }
        lemma_trim_is(t, t.len() as int, t.len() as int);
        assert(t.subrange(t.len() as int, t.len() as int) =~= s.subrange(x, y));
    }
}

/// Tells whether `c` is white space.
pub fn is_whitespace(c: char) -> (b: bool)
    ensures
        b == is_space(c),
{
    let n: u32 = c as u32;
    (0x09 <= n && n <= 0x0D) || n == 0x20 || n == 0x85 || n == 0xA0 || n == 0x1680 || (0x2000 <= n
        && n <= 0x200A) || n == 0x2028 || n == 0x2029 || n == 0x202F || n == 0x205F || n == 0x3000
}

/// The characters of `s`, in order.
pub fn chars_of(s: &str) -> (chars: Vec<char>)
    ensures
        chars@ == s@,
{
    let mut chars: Vec<char> = Vec::new();
    for c in iter: s.chars()
        invariant
            chars@ == iter.seq().take(iter.index() as int),
            iter.seq() == s@,
    {
        chars.push(c);
    }
    chars
}

/// `String::push` appends the one character to the string.
pub assume_specification[ String::push ](s: &mut String, ch: char)
    ensures
        final(s)@ == old(s)@.push(ch),
;

/// The string made of the characters of `chars` from `from` up to `to`.
pub fn string_of(chars: &Vec<char>, from: usize, to: usize) -> (s: String)
    requires
        from <= to <= chars.len(),
    ensures
        s@ == chars@.subrange(from as int, to as int),
{
    let mut s = String::new();
    let mut i: usize = from;
    while i < to
        invariant
            from <= i <= to <= chars.len(),
            s@ == chars@.subrange(from as int, i as int),
        decreases to - i,
    {
        s.push(chars[i]);
        i += 1;
        assert(s@ =~= chars@.subrange(from as int, i as int));
    }
    s
}

/// The place of the first `c` among the characters of `chars` from `from` up
/// to `to`, or `to` where there is none.
pub fn find(chars: &Vec<char>, from: usize, to: usize, c: char) -> (k: usize)
    requires
        from <= to <= chars.len(),
    ensures
        from <= k <= to,
        k - from == first_index(chars@.subrange(from as int, to as int), c),
{
    let mut k: usize = from;
    while k < to && chars[k] != c
        invariant
            from <= k <= to <= chars.len(),
            forall|i: int| from <= i < k ==> chars@[i] != c,
        decreases to - k,
    {
        k += 1;
    }
    proof {
        lemma_first_index_is(chars@.subrange(from as int, to as int), c, k - from);
    }
    k
}

/// The bounds of the trimmed form of the characters of `chars` from `from` up
/// to `to`: where it starts, after the leading white space, and where it ends.
pub fn trim_bounds(chars: &Vec<char>, from: usize, to: usize) -> (bounds: (usize, usize))
    requires
        from <= to <= chars.len(),
    ensures
        from <= bounds.0 <= bounds.1 <= to,
        bounds.0 == from + leading(chars@.subrange(from as int, to as int)),
        chars@.subrange(bounds.0 as int, bounds.1 as int) == trim(
            chars@.subrange(from as int, to as int),
        ),
{
    let mut a: usize = from;
    while a < to && is_whitespace(chars[a])
        invariant
            from <= a <= to <= chars.len(),
            forall|i: int| from <= i < a ==> is_space(chars@[i]),
        decreases to - a,
    {
        a += 1;
    }
    let mut b: usize = to;
    while b > a && is_whitespace(chars[b - 1])
        invariant
            a <= b <= to <= chars.len(),
            forall|i: int| b <= i < to ==> is_space(chars@[i]),
        decreases b,
    {
        b -= 1;
    }
    proof {
        let s = chars@.subrange(from as int, to as int);
        lemma_trim_is(s, a - from, b - from);
        assert(s.subrange(a - from, b - from) =~= chars@.subrange(a as int, b as int));
    }
    (a, b)
}

/// `s` without its leading and trailing white space.
pub fn trimmed(s: &str) -> (t: String)
    ensures
        t@ == trim(s@),
{
    let chars = chars_of(s);
    let (a, b) = trim_bounds(&chars, 0, chars.len());
    assert(chars@.subrange(0, chars.len() as int) =~= chars@);
    string_of(&chars, a, b)
}

/// The lower-case form of a text, as `str::to_lowercase` gives it.
pub uninterp spec fn lowercase(s: Seq<char>) -> Seq<char>;

/// `str::to_lowercase` returns the lower-case form of the string, which
/// depends on its characters alone.
pub assume_specification[ str::to_lowercase ](s: &str) -> (lower: String)
    ensures
        lower@ == lowercase(s@),
;

/// Tells whether two texts hold the same characters.
pub fn same_text(a: &String, b: &String) -> (same: bool)
    ensures
        same == (a@ == b@),
{
    *a == *b
}

} // verus!
