//! Text as sequences of characters: whitespace, trimming, searching and
//! literal replacement.

use vstd::prelude::*;

verus! {

/// Whether `c` has the Unicode property `White_Space`.
pub open spec fn is_whitespace(c: char) -> bool {
    ||| '\u{9}' <= c <= '\u{d}'
    ||| c == ' '
    ||| c == '\u{85}'
    ||| c == '\u{a0}'
    ||| c == '\u{1680}'
    ||| '\u{2000}' <= c <= '\u{200a}'
    ||| c == '\u{2028}'
    ||| c == '\u{2029}'
    ||| c == '\u{202f}'
    ||| c == '\u{205f}'
    ||| c == '\u{3000}'
}

/// Tells whether `c` is a whitespace character.
pub fn char_is_whitespace(c: char) -> (b: bool)
    ensures
        b == is_whitespace(c),
{
    ('\u{9}' <= c && c <= '\u{d}') || c == ' ' || c == '\u{85}' || c == '\u{a0}' || c == '\u{1680}'
        || ('\u{2000}' <= c && c <= '\u{200a}') || c == '\u{2028}' || c == '\u{2029}' || c
        == '\u{202f}' || c == '\u{205f}' || c == '\u{3000}'
}

/// The characters of `s`, in order.
pub fn to_chars(s: &str) -> (chars: Vec<char>)
    ensures
        chars@ == s@,
{
    let mut chars: Vec<char> = Vec::new();
    for c in it: s.chars()
        invariant
            chars@ == it.seq().take(it.index()),
            it.seq() == s@,
    {
        chars.push(c);
    }
    chars
}

/// Whether two texts are the same.
pub fn str_eq(a: &str, b: &str) -> (same: bool)
    ensures
        same == (a@ == b@),
{
    let x = to_chars(a);
    let y = to_chars(b);
    if x.len() != y.len() {
        return false;
    }
    let n = x.len();
    let mut i: usize = 0;
    while i < n
        invariant
            i <= n,
            n == x.len(),
            n == y.len(),
            x@ == a@,
            y@ == b@,
            forall|j: int| 0 <= j < i ==> x@[j] == y@[j],
        decreases n - i,
    {
        if x[i] != y[i] {
            return false;
        }
        i += 1;
    }
    proof {
        assert(x@ =~= y@);
    }
    true
}

/// How many whitespace characters `s` begins with.
pub open spec fn leading_whitespace(s: Seq<char>) -> nat
    decreases s.len(),
{
    if s.len() > 0 && is_whitespace(s[0]) {
        1 + leading_whitespace(s.skip(1))
    } else {
        0
    }
}

/// How many whitespace characters `s` ends with.
pub open spec fn trailing_whitespace(s: Seq<char>) -> nat
    decreases s.len(),
{
    if s.len() > 0 && is_whitespace(s.last()) {
        1 + trailing_whitespace(s.drop_last())
    } else {
        0
    }
}

/// `s` without the whitespace it begins with.
pub open spec fn trim_start(s: Seq<char>) -> Seq<char> {
    s.skip(leading_whitespace(s) as int)
}

/// `s` without the whitespace it ends with.
pub open spec fn trim_end(s: Seq<char>) -> Seq<char> {
    s.take(s.len() - trailing_whitespace(s))
}

/// `s` without the whitespace at either end.
pub open spec fn trim(s: Seq<char>) -> Seq<char> {
    trim_end(trim_start(s))
}

/// A prefix of whitespace that stops at the end of `s` or at a character
/// that is no whitespace is the leading whitespace of `s`.
pub proof fn lemma_leading_whitespace_is(s: Seq<char>, k: int)
    requires
        0 <= k <= s.len(),
        forall|i: int| 0 <= i < k ==> is_whitespace(s[i]),
        k < s.len() ==> !is_whitespace(s[k]),
    ensures
        leading_whitespace(s) == k,
    decreases k,
{
    if k > 0 {
        let rest = s.skip(1);
        assert forall|i: int| 0 <= i < k - 1 implies is_whitespace(rest[i]) by {
            assert(rest[i] == s[i + 1]);
        }
        if k - 1 < rest.len() {
            assert(rest[k - 1] == s[k]);
        }
        lemma_leading_whitespace_is(rest, k - 1);
    }
}

/// The trailing whitespace of `s` is the longest suffix made of whitespace.
pub proof fn lemma_trailing_whitespace(s: Seq<char>)
    ensures
        trailing_whitespace(s) <= s.len(),
        forall|i: int| s.len() - trailing_whitespace(s) <= i < s.len() ==> is_whitespace(s[i]),
        trailing_whitespace(s) < s.len() ==> !is_whitespace(
            s[s.len() - trailing_whitespace(s) - 1],
        ),
    decreases s.len(),
{
    if s.len() > 0 && is_whitespace(s.last()) {
        let rest = s.drop_last();
        lemma_trailing_whitespace(rest);
        assert forall|i: int| s.len() - trailing_whitespace(s) <= i < s.len() implies is_whitespace(
            s[i],
        ) by {
            if i < s.len() - 1 {
                assert(s[i] == rest[i]);
            }
        }
        if trailing_whitespace(s) < s.len() {
            assert(s[s.len() - trailing_whitespace(s) - 1] == rest[rest.len() - trailing_whitespace(
                rest,
            ) - 1]);
        }
    }
}

/// A suffix of whitespace that stops at the start of `s` or at a character
/// that is no whitespace is the trailing whitespace of `s`.
pub proof fn lemma_trailing_whitespace_is(s: Seq<char>, k: int)
    requires
        0 <= k <= s.len(),
        forall|i: int| s.len() - k <= i < s.len() ==> is_whitespace(s[i]),
        k < s.len() ==> !is_whitespace(s[s.len() - k - 1]),
    ensures
        trailing_whitespace(s) == k,
    decreases k,
{
    if k > 0 {
        let rest = s.drop_last();
        assert forall|i: int| rest.len() - (k - 1) <= i < rest.len() implies is_whitespace(
            rest[i],
        ) by {
            assert(rest[i] == s[i]);
        }
        if k - 1 < rest.len() {
            assert(rest[rest.len() - (k - 1) - 1] == s[s.len() - k - 1]);
        }
        lemma_trailing_whitespace_is(rest, k - 1);
    }
}

/// The part of `s` between its leading and its trailing whitespace.
pub fn trim_str(s: &str) -> (t: &str)
    ensures
        t@ == trim(s@),
{
    let chars = to_chars(s);
    let n = chars.len();
    let mut start: usize = 0;
    while start < n && char_is_whitespace(chars[start])
        invariant
            start <= n,
            n == chars@.len(),
            forall|i: int| 0 <= i < start ==> is_whitespace(chars@[i]),
        decreases n - start,
    {
        start += 1;
    }
    let mut end: usize = n;
    while end > start && char_is_whitespace(chars[end - 1])
        invariant
            start <= end <= n,
            n == chars@.len(),
            forall|i: int| end <= i < n ==> is_whitespace(chars@[i]),
        decreases end,
    {
        end -= 1;
    }
    proof {
        lemma_leading_whitespace_is(s@, start as int);
        let rest = s@.skip(start as int);
        assert forall|i: int| rest.len() - (n - end) <= i < rest.len() implies is_whitespace(
            rest[i],
        ) by {
            assert(rest[i] == s@[i + start]);
        }
        if n - end < rest.len() {
            assert(rest[rest.len() - (n - end) - 1] == s@[end - 1]);
        }
        lemma_trailing_whitespace_is(rest, n - end);
        assert(rest.take(rest.len() - (n - end)) =~= s@.subrange(start as int, end as int));
    }
    s.substring_char(start, end)
}

/// The position of the first `x` in `s`, or the length of `s` where it
/// holds none.
pub open spec fn position<T>(s: Seq<T>, x: T) -> nat
    decreases s.len(),
{
    if s.len() > 0 && s[0] != x {
        1 + position(s.skip(1), x)
    } else {
        0
    }
}

/// `position` points at the first `x`, or at the end.
pub proof fn lemma_position<T>(s: Seq<T>, x: T)
    ensures
        position(s, x) <= s.len(),
        forall|i: int| 0 <= i < position(s, x) ==> s[i] != x,
        position(s, x) < s.len() ==> s[position(s, x) as int] == x,
    decreases s.len(),
{
    if s.len() > 0 && s[0] != x {
        let rest = s.skip(1);
        lemma_position(rest, x);
        assert forall|i: int| 0 <= i < position(s, x) implies s[i] != x by {
            if i > 0 {
                assert(s[i] == rest[i - 1]);
            }
        }
        if position(s, x) < s.len() {
            assert(s[position(s, x) as int] == rest[position(rest, x) as int]);
        }
    }
}

/// A position before which `s` holds no `x`, and which holds one or is the
/// end of `s`, is where `position` points.
pub proof fn lemma_position_is<T>(s: Seq<T>, x: T, k: int)
    requires
        0 <= k <= s.len(),
        forall|i: int| 0 <= i < k ==> s[i] != x,
        k < s.len() ==> s[k] == x,
    ensures
        position(s, x) == k,
    decreases k,
{
    if k > 0 {
        let rest = s.skip(1);
        assert forall|i: int| 0 <= i < k - 1 implies rest[i] != x by {
            assert(rest[i] == s[i + 1]);
        }
        if k - 1 < rest.len() {
            assert(rest[k - 1] == s[k]);
        }
        lemma_position_is(rest, x, k - 1);
    }
}

/// The position of the first `c` in `chars`, or their number where there
/// is none.
pub fn find_char_in(chars: &Vec<char>, c: char) -> (k: usize)
    ensures
        k == position(chars@, c),
        k <= chars.len(),
{
    let n = chars.len();
    let mut k: usize = 0;
    while k < n && chars[k] != c
        invariant
            k <= n,
            n == chars.len(),
            forall|i: int| 0 <= i < k ==> chars@[i] != c,
        decreases n - k,
    {
        k += 1;
    }
    proof {
        lemma_position_is(chars@, c, k as int);
    }
    k
}

/// Whether `pattern` stands in `s` at position `i`.
pub open spec fn matches_at(s: Seq<char>, pattern: Seq<char>, i: int) -> bool {
    0 <= i && i + pattern.len() <= s.len() && s.subrange(i, i + pattern.len()) == pattern
}

/// Whether `pattern` stands somewhere in `s`. The empty pattern stands in
/// every text.
pub open spec fn occurs(s: Seq<char>, pattern: Seq<char>) -> bool {
    exists|i: int| matches_at(s, pattern, i)
}

/// `s` with every occurrence of `from` replaced by `to`. Occurrences are
/// taken from left to right and do not overlap; what was put in is not
/// searched again. The empty pattern stands before every character and at
/// the end.
pub open spec fn replace(s: Seq<char>, from: Seq<char>, to: Seq<char>) -> Seq<char>
    decreases s.len(),
{
    if from.len() == 0 {
        if s.len() == 0 {
            to
        } else {
            to + s.take(1) + replace(s.skip(1), from, to)
        }
    } else if s.len() < from.len() {
        s
    } else if matches_at(s, from, 0) {
        to + replace(s.skip(from.len() as int), from, to)
    } else {
        s.take(1) + replace(s.skip(1), from, to)
    }
}

/// Replacing a pattern that does not occur changes nothing.
pub proof fn lemma_replace_absent(s: Seq<char>, from: Seq<char>, to: Seq<char>)
    requires
        !occurs(s, from),
    ensures
        replace(s, from, to) == s,
    decreases s.len(),
{
    if from.len() == 0 {
        assert(s.subrange(0, 0) =~= from);
        assert(matches_at(s, from, 0));
    } else if s.len() >= from.len() {
        assert(!matches_at(s, from, 0));
        let rest = s.skip(1);
        assert forall|i: int| !matches_at(rest, from, i) by {
            if matches_at(rest, from, i) {
                assert(rest.subrange(i, i + from.len()) =~= s.subrange(i + 1, i + 1 + from.len()));
                assert(matches_at(s, from, i + 1));
            }
        }
        lemma_replace_absent(rest, from, to);
        assert(s.take(1) + rest =~= s);
    }
}

/// Whether `pattern` stands in `s` at position `i`.
pub fn chars_match_at(s: &Vec<char>, pattern: &Vec<char>, i: usize) -> (b: bool)
    ensures
        b == matches_at(s@, pattern@, i as int),
{
    let m = pattern.len();
    if m > s.len() || i > s.len() - m {
        return false;
    }
    let mut j: usize = 0;
    while j < m
        invariant
            j <= m,
            m == pattern.len(),
            i + m <= s.len(),
            forall|k: int| 0 <= k < j ==> s@[i + k] == pattern@[k],
        decreases m - j,
    {
        if s[i + j] != pattern[j] {
            proof {
                assert(s@.subrange(i as int, i + m)[j as int] == s@[i + j]);
            }
            return false;
        }
        j += 1;
    }
    proof {
        assert(s@.subrange(i as int, i + m) =~= pattern@);
    }
    true
}

/// `line` with every occurrence of `from` replaced by `to`.
pub fn replace_str(line: &str, from: &str, to: &str) -> (out: String)
    ensures
        out@ == replace(line@, from@, to@),
{
    let chars = to_chars(line);
    let pattern = to_chars(from);
    let n = chars.len();
    let m = pattern.len();
    let mut out = String::new();
    let mut i: usize = 0;
    proof {
        assert(line@.skip(0) =~= line@);
        assert(out@ + line@ =~= line@);
    }
    if m == 0 {
        while i < n
            invariant
                i <= n,
                n == line@.len(),
                from@.len() == 0,
                replace(line@, from@, to@) == out@ + replace(line@.skip(i as int), from@, to@),
            decreases n - i,
        {
            let ghost before = out@;
            let ghost rest = line@.skip(i as int);
            proof {
                assert(rest.take(1) =~= line@.subrange(i as int, i + 1));
                assert(rest.skip(1) =~= line@.skip(i + 1));
            }
            out.append(to);
            out.append(line.substring_char(i, i + 1));
            i += 1;
            proof {
                let tail = replace(rest.skip(1), from@, to@);
                assert(before + (to@ + rest.take(1) + tail) =~= out@ + tail);
            }
        }
        out.append(to);
        return out;
    }
    if n < m {
        out.append(line);
        return out;
    }
    let mut start: usize = 0;
    proof {
        assert(out@ + line@.subrange(0, 0) =~= out@);
    }
    while i <= n - m
        invariant
            start <= i <= n,
            n == line@.len(),
            m == pattern.len(),
            0 < m <= n,
            chars@ == line@,
            pattern@ == from@,
            replace(line@, from@, to@) == out@ + line@.subrange(start as int, i as int) + replace(
                line@.skip(i as int),
                from@,
                to@,
            ),
        decreases n - i,
    {
        let ghost rest = line@.skip(i as int);
        if chars_match_at(&chars, &pattern, i) {
            proof {
                assert(rest.subrange(0, m as int) =~= line@.subrange(i as int, i + m));
                assert(rest.skip(m as int) =~= line@.skip(i + m));
            }
            let ghost before = out@;
            let ghost pending = line@.subrange(start as int, i as int);
            out.append(line.substring_char(start, i));
            out.append(to);
            i += m;
            start = i;
            proof {
                let tail = replace(rest.skip(m as int), from@, to@);
                assert(before + pending + (to@ + tail) =~= out@ + line@.subrange(
                    start as int,
                    i as int,
                ) + tail);
            }
        } else {
            proof {
                assert(rest.subrange(0, m as int) =~= line@.subrange(i as int, i + m));
                assert(rest.skip(1) =~= line@.skip(i + 1));
                let tail = replace(rest.skip(1), from@, to@);
                assert(out@ + line@.subrange(start as int, i as int) + (rest.take(1) + tail) =~= out@
                    + line@.subrange(start as int, i + 1) + tail);
            }
            i += 1;
        }
    }
    proof {
        assert(out@ + line@.subrange(start as int, i as int) + line@.skip(i as int) =~= out@
            + line@.subrange(start as int, n as int));
    }
    out.append(line.substring_char(start, n));
    out
}

} // verus!
