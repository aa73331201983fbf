//! Verified text helpers over `&str`, each stated over the character sequence `s@`.
use vstd::prelude::*;

verus! {

/// The pieces of `s` between occurrences of `sep`, as `str::split` with a `char` pattern
/// produces them: the empty text gives one empty piece, and a trailing separator gives a
/// trailing empty piece.
pub open spec fn split_seq(s: Seq<char>, sep: char) -> Seq<Seq<char>>
    decreases s.len(),
{
    if s.len() == 0 {
        seq![Seq::<char>::empty()]
    } else {
        let prev = split_seq(s.drop_last(), sep);
        if s.last() == sep {
            prev.push(Seq::<char>::empty())
        } else {
            prev.update(prev.len() - 1, prev.last().push(s.last()))
        }
    }
}

/// The index of the first occurrence of `c` in `s`, or -1 when there is none.
pub open spec fn first_index_of(s: Seq<char>, c: char) -> int
    decreases s.len(),
{
    if s.len() == 0 {
        -1
    } else if s[0] == c {
        0
    } else {
        let r = first_index_of(s.drop_first(), c);
        if r < 0 {
            -1
        } else {
            r + 1
        }
    }
}

/// `str::split_once` with a `char` pattern: the text before and after the first `c`.
pub open spec fn split_once_seq(s: Seq<char>, c: char) -> Option<(Seq<char>, Seq<char>)> {
    let i = first_index_of(s, c);
    if i < 0 {
        None
    } else {
        Some((s.take(i), s.skip(i + 1)))
    }
}

pub open spec fn is_digit(c: char) -> bool {
    '0' <= c && c <= '9'
}

pub open spec fn all_digits(s: Seq<char>) -> bool {
    forall|i: int| 0 <= i < s.len() ==> is_digit(#[trigger] s[i])
}

/// The value of a sequence of decimal digits.
pub open spec fn digits_value(s: Seq<char>) -> nat
    decreases s.len(),
{
    if s.len() == 0 {
        0
    } else {
        digits_value(s.drop_last()) * 10 + ((s.last() as int - '0' as int) as nat)
    }
}

/// What `str::parse::<usize>` gives: an optional `+`, then at least one decimal digit, with a
/// value that fits in a `usize`.
pub open spec fn parse_usize_seq(s: Seq<char>) -> Option<usize> {
    let d = if s.len() > 0 && s[0] == '+' {
        s.drop_first()
    } else {
        s
    };
    if d.len() > 0 && all_digits(d) && digits_value(d) <= usize::MAX {
        Some(digits_value(d) as usize)
    } else {
        None
    }
}

pub open spec fn starts_with_seq(s: Seq<char>, prefix: Seq<char>) -> bool {
    prefix.len() <= s.len() && s.take(prefix.len() as int) == prefix
}

pub open spec fn contains_seq(s: Seq<char>, needle: Seq<char>) -> bool {
    exists|i: int| 0 <= i && i + needle.len() <= s.len() && #[trigger] s.subrange(i, i + needle.len()) == needle
}

proof fn lemma_first_index_of(s: Seq<char>, c: char, i: int)
    requires
        0 <= i <= s.len(),
        forall|j: int| 0 <= j < i ==> s[j] != c,
    ensures
        i < s.len() && s[i] == c ==> first_index_of(s, c) == i,
        i == s.len() ==> first_index_of(s, c) == -1,
    decreases i,
{
    if i > 0 {
        lemma_first_index_of(s.drop_first(), c, i - 1);
    } else if s.len() > 0 {
    }
}

proof fn lemma_digits_value_monotone(s: Seq<char>, i: int)
    requires
        0 <= i <= s.len(),
    ensures
        digits_value(s.take(i)) <= digits_value(s),
    decreases s.len() - i,
{
    if i < s.len() {
        lemma_digits_value_monotone(s, i + 1);
        assert(s.take(i + 1).drop_last() =~= s.take(i));
        assert(digits_value(s.take(i + 1)) == digits_value(s.take(i)) * 10 + ((s[i] as int
            - '0' as int) as nat));
    } else {
        assert(s.take(i) =~= s);
    }
}

/// Text equality, character by character.
pub fn str_eq(a: &str, b: &str) -> (r: bool)
    ensures
        r == (a@ == b@),
{
    let n = a.unicode_len();
    if n != b.unicode_len() {
        return false;
    }
    let mut i: usize = 0;
    while i < n
        invariant
            n == a@.len(),
            n == b@.len(),
            i <= n,
            forall|j: int| 0 <= j < i ==> a@[j] == b@[j],
        decreases n - i,
    {
        if a.get_char(i) != b.get_char(i) {
            return false;
        }
        i = i + 1;
    }
    assert(a@ =~= b@);
    true
}

/// Whether `a` equals any of `options`.
pub fn str_is_any(a: &str, options: &[&str]) -> (r: bool)
    ensures
        r == (exists|i: int| 0 <= i < options@.len() && (#[trigger] options@[i])@ == a@),
{
    let mut i: usize = 0;
    while i < options.len()
        invariant
            i <= options@.len(),
            forall|j: int| 0 <= j < i ==> (#[trigger] options@[j])@ != a@,
        decreases options@.len() - i,
    {
        if str_eq(options[i], a) {
            return true;
        }
        i = i + 1;
    }
    false
}

/// `str::split` with a `char` pattern.
pub fn split_char<'a>(s: &'a str, sep: char) -> (r: Vec<&'a str>)
    ensures
        r@.map_values(|p: &str| p@) == split_seq(s@, sep),
{
    let n = s.unicode_len();
    let mut parts: Vec<&'a str> = Vec::new();
    let mut start: usize = 0;
    let mut i: usize = 0;
    assert(s@.take(0) =~= Seq::<char>::empty());
    while i < n
        invariant
            n == s@.len(),
            start <= i <= n,
            split_seq(s@.take(i as int), sep) == parts@.map_values(|p: &str| p@).push(
                s@.subrange(start as int, i as int),
            ),
        decreases n - i,
    {
        let c = s.get_char(i);
        let ghost prev_parts = parts@.map_values(|p: &str| p@);
        assert(s@.take(i + 1).drop_last() =~= s@.take(i as int));
        if c == sep {
            let piece = s.substring_char(start, i);
            parts.push(piece);
            assert(parts@.map_values(|p: &str| p@) =~= prev_parts.push(piece@));
            start = i + 1;
            assert(s@.subrange(start as int, start as int) =~= Seq::<char>::empty());
        } else {
            assert(s@.subrange(start as int, i + 1) =~= s@.subrange(start as int, i as int).push(
                c,
            ));
            assert(prev_parts.push(s@.subrange(start as int, i as int)).update(
                prev_parts.len() as int,
                s@.subrange(start as int, i as int).push(c),
            ) =~= prev_parts.push(s@.subrange(start as int, i + 1)));
        }
        i = i + 1;
    }
    let last = s.substring_char(start, n);
    let ghost prev_parts = parts@.map_values(|p: &str| p@);
    parts.push(last);
    assert(s@.take(n as int) =~= s@);
    assert(parts@.map_values(|p: &str| p@) =~= prev_parts.push(last@));
    parts
}

/// `str::split_once` with a `char` pattern.
pub fn split_once_char<'a>(s: &'a str, c: char) -> (r: Option<(&'a str, &'a str)>)
    ensures
        match r {
            Some((a, b)) => split_once_seq(s@, c) == Some((a@, b@)),
            None => split_once_seq(s@, c) is None,
        },
{
    let n = s.unicode_len();
    let mut i: usize = 0;
    while i < n
        invariant
            n == s@.len(),
            i <= n,
            forall|j: int| 0 <= j < i ==> s@[j] != c,
        decreases n - i,
    {
        if s.get_char(i) == c {
            proof {
                lemma_first_index_of(s@, c, i as int);
            }
            let a = s.substring_char(0, i);
            let b = s.substring_char(i + 1, n);
            assert(a@ =~= s@.take(i as int));
            assert(b@ =~= s@.skip(i + 1));
            return Some((a, b));
        }
        i = i + 1;
    }
    proof {
        lemma_first_index_of(s@, c, n as int);
    }
    None
}

/// `str::parse::<usize>`, as a value when it succeeds.
pub fn parse_usize(s: &str) -> (r: Option<usize>)
    ensures
        r == parse_usize_seq(s@),
{
    let n = s.unicode_len();
    let mut i: usize = 0;
    if n > 0 && s.get_char(0) == '+' {
        i = 1;
    }
    let ghost d = if s@.len() > 0 && s@[0] == '+' {
        s@.drop_first()
    } else {
        s@
    };
    let start = i;
    assert(d =~= s@.skip(start as int));
    if start == n {
        return None;
    }
    let mut acc: usize = 0;
    assert(d.take(0) =~= Seq::<char>::empty());
    while i < n
        invariant
            n == s@.len(),
            start <= i <= n,
            d == s@.skip(start as int),
            d == (if s@.len() > 0 && s@[0] == '+' {
                s@.drop_first()
            } else {
                s@
            }),
            all_digits(d.take(i - start)),
            acc == digits_value(d.take(i - start)),
        decreases n - i,
    {
        let c = s.get_char(i);
        if !('0' <= c && c <= '9') {
            assert(d[i - start] == c);
            assert(!is_digit(d[i - start]));
            assert(!all_digits(d));
            assert(parse_usize_seq(s@) is None);
            return None;
        }
        let digit: usize = (c as u32 - '0' as u32) as usize;
        assert(d.take(i + 1 - start).drop_last() =~= d.take(i - start));
        assert(d.take(i + 1 - start).last() == c);
        assert(digits_value(d.take(i + 1 - start)) == digits_value(d.take(i - start)) * 10 + digit);
        let next = match acc.checked_mul(10) {
            Some(m) => m.checked_add(digit),
            None => None,
        };
        match next {
            Some(v) => {
                acc = v;
                assert(all_digits(d.take(i + 1 - start)));
            },
            None => {
                proof {
                    lemma_digits_value_monotone(d, i + 1 - start);
                    assert(acc * 10 + digit > usize::MAX);
                    assert(digits_value(d) > usize::MAX);
                }
                assert(parse_usize_seq(s@) is None);
                return None;
            },
        }
        i = i + 1;
    }
    assert(d.take(n - start) =~= d);
    Some(acc)
}

/// `str::starts_with` with a text pattern.
pub fn starts_with(s: &str, prefix: &str) -> (r: bool)
    ensures
        r == starts_with_seq(s@, prefix@),
{
    let n = s.unicode_len();
    let m = prefix.unicode_len();
    if m > n {
        return false;
    }
    let mut i: usize = 0;
    while i < m
        invariant
            n == s@.len(),
            m == prefix@.len(),
            m <= n,
            i <= m,
            forall|j: int| 0 <= j < i ==> s@[j] == prefix@[j],
        decreases m - i,
    {
        if s.get_char(i) != prefix.get_char(i) {
            return false;
        }
        i = i + 1;
    }
    assert(s@.take(m as int) =~= prefix@);
    true
}

/// Whether `needle` occurs in `s` starting at character `at`.
fn occurs_at(s: &str, needle: &str, at: usize) -> (r: bool)
    requires
        at + needle@.len() <= s@.len(),
        s@.len() <= usize::MAX,
    ensures
        r == (s@.subrange(at as int, at + needle@.len()) == needle@),
{
    let m = needle.unicode_len();
    let mut i: usize = 0;
    while i < m
        invariant
            m == needle@.len(),
            at + m <= s@.len(),
            s@.len() <= usize::MAX,
            i <= m,
            forall|j: int| 0 <= j < i ==> s@[at + j] == needle@[j],
        decreases m - i,
    {
        if s.get_char(at + i) != needle.get_char(i) {
            assert(s@.subrange(at as int, at + m)[i as int] != needle@[i as int]);
            return false;
        }
        i = i + 1;
    }
    assert(s@.subrange(at as int, at + m) =~= needle@);
    true
}

/// `str::contains` with a text pattern.
pub fn contains_str(s: &str, needle: &str) -> (r: bool)
    ensures
        r == contains_seq(s@, needle@),
{
    let n = s.unicode_len();
    let m = needle.unicode_len();
    if m > n {
        return false;
    }
    if m == 0 {
        assert(s@.subrange(0int, 0int + needle@.len()) =~= needle@);
        return true;
    }
    let mut i: usize = 0;
    while i < n - m + 1
        invariant
            n == s@.len(),
            m == needle@.len(),
            1 <= m <= n,
            i <= n - m + 1,
            forall|j: int|
                0 <= j < i ==> #[trigger] s@.subrange(j, j + m) != needle@,
        decreases n - m + 1 - i,
    {
        if occurs_at(s, needle, i) {
            return true;
        }
        i = i + 1;
    }
    false
}

/// `str::strip_prefix` with a text pattern.
pub fn strip_prefix<'a>(s: &'a str, prefix: &str) -> (r: Option<&'a str>)
    ensures
        match r {
            Some(rest) => starts_with_seq(s@, prefix@) && rest@ == s@.skip(prefix@.len() as int),
            None => !starts_with_seq(s@, prefix@),
        },
{
    if starts_with(s, prefix) {
        let n = s.unicode_len();
        let m = prefix.unicode_len();
        let rest = s.substring_char(m, n);
        assert(rest@ =~= s@.skip(m as int));
        Some(rest)
    } else {
        None
    }
}


/// Whether `a` comes before `b` in the order of `String`'s `Ord`, comparing from index `i` on:
/// the first character where they differ decides, and a text comes before its extensions.
pub open spec fn before_from(a: Seq<char>, b: Seq<char>, i: int) -> bool
    decreases a.len() - i,
{
    if i >= a.len() {
        i < b.len()
    } else if i >= b.len() {
        false
    } else if a[i] != b[i] {
        (a[i] as int) < (b[i] as int)
    } else {
        before_from(a, b, i + 1)
    }
}

/// Whether text `a` comes before text `b`.
pub open spec fn chars_before(a: Seq<char>, b: Seq<char>) -> bool {
    before_from(a, b, 0)
}

/// No text comes before itself.
pub proof fn lemma_before_irreflexive(a: Seq<char>, i: int)
    ensures
        !before_from(a, a, i),
    decreases a.len() - i,
{
    if i < a.len() {
        lemma_before_irreflexive(a, i + 1);
    }
}

/// Of two texts that agree before index `i`, one comes first or they are equal from `i` on.
pub proof fn lemma_before_total(a: Seq<char>, b: Seq<char>, i: int)
    requires
        0 <= i <= a.len(),
        i <= b.len(),
    ensures
        before_from(a, b, i) || before_from(b, a, i) || a.skip(i) == b.skip(i),
    decreases a.len() - i,
{
    if i >= a.len() {
        if i >= b.len() {
            assert(a.skip(i) =~= b.skip(i));
        }
    } else if i >= b.len() {
    } else if a[i] != b[i] {
    } else {
        lemma_before_total(a, b, i + 1);
        if a.skip(i + 1) == b.skip(i + 1) {
            assert(a.skip(i) =~= b.skip(i)) by {
                assert(a.skip(i + 1).len() == b.skip(i + 1).len());
                assert(a.len() == b.len());
                assert forall|j: int| 0 <= j < a.skip(i).len() implies a.skip(i)[j] == b.skip(i)[j] by {
                    if j > 0 {
                        assert(a.skip(i)[j] == a.skip(i + 1)[j - 1]);
                        assert(b.skip(i)[j] == b.skip(i + 1)[j - 1]);
                    }
                }
            }
        }
    }
}

/// The order of texts is transitive.
pub proof fn lemma_before_transitive(a: Seq<char>, b: Seq<char>, c: Seq<char>, i: int)
    requires
        before_from(a, b, i),
        before_from(b, c, i),
    ensures
        before_from(a, c, i),
    decreases a.len() - i,
{
    if i < a.len() && i < b.len() && i < c.len() && a[i] == b[i] && b[i] == c[i] {
        lemma_before_transitive(a, b, c, i + 1);
    }
}

/// Whether text `a` comes before text `b`, as `String`'s `Ord` orders them.
pub fn str_before(a: &str, b: &str) -> (r: bool)
    ensures
        r == chars_before(a@, b@),
{
    let n = a.unicode_len();
    let m = b.unicode_len();
    let mut i: usize = 0;
    while i < n && i < m
        invariant
            n == a@.len(),
            m == b@.len(),
            i <= n,
            i <= m,
            before_from(a@, b@, 0) == before_from(a@, b@, i as int),
        decreases n - i,
    {
        let ca = a.get_char(i);
        let cb = b.get_char(i);
        if ca != cb {
            return (ca as u32) < (cb as u32);
        }
        i = i + 1;
    }
    i < m
}

} // verus!
