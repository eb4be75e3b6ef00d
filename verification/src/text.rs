use vstd::prelude::*;

verus! {

/// Unicode `White_Space` property, the set of characters for which std's
/// `char::is_whitespace` holds.
pub open spec fn is_white_space(c: char) -> bool {
    ||| ('\u{9}' <= c && c <= '\u{d}')
    ||| c == ' '
    ||| c == '\u{85}'
    ||| c == '\u{a0}'
    ||| c == '\u{1680}'
    ||| ('\u{2000}' <= c && c <= '\u{200a}')
    ||| c == '\u{2028}'
    ||| c == '\u{2029}'
    ||| c == '\u{202f}'
    ||| c == '\u{205f}'
    ||| c == '\u{3000}'
}

/// `s` without its leading white space.
pub open spec fn trim_start_seq(s: Seq<char>) -> Seq<char>
    decreases s.len(),
{
    if s.len() > 0 && is_white_space(s[0]) {
        trim_start_seq(s.drop_first())
    } else {
        s
    }
}

/// `s` without its trailing white space.
pub open spec fn trim_end_seq(s: Seq<char>) -> Seq<char>
    decreases s.len(),
{
    if s.len() > 0 && is_white_space(s.last()) {
        trim_end_seq(s.drop_last())
    } else {
        s
    }
}

/// `s` without leading and trailing white space (std's `str::trim`).
pub open spec fn trim_seq(s: Seq<char>) -> Seq<char> {
    trim_end_seq(trim_start_seq(s))
}

/// Appends one character to a string (std's `String::push`).
#[verifier::external_body]
pub(crate) fn push_char(s: &mut String, c: char)
    ensures
        final(s)@ == old(s)@.push(c),
{
    s.push(c);
}

/// The characters of a string, in order.
pub fn chars_of(s: &str) -> (v: Vec<char>)
    ensures
        v@ == s@,
{
    let mut v: Vec<char> = Vec::new();
    for c in it: s.chars()
        invariant
            v@ == it.seq().take(it.index() as int),
            it.seq() == s@,
    {
        v.push(c);
    }
    v
}

/// The string made of `v[lo..hi]`.
pub fn string_from_range(v: &Vec<char>, lo: usize, hi: usize) -> (s: String)
    requires
        lo <= hi <= v.len(),
    ensures
        s@ == v@.subrange(lo as int, hi as int),
{
    let mut s = String::new();
    let mut i = lo;
    while i < hi
        invariant
            lo <= i <= hi <= v.len(),
            s@ == v@.subrange(lo as int, i as int),
        decreases hi - i,
    {
        push_char(&mut s, v[i]);
        i = i + 1;
    }
    s
}

/// Whether `c` is white space (std's `char::is_whitespace`).
pub fn is_whitespace_char(c: char) -> (b: bool)
    ensures
        b == is_white_space(c),
{
    ('\u{9}' <= c && c <= '\u{d}') || c == ' ' || c == '\u{85}' || c == '\u{a0}' || c
        == '\u{1680}' || ('\u{2000}' <= c && c <= '\u{200a}') || c == '\u{2028}' || c
        == '\u{2029}' || c == '\u{202f}' || c == '\u{205f}' || c == '\u{3000}'
}

proof fn lemma_trim_start_skip(s: Seq<char>, k: int)
    requires
        0 <= k <= s.len(),
        forall|i: int| 0 <= i < k ==> is_white_space(#[trigger] s[i]),
    ensures
        trim_start_seq(s) == trim_start_seq(s.skip(k)),
    decreases k,
{
    if k > 0 {
        assert(s.drop_first().skip(k - 1) =~= s.skip(k));
        lemma_trim_start_skip(s.drop_first(), k - 1);
    } else {
        assert(s.skip(0) =~= s);
    }
}

proof fn lemma_trim_end_take(s: Seq<char>, k: int)
    requires
        0 <= k <= s.len(),
        forall|i: int| k <= i < s.len() ==> is_white_space(#[trigger] s[i]),
    ensures
        trim_end_seq(s) == trim_end_seq(s.take(k)),
    decreases s.len() - k,
{
    if k < s.len() {
        assert(s.drop_last().take(k) =~= s.take(k));
        lemma_trim_end_take(s.drop_last(), k);
    } else {
        assert(s.take(k) =~= s);
    }
}

/// Bounds `lo..hi` of the trimmed part of `v`.
pub fn trim_bounds(v: &Vec<char>) -> (r: (usize, usize))
    ensures
        r.0 <= r.1 <= v.len(),
        v@.subrange(r.0 as int, r.1 as int) == trim_seq(v@),
{
    let n = v.len();
    let mut lo: usize = 0;
    while lo < n && is_whitespace_char(v[lo])
        invariant
            lo <= n == v.len(),
            forall|i: int| 0 <= i < lo ==> is_white_space(#[trigger] v@[i]),
        decreases n - lo,
    {
        lo = lo + 1;
    }
    proof {
        lemma_trim_start_skip(v@, lo as int);
    }
    let ghost rest = v@.skip(lo as int);
    assert(trim_start_seq(rest) == rest);
    let mut hi: usize = n;
    while hi > lo && is_whitespace_char(v[hi - 1])
        invariant
            lo <= hi <= n == v.len(),
            rest == v@.skip(lo as int),
            forall|i: int| hi <= i < n ==> is_white_space(#[trigger] v@[i]),
        decreases hi,
    {
        hi = hi - 1;
    }
    proof {
        assert forall|i: int| hi - lo <= i < rest.len() implies is_white_space(#[trigger] rest[i]) by {
            assert(rest[i] == v@[i + lo]);
        }
        lemma_trim_end_take(rest, hi - lo);
        let t = rest.take(hi - lo);
        assert(t =~= v@.subrange(lo as int, hi as int));
        if t.len() > 0 {
            assert(t.last() == v@[hi - 1]);
        }
    }
    (lo, hi)
}

/// `s` without leading and trailing white space.
pub fn trim(s: &str) -> (r: String)
    ensures
        r@ == trim_seq(s@),
{
    let v = chars_of(s);
    let (lo, hi) = trim_bounds(&v);
    string_from_range(&v, lo, hi)
}



/// Index of the first `c` in `s`, or `s.len()` when there is none.
pub open spec fn char_index(s: Seq<char>, c: char) -> nat
    decreases s.len(),
{
    if s.len() == 0 {
        0
    } else if s[0] == c {
        0
    } else {
        1 + char_index(s.drop_first(), c)
    }
}

/// `l` without one trailing `'\r'`.
pub open spec fn strip_cr(l: Seq<char>) -> Seq<char> {
    if l.len() > 0 && l.last() == '\r' {
        l.drop_last()
    } else {
        l
    }
}

pub proof fn lemma_char_index_bound(s: Seq<char>, c: char)
    ensures
        char_index(s, c) <= s.len(),
        char_index(s, c) < s.len() ==> s[char_index(s, c) as int] == c,
        forall|j: int| 0 <= j < char_index(s, c) ==> s[j] != c,
    decreases s.len(),
{
    if s.len() > 0 && s[0] != c {
        lemma_char_index_bound(s.drop_first(), c);
        assert forall|j: int| 0 <= j < char_index(s, c) implies s[j] != c by {
            if j > 0 {
                assert(s[j] == s.drop_first()[j - 1]);
            }
        }
    }
}

pub proof fn lemma_char_index_is(s: Seq<char>, c: char, k: int)
    requires
        0 <= k <= s.len(),
        forall|j: int| 0 <= j < k ==> s[j] != c,
        k < s.len() ==> s[k] == c,
    ensures
        char_index(s, c) == k,
    decreases k,
{
    if k > 0 {
        assert forall|j: int| 0 <= j < k - 1 implies s.drop_first()[j] != c by {
            assert(s.drop_first()[j] == s[j + 1]);
        }
        lemma_char_index_is(s.drop_first(), c, k - 1);
    }
}

/// The pieces of `s` between the separators `c` (std's `str::split` on a
/// character): never empty, one more piece than there are separators.
pub open spec fn split_on(s: Seq<char>, c: char) -> Seq<Seq<char>>
    decreases s.len(),
{
    let k = char_index(s, c);
    if k >= s.len() {
        seq![s]
    } else {
        proof {
            lemma_char_index_bound(s, c);
        }
        seq![s.take(k as int)] + split_on(s.skip((k + 1) as int), c)
    }
}

/// The lines of `s` (std's `str::lines`): pieces between `'\n'` separators, a
/// `'\r'` just before a `'\n'` dropped, and no final empty piece after a
/// trailing `'\n'`.
pub open spec fn lines_of(s: Seq<char>) -> Seq<Seq<char>>
    decreases s.len(),
{
    if s.len() == 0 {
        seq![]
    } else {
        let k = char_index(s, '\n');
        if k >= s.len() {
            seq![s]
        } else {
            proof {
                lemma_char_index_bound(s, '\n');
            }
            seq![strip_cr(s.take(k as int))] + lines_of(s.skip((k + 1) as int))
        }
    }
}

/// The views of a sequence of character vectors.
pub open spec fn char_views(v: Seq<Vec<char>>) -> Seq<Seq<char>> {
    v.map_values(|l: Vec<char>| l@)
}

/// A copy of `v[lo..hi]`.
pub fn sub_chars(v: &Vec<char>, lo: usize, hi: usize) -> (r: Vec<char>)
    requires
        lo <= hi <= v.len(),
    ensures
        r@ == v@.subrange(lo as int, hi as int),
{
    let mut r: Vec<char> = Vec::new();
    let mut i = lo;
    while i < hi
        invariant
            lo <= i <= hi <= v.len(),
            r@ == v@.subrange(lo as int, i as int),
        decreases hi - i,
    {
        r.push(v[i]);
        i = i + 1;
    }
    r
}

/// The string made of the characters `v`.
pub fn string_of(v: &Vec<char>) -> (s: String)
    ensures
        s@ == v@,
{
    let s = string_from_range(v, 0, v.len());
    assert(v@.subrange(0, v@.len() as int) =~= v@);
    s
}

/// The pieces of `v` between the separators `c`.
pub fn split_on_chars(v: &Vec<char>, c: char) -> (r: Vec<Vec<char>>)
    ensures
        char_views(r@) == split_on(v@, c),
{
    let n = v.len();
    let mut out: Vec<Vec<char>> = Vec::new();
    let mut start: usize = 0;
    let mut i: usize = 0;
    assert(v@.skip(0) =~= v@);
    assert(char_views(out@) + split_on(v@, c) =~= split_on(v@, c));
    while i < n
        invariant
            start <= i <= n == v.len(),
            split_on(v@, c) == char_views(out@) + split_on(v@.skip(start as int), c),
            forall|j: int| start <= j < i ==> v@[j] != c,
        decreases n - i,
    {
        if v[i] == c {
            let ghost rest = v@.skip(start as int);
            proof {
                assert forall|j: int| 0 <= j < i - start implies rest[j] != c by {
                    assert(rest[j] == v@[j + start]);
                }
                lemma_char_index_is(rest, c, i - start);
                assert(rest.take(i - start) =~= v@.subrange(start as int, i as int));
                assert(rest.skip(i - start + 1) =~= v@.skip(i + 1));
            }
            let piece = sub_chars(v, start, i);
            let ghost old_out = out@;
            out.push(piece);
            proof {
                assert(char_views(out@) =~= char_views(old_out).push(piece@));
            }
            start = i + 1;
        }
        i = i + 1;
    }
    let ghost rest = v@.skip(start as int);
    proof {
        assert forall|j: int| 0 <= j < rest.len() implies rest[j] != c by {
            assert(rest[j] == v@[j + start]);
        }
        lemma_char_index_is(rest, c, rest.len() as int);
        assert(rest =~= v@.subrange(start as int, n as int));
    }
    let piece = sub_chars(v, start, n);
    let ghost old_out = out@;
    out.push(piece);
    proof {
        assert(char_views(out@) =~= char_views(old_out).push(rest));
    }
    out
}

/// The lines of `v`, as std's `str::lines` yields them.
pub fn split_lines_chars(v: &Vec<char>) -> (r: Vec<Vec<char>>)
    ensures
        char_views(r@) == lines_of(v@),
{
    let n = v.len();
    let mut out: Vec<Vec<char>> = Vec::new();
    let mut start: usize = 0;
    let mut i: usize = 0;
    assert(v@.skip(0) =~= v@);
    assert(char_views(out@) + lines_of(v@) =~= lines_of(v@));
    while i < n
        invariant
            start <= i <= n == v.len(),
            lines_of(v@) == char_views(out@) + lines_of(v@.skip(start as int)),
            forall|j: int| start <= j < i ==> v@[j] != '\n',
        decreases n - i,
    {
        if v[i] == '\n' {
            let ghost rest = v@.skip(start as int);
            proof {
                assert forall|j: int| 0 <= j < i - start implies rest[j] != '\n' by {
                    assert(rest[j] == v@[j + start]);
                }
                lemma_char_index_is(rest, '\n', i - start);
                assert(rest.take(i - start) =~= v@.subrange(start as int, i as int));
                assert(rest.skip(i - start + 1) =~= v@.skip(i + 1));
            }
            let mut hi = i;
            if hi > start && v[hi - 1] == '\r' {
                hi = hi - 1;
            }
            let line = sub_chars(v, start, hi);
            proof {
                let whole = v@.subrange(start as int, i as int);
                if hi < i {
                    assert(whole.drop_last() =~= v@.subrange(start as int, hi as int));
                } else {
                    assert(whole =~= v@.subrange(start as int, hi as int));
                }
                assert(line@ == strip_cr(whole));
                assert(lines_of(rest) == seq![strip_cr(whole)] + lines_of(v@.skip(i + 1)));
            }
            let ghost old_out = out@;
            out.push(line);
            proof {
                assert(char_views(out@) =~= char_views(old_out).push(
                    strip_cr(v@.subrange(start as int, i as int)),
                ));
            }
            start = i + 1;
        }
        i = i + 1;
    }
    let ghost rest = v@.skip(start as int);
    if start < n {
        proof {
            assert forall|j: int| 0 <= j < rest.len() implies rest[j] != '\n' by {
                assert(rest[j] == v@[j + start]);
            }
            lemma_char_index_is(rest, '\n', rest.len() as int);
            assert(rest =~= v@.subrange(start as int, n as int));
        }
        let line = sub_chars(v, start, n);
        let ghost old_out = out@;
        out.push(line);
        proof {
            assert(char_views(out@) =~= char_views(old_out).push(rest));
        }
    } else {
        assert(rest.len() == 0);
        assert(char_views(out@) + lines_of(rest) =~= char_views(out@));
    }
    out
}

/// The lines of `s`, as std's `str::lines` yields them.
pub fn split_lines(s: &str) -> (r: Vec<String>)
    ensures
        views_of(r@) == lines_of(s@),
{
    let v = chars_of(s);
    let lines = split_lines_chars(&v);
    let mut out: Vec<String> = Vec::new();
    for k in 0..lines.len()
        invariant
            char_views(lines@) == lines_of(s@),
            views_of(out@) == char_views(lines@).take(k as int),
    {
        let ghost old_out = out@;
        out.push(string_of(&lines[k]));
        assert(views_of(out@) =~= views_of(old_out).push(lines@[k as int]@));
        assert(char_views(lines@).take(k + 1) =~= char_views(lines@).take(k as int).push(
            lines@[k as int]@,
        ));
    }
    assert(char_views(lines@).take(lines.len() as int) =~= char_views(lines@));
    out
}

/// The views of a sequence of strings.
pub open spec fn views_of(v: Seq<String>) -> Seq<Seq<char>> {
    v.map_values(|l: String| l@)
}

/// `s` begins with `p`.
pub open spec fn seq_starts_with(s: Seq<char>, p: Seq<char>) -> bool {
    p.len() <= s.len() && s.take(p.len() as int) == p
}

/// `s` ends with `p`.
pub open spec fn seq_ends_with(s: Seq<char>, p: Seq<char>) -> bool {
    p.len() <= s.len() && s.skip(s.len() - p.len()) == p
}

/// `p` occurs in `s` at index `i`.
pub open spec fn occurs_at(s: Seq<char>, p: Seq<char>, i: int) -> bool {
    0 <= i && i + p.len() <= s.len() && s.subrange(i, i + p.len()) == p
}

/// `p` occurs somewhere in `s` (std's `str::contains`).
pub open spec fn seq_contains(s: Seq<char>, p: Seq<char>) -> bool {
    exists|i: int| occurs_at(s, p, i)
}

/// `s` with every occurrence of the non-empty `p` removed, scanning from the
/// left without overlaps (std's `str::replace` with an empty replacement).
pub open spec fn remove_all(s: Seq<char>, p: Seq<char>) -> Seq<char>
    decreases s.len(),
{
    if s.len() == 0 {
        s
    } else if p.len() > 0 && seq_starts_with(s, p) {
        remove_all(s.skip(p.len() as int), p)
    } else {
        seq![s[0]] + remove_all(s.drop_first(), p)
    }
}

/// Number of non-overlapping occurrences of the non-empty `p` in `s`, counted
/// from the left (std's `str::matches(..).count()`).
pub open spec fn count_occurrences(s: Seq<char>, p: Seq<char>) -> nat
    decreases s.len(),
{
    if s.len() == 0 {
        0
    } else if p.len() > 0 && seq_starts_with(s, p) {
        1 + count_occurrences(s.skip(p.len() as int), p)
    } else {
        count_occurrences(s.drop_first(), p)
    }
}

/// `s` with every trailing repetition of the non-empty `p` removed (std's
/// `str::trim_end_matches`).
pub open spec fn strip_suffix_all(s: Seq<char>, p: Seq<char>) -> Seq<char>
    decreases s.len(),
{
    if p.len() > 0 && seq_ends_with(s, p) {
        strip_suffix_all(s.take(s.len() - p.len()), p)
    } else {
        s
    }
}

/// `a` and `b` hold the same characters.
pub fn same_chars(a: &Vec<char>, b: &Vec<char>) -> (r: bool)
    ensures
        r == (a@ == b@),
{
    if a.len() != b.len() {
        return false;
    }
    let mut i: usize = 0;
    while i < a.len()
        invariant
            i <= a.len() == b.len(),
            forall|j: int| 0 <= j < i ==> a@[j] == b@[j],
        decreases a.len() - i,
    {
        if a[i] != b[i] {
            return false;
        }
        i = i + 1;
    }
    assert(a@ =~= b@);
    true
}

/// Whether `p` occurs in `v` at index `i`.
pub fn matches_at(v: &Vec<char>, i: usize, p: &Vec<char>) -> (b: bool)
    ensures
        b == occurs_at(v@, p@, i as int),
{
    if i > v.len() || p.len() > v.len() - i {
        return false;
    }
    let mut k: usize = 0;
    while k < p.len()
        invariant
            i + p.len() <= v.len(),
            k <= p.len(),
            forall|j: int| 0 <= j < k ==> v@[i + j] == p@[j],
        decreases p.len() - k,
    {
        if v[i + k] != p[k] {
            assert(v@.subrange(i as int, i + p.len())[k as int] != p@[k as int]);
            return false;
        }
        k = k + 1;
    }
    assert(v@.subrange(i as int, i + p.len()) =~= p@);
    true
}

proof fn lemma_occurs_at_skip(s: Seq<char>, p: Seq<char>, i: int)
    requires
        0 <= i <= s.len(),
    ensures
        seq_starts_with(s.skip(i), p) == occurs_at(s, p, i),
{
    if p.len() <= s.len() - i {
        assert(s.skip(i).take(p.len() as int) =~= s.subrange(i, i + p.len()));
    }
}

/// `s` begins with `p`.
pub fn starts_with(s: &str, p: &str) -> (b: bool)
    ensures
        b == seq_starts_with(s@, p@),
{
    let v = chars_of(s);
    let q = chars_of(p);
    let b = matches_at(&v, 0, &q);
    proof {
        lemma_occurs_at_skip(v@, q@, 0);
        assert(v@.skip(0) =~= v@);
    }
    b
}

/// `p` occurs somewhere in `v`.
pub fn contains_chars(v: &Vec<char>, p: &Vec<char>) -> (b: bool)
    ensures
        b == seq_contains(v@, p@),
{
    if p.len() > v.len() {
        return false;
    }
    let last = v.len() - p.len();
    let mut i: usize = 0;
    loop
        invariant
            i <= last == v.len() - p.len(),
            forall|j: int| 0 <= j < i ==> !occurs_at(v@, p@, j),
        ensures
            forall|j: int| 0 <= j <= last ==> !occurs_at(v@, p@, j),
        decreases last - i,
    {
        if matches_at(v, i, p) {
            return true;
        }
        if i == last {
            break;
        }
        i = i + 1;
    }
    assert forall|j: int| !occurs_at(v@, p@, j) by {
        if 0 <= j && j + p@.len() <= v@.len() {
            assert(j <= last);
        }
    }
    false
}

/// `p` occurs somewhere in `s`.
pub fn contains(s: &str, p: &str) -> (b: bool)
    ensures
        b == seq_contains(s@, p@),
{
    let v = chars_of(s);
    let q = chars_of(p);
    contains_chars(&v, &q)
}

/// `v` with every occurrence of the non-empty `q` removed.
pub fn remove_all_chars(v: &Vec<char>, q: &Vec<char>) -> (r: Vec<char>)
    requires
        q@.len() > 0,
    ensures
        r@ == remove_all(v@, q@),
{
    let n = v.len();
    let mut out: Vec<char> = Vec::new();
    let mut i: usize = 0;
    assert(v@.skip(0) =~= v@);
    while i < n
        invariant
            i <= n == v.len(),
            q@.len() > 0,
            remove_all(v@, q@) == out@ + remove_all(v@.skip(i as int), q@),
        decreases n - i,
    {
        let ghost rest = v@.skip(i as int);
        proof {
            lemma_occurs_at_skip(v@, q@, i as int);
        }
        if matches_at(v, i, q) {
            proof {
                assert(rest.skip(q@.len() as int) =~= v@.skip(i + q@.len()));
            }
            i = i + q.len();
        } else {
            proof {
                assert(rest.drop_first() =~= v@.skip(i + 1));
                assert(out@.push(v@[i as int]) + remove_all(rest.drop_first(), q@) =~= out@ + (
                seq![rest[0]] + remove_all(rest.drop_first(), q@)));
            }
            out.push(v[i]);
            i = i + 1;
        }
    }
    assert(out@ + remove_all(v@.skip(i as int), q@) =~= out@);
    out
}

/// `s` with every occurrence of the non-empty `p` removed.
pub fn remove_all_of(s: &str, p: &str) -> (r: String)
    requires
        p@.len() > 0,
    ensures
        r@ == remove_all(s@, p@),
{
    let v = chars_of(s);
    let q = chars_of(p);
    let r = remove_all_chars(&v, &q);
    string_of(&r)
}

/// `v` without leading and trailing white space.
pub fn trim_chars(v: &Vec<char>) -> (r: Vec<char>)
    ensures
        r@ == trim_seq(v@),
{
    let (lo, hi) = trim_bounds(v);
    sub_chars(v, lo, hi)
}

/// Number of non-overlapping occurrences of the non-empty `q` in `v`.
pub fn count_matches_chars(v: &Vec<char>, q: &Vec<char>) -> (r: usize)
    requires
        q@.len() > 0,
    ensures
        r == count_occurrences(v@, q@),
{
    let n = v.len();
    let mut count: usize = 0;
    let mut i: usize = 0;
    assert(v@.skip(0) =~= v@);
    while i < n
        invariant
            i <= n == v.len(),
            q@.len() > 0,
            count <= i,
            count_occurrences(v@, q@) == count + count_occurrences(v@.skip(i as int), q@),
        decreases n - i,
    {
        let ghost rest = v@.skip(i as int);
        proof {
            lemma_occurs_at_skip(v@, q@, i as int);
        }
        if matches_at(v, i, q) {
            proof {
                assert(rest.skip(q@.len() as int) =~= v@.skip(i + q@.len()));
            }
            i = i + q.len();
            count = count + 1;
        } else {
            proof {
                assert(rest.drop_first() =~= v@.skip(i + 1));
            }
            i = i + 1;
        }
    }
    count
}

/// Number of non-overlapping occurrences of the non-empty `p` in `s`.
pub fn count_matches(s: &str, p: &str) -> (r: usize)
    requires
        p@.len() > 0,
    ensures
        r == count_occurrences(s@, p@),
{
    let v = chars_of(s);
    let q = chars_of(p);
    count_matches_chars(&v, &q)
}

/// `v` with every trailing repetition of the non-empty `q` removed.
pub fn strip_suffix_all_chars(v: &Vec<char>, q: &Vec<char>) -> (r: Vec<char>)
    requires
        q@.len() > 0,
    ensures
        r@ == strip_suffix_all(v@, q@),
{
    let mut hi = v.len();
    assert(v@.take(hi as int) =~= v@);
    while hi >= q.len() && matches_at(v, hi - q.len(), q)
        invariant
            hi <= v.len(),
            q@.len() > 0,
            strip_suffix_all(v@, q@) == strip_suffix_all(v@.take(hi as int), q@),
        decreases hi,
    {
        let ghost t = v@.take(hi as int);
        proof {
            assert(t.skip(t.len() - q@.len()) =~= v@.subrange(hi - q@.len(), hi as int));
            assert(t.take(t.len() - q@.len()) =~= v@.take(hi - q@.len()));
        }
        hi = hi - q.len();
    }
    proof {
        let t = v@.take(hi as int);
        if q@.len() <= t.len() {
            assert(t.skip(t.len() - q@.len()) =~= v@.subrange(hi - q@.len(), hi as int));
        }
        assert(strip_suffix_all(t, q@) == t);
        assert(v@.subrange(0, hi as int) =~= t);
    }
    sub_chars(v, 0, hi)
}

/// `s` with every trailing repetition of the non-empty `p` removed.
pub fn strip_suffix_all_of(s: &str, p: &str) -> (r: String)
    requires
        p@.len() > 0,
    ensures
        r@ == strip_suffix_all(s@, p@),
{
    let v = chars_of(s);
    let q = chars_of(p);
    let r = strip_suffix_all_chars(&v, &q);
    string_of(&r)
}


proof fn lemma_trim_start_shape(s: Seq<char>)
    ensures
        trim_start_seq(s).len() <= s.len(),
        trim_start_seq(s) == s.skip(s.len() - trim_start_seq(s).len()),
        trim_start_seq(s).len() > 0 ==> !is_white_space(trim_start_seq(s)[0]),
    decreases s.len(),
{
    if s.len() > 0 && is_white_space(s[0]) {
        lemma_trim_start_shape(s.drop_first());
        let t = trim_start_seq(s.drop_first());
        assert(s.drop_first().skip(s.drop_first().len() - t.len()) =~= s.skip(s.len() - t.len()));
    } else {
        assert(s.skip(0) =~= s);
    }
}

proof fn lemma_trim_end_shape(s: Seq<char>)
    ensures
        trim_end_seq(s).len() <= s.len(),
        trim_end_seq(s) == s.take(trim_end_seq(s).len() as int),
        trim_end_seq(s).len() > 0 ==> !is_white_space(trim_end_seq(s).last()),
    decreases s.len(),
{
    if s.len() > 0 && is_white_space(s.last()) {
        lemma_trim_end_shape(s.drop_last());
        let t = trim_end_seq(s.drop_last());
        assert(s.drop_last().take(t.len() as int) =~= s.take(t.len() as int));
    } else {
        assert(s.take(s.len() as int) =~= s);
    }
}

/// Trimmed text neither begins nor ends with white space, and trimming it
/// again changes nothing.
pub proof fn law_trim_idempotent(s: Seq<char>)
    ensures
        trim_seq(s).len() > 0 ==> !is_white_space(trim_seq(s)[0]) && !is_white_space(
            trim_seq(s).last(),
        ),
        trim_seq(trim_seq(s)) == trim_seq(s),
{
    let u = trim_start_seq(s);
    let t = trim_end_seq(u);
    lemma_trim_start_shape(s);
    lemma_trim_end_shape(u);
    if t.len() > 0 {
        assert(t[0] == u[0]);
        assert(trim_start_seq(t) == t);
        assert(trim_end_seq(t) == t);
    } else {
        assert(trim_start_seq(t) == t);
    }
}

/// No line that `lines_of` yields holds a `'\n'`.
pub proof fn law_lines_hold_no_newline(s: Seq<char>)
    ensures
        forall|i: int, j: int|
            0 <= i < lines_of(s).len() && 0 <= j < lines_of(s)[i].len() ==> #[trigger] lines_of(
                s,
            )[i][j] != '\n',
    decreases s.len(),
{
    if s.len() > 0 {
        let k = char_index(s, '\n');
        lemma_char_index_bound(s, '\n');
        if k < s.len() {
            law_lines_hold_no_newline(s.skip((k + 1) as int));
            let head = strip_cr(s.take(k as int));
            let rest = lines_of(s.skip((k + 1) as int));
            assert(lines_of(s) == seq![head] + rest);
            assert forall|i: int, j: int|
                0 <= i < lines_of(s).len() && 0 <= j < lines_of(s)[i].len() implies #[trigger] lines_of(
                    s,
                )[i][j] != '\n' by {
                if i == 0 {
                    assert(lines_of(s)[0] == head);
                    assert(head[j] == s[j]);
                } else {
                    assert(lines_of(s)[i] == rest[i - 1]);
                }
            }
        } else {
            assert(lines_of(s) == seq![s]);
        }
    }
}

/// After every trailing repetition of a non-empty `p` is removed, the text no
/// longer ends with `p`, and removing again changes nothing.
pub proof fn law_strip_suffix_all(s: Seq<char>, p: Seq<char>)
    requires
        p.len() > 0,
    ensures
        !seq_ends_with(strip_suffix_all(s, p), p),
        strip_suffix_all(strip_suffix_all(s, p), p) == strip_suffix_all(s, p),
    decreases s.len(),
{
    if seq_ends_with(s, p) {
        law_strip_suffix_all(s.take(s.len() - p.len()), p);
    }
}


/// Every character of the trimmed text is a character of the text: trimming
/// only removes characters from the ends.
pub proof fn law_trim_keeps_characters(s: Seq<char>)
    ensures
        exists|a: int|
            0 <= a && a + trim_seq(s).len() <= s.len() && trim_seq(s) == #[trigger] s.subrange(
                a,
                a + trim_seq(s).len(),
            ),
        forall|m: int| 0 <= m < trim_seq(s).len() ==> s.contains(#[trigger] trim_seq(s)[m]),
{
    let u = trim_start_seq(s);
    lemma_trim_start_shape(s);
    lemma_trim_end_shape(u);
    let t = trim_seq(s);
    let a = s.len() - u.len();
    assert(t =~= s.subrange(a, a + t.len()));
    assert forall|m: int| 0 <= m < t.len() implies s.contains(#[trigger] t[m]) by {
        assert(s[a + m] == t[m]);
    }
}

} // verus!
