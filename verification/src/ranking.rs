use vstd::prelude::*;
use crate::buckets::RunRecord;
use crate::number::{parse_usize_chars, parse_usize_spec};
use crate::text::{
    chars_of, char_views, contains_chars, lines_of, remove_all, remove_all_chars, seq_contains,
    seq_starts_with, split_lines_chars, split_on, split_on_chars, string_of, trim_chars,
    trim_seq, matches_at, occurs_at,
};

verus! {

/// `"line"`.
pub open spec fn word_line() -> Seq<char> {
    seq!['l', 'i', 'n', 'e']
}

/// `"File"`.
pub open spec fn word_file() -> Seq<char> {
    seq!['F', 'i', 'l', 'e']
}

/// The line number that one comma-separated part of a traceback line holds:
/// the trimmed part must begin with `line`; every `line` is removed from it
/// and the trimmed rest must parse as a `usize`.
pub open spec fn part_line_number(part: Seq<char>) -> Option<usize> {
    let t = trim_seq(part);
    if seq_starts_with(t, word_line()) {
        parse_usize_spec(trim_seq(remove_all(t, word_line())))
    } else {
        None
    }
}

/// The first line number held by one of `parts`.
pub open spec fn first_part_line_number(parts: Seq<Seq<char>>) -> Option<usize>
    decreases parts.len(),
{
    if parts.len() == 0 {
        None
    } else {
        match part_line_number(parts[0]) {
            Some(n) => Some(n),
            None => first_part_line_number(parts.drop_first()),
        }
    }
}

/// A traceback location line mentions both `File` and `line`.
pub open spec fn is_location_line(l: Seq<char>) -> bool {
    seq_contains(l, word_file()) && seq_contains(l, word_line())
}

/// The first line number found in the location lines of `lines`.
pub open spec fn first_line_number(lines: Seq<Seq<char>>) -> Option<usize>
    decreases lines.len(),
{
    if lines.len() == 0 {
        None
    } else {
        let here = if is_location_line(lines[0]) {
            first_part_line_number(split_on(lines[0], ','))
        } else {
            None
        };
        match here {
            Some(n) => Some(n),
            None => first_line_number(lines.drop_first()),
        }
    }
}

/// The line number of the error that a Python traceback reports.
pub open spec fn error_line_number_spec(stderr: Seq<char>) -> Option<usize> {
    first_line_number(lines_of(stderr))
}

fn line_word() -> (v: Vec<char>)
    ensures
        v@ == word_line(),
{
    let v = vec!['l', 'i', 'n', 'e'];
    assert(v@ =~= word_line());
    v
}

fn file_word() -> (v: Vec<char>)
    ensures
        v@ == word_file(),
{
    let v = vec!['F', 'i', 'l', 'e'];
    assert(v@ =~= word_file());
    v
}

/// The line number that one part holds, if any.
fn part_number(part: &Vec<char>) -> (r: Option<usize>)
    ensures
        r == part_line_number(part@),
{
    let word = line_word();
    let t = trim_chars(part);
    let starts = matches_at(&t, 0, &word);
    proof {
        if t@.len() >= 4 {
            assert(t@.subrange(0, 4) =~= t@.take(4));
        }
    }
    if starts {
        let stripped = remove_all_chars(&t, &word);
        let rest = trim_chars(&stripped);
        parse_usize_chars(&rest)
    } else {
        None
    }
}

/// Finds the line number of the error in the standard error of a failed
/// Python run: the first line that mentions `File` and `line` and has a
/// comma-separated part of the form `line <number>`.
pub fn extract_error_line_number(stderr: &str) -> (r: Option<usize>)
    ensures
        r == error_line_number_spec(stderr@),
{
    let v = chars_of(stderr);
    let lines = split_lines_chars(&v);
    let file = file_word();
    let word = line_word();
    let n = lines.len();
    let ghost all = char_views(lines@);
    assert(all.skip(0) =~= all);
    let mut i: usize = 0;
    while i < n
        invariant
            i <= n == lines.len(),
            all == char_views(lines@),
            all == lines_of(stderr@),
            file@ == word_file(),
            word@ == word_line(),
            first_line_number(all) == first_line_number(all.skip(i as int)),
        decreases n - i,
    {
        let ghost rest = all.skip(i as int);
        assert(rest[0] == lines@[i as int]@);
        assert(rest.drop_first() =~= all.skip(i + 1));
        let line = &lines[i];
        if contains_chars(line, &file) && contains_chars(line, &word) {
            let parts = split_on_chars(line, ',');
            let ghost ps = char_views(parts@);
            assert(ps.skip(0) =~= ps);
            let mut k: usize = 0;
            while k < parts.len()
                invariant
                    k <= parts.len(),
                    ps == char_views(parts@),
                    ps == split_on(rest[0], ','),
                    is_location_line(rest[0]),
                    first_line_number(all) == first_line_number(rest),
                    all == lines_of(stderr@),
                    rest.len() > 0,
                    first_part_line_number(ps) == first_part_line_number(ps.skip(k as int)),
                decreases parts.len() - k,
            {
                let ghost prest = ps.skip(k as int);
                assert(prest[0] == parts@[k as int]@);
                assert(prest.drop_first() =~= ps.skip(k + 1));
                let found = part_number(&parts[k]);
                if found.is_some() {
                    assert(first_part_line_number(prest) == found);
                    assert(first_part_line_number(ps) == found);
                    assert(first_line_number(rest) == found);
                    return found;
                }
                k = k + 1;
            }
            assert(ps.skip(k as int) =~= Seq::<Seq<char>>::empty());
        }
        i = i + 1;
    }
    None
}

/// The line of `script` that a traceback's line number `n` points at: line
/// `n` counted from 1, where `0` counts as `1`.
pub open spec fn script_line_spec(script: Seq<char>, n: usize) -> Option<Seq<char>> {
    let k: int = if n == 0 {
        0
    } else {
        n - 1
    };
    if k < lines_of(script).len() {
        Some(lines_of(script)[k])
    } else {
        None
    }
}

/// The line of `script` with the (1-based) number `line_number`.
pub fn get_line_from_script(script: &str, line_number: usize) -> (r: Option<String>)
    ensures
        match script_line_spec(script@, line_number) {
            Some(l) => r is Some && r->0@ == l,
            None => r is None,
        },
{
    let v = chars_of(script);
    let lines = split_lines_chars(&v);
    let k = line_number.saturating_sub(1);
    if k < lines.len() {
        assert(char_views(lines@)[k as int] == lines@[k as int]@);
        Some(string_of(&lines[k]))
    } else {
        None
    }
}


/// What splitting `text` at every run of non-word characters gives (the
/// `regex` crate's `Regex::split` with the pattern `\W+`).
pub uninterp spec fn regex_nonword_split(text: Seq<char>) -> Seq<Seq<char>>;

/// Splits `text` at every run of non-word characters (`\W+`), with the
/// `regex` crate. The contract names the pieces and claims nothing more of
/// them.
#[verifier::external_body]
fn split_non_word(text: &str) -> (pieces: Vec<Vec<char>>)
    ensures
        char_views(pieces@) == regex_nonword_split(text@),
{
    let re = regex::Regex::new(r"\W+").unwrap();
    re.split(text).map(|p| p.chars().collect()).collect()
}

/// The non-empty pieces of `ps`, in order.
pub open spec fn non_empty_pieces(ps: Seq<Seq<char>>) -> Seq<Seq<char>>
    decreases ps.len(),
{
    if ps.len() == 0 {
        seq![]
    } else if ps.last().len() > 0 {
        non_empty_pieces(ps.drop_last()).push(ps.last())
    } else {
        non_empty_pieces(ps.drop_last())
    }
}

/// The word tokens of `text`: the non-empty pieces between runs of
/// non-word characters.
pub open spec fn word_tokens_spec(text: Seq<char>) -> Seq<Seq<char>> {
    non_empty_pieces(regex_nonword_split(text))
}

/// The word tokens of `text`.
pub fn word_tokens(text: &str) -> (r: Vec<Vec<char>>)
    ensures
        char_views(r@) == word_tokens_spec(text@),
{
    let pieces = split_non_word(text);
    let ghost ps = char_views(pieces@);
    let mut out: Vec<Vec<char>> = Vec::new();
    let mut k: usize = 0;
    assert(ps.take(0) =~= Seq::<Seq<char>>::empty());
    assert(char_views(out@) =~= Seq::<Seq<char>>::empty());
    while k < pieces.len()
        invariant
            k <= pieces.len(),
            ps == char_views(pieces@),
            char_views(out@) == non_empty_pieces(ps.take(k as int)),
        decreases pieces.len() - k,
    {
        assert(ps.take(k + 1).drop_last() =~= ps.take(k as int));
        assert(ps.take(k + 1).last() == pieces@[k as int]@);
        if pieces[k].len() > 0 {
            let ghost old_out = out@;
            let piece = crate::text::sub_chars(&pieces[k], 0, pieces[k].len());
            assert(pieces@[k as int]@.subrange(0, pieces@[k as int]@.len() as int) =~= pieces@[k as int]@);
            out.push(piece);
            assert(char_views(out@) =~= char_views(old_out).push(pieces@[k as int]@));
        }
        k = k + 1;
    }
    assert(ps.take(k as int) =~= ps);
    out
}

/// `t` is one of `ts`.
fn has_token(ts: &Vec<Vec<char>>, t: &Vec<char>) -> (r: bool)
    ensures
        r == char_views(ts@).contains(t@),
{
    let mut i: usize = 0;
    while i < ts.len()
        invariant
            i <= ts.len(),
            forall|j: int| 0 <= j < i ==> ts@[j]@ != t@,
        decreases ts.len() - i,
    {
        if crate::text::same_chars(&ts[i], t) {
            assert(char_views(ts@)[i as int] == t@);
            return true;
        }
        i = i + 1;
    }
    assert forall|j: int| 0 <= j < char_views(ts@).len() implies char_views(ts@)[j] != t@ by {
        assert(char_views(ts@)[j] == ts@[j]@);
    }
    false
}

/// How many of `cur` (counted with repetition) occur in `hist`.
pub open spec fn shared_count(cur: Seq<Seq<char>>, hist: Seq<Seq<char>>) -> nat
    decreases cur.len(),
{
    if cur.len() == 0 {
        0
    } else {
        shared_count(cur.drop_last(), hist) + if hist.contains(cur.last()) {
            1nat
        } else {
            0nat
        }
    }
}

/// The token overlap of an error line with an earlier script: `None` when
/// the trimmed line is empty or has no token, else how many of the line's
/// tokens occur in the script and how many tokens the line has.
pub open spec fn line_overlap_spec(line: Seq<char>, script: Seq<char>) -> Option<(nat, nat)> {
    if trim_seq(line).len() == 0 {
        None
    } else {
        let cur = word_tokens_spec(line);
        if cur.len() == 0 {
            None
        } else {
            Some((shared_count(cur, word_tokens_spec(script)), cur.len()))
        }
    }
}

/// The token overlap of `current_line` with `historical_script`: the
/// numerator and denominator of the line score.
pub fn error_line_overlap(current_line: &str, historical_script: &str) -> (r: Option<(usize, usize)>)
    ensures
        match line_overlap_spec(current_line@, historical_script@) {
            Some((a, b)) => r == Some((a as usize, b as usize)),
            None => r is None,
        },
{
    let v = chars_of(current_line);
    let t = trim_chars(&v);
    if t.len() == 0 {
        return None;
    }
    let cur = word_tokens(current_line);
    if cur.len() == 0 {
        return None;
    }
    let hist = word_tokens(historical_script);
    let ghost cs = char_views(cur@);
    let ghost hs = char_views(hist@);
    let mut count: usize = 0;
    let mut k: usize = 0;
    assert(cs.take(0) =~= Seq::<Seq<char>>::empty());
    while k < cur.len()
        invariant
            k <= cur.len(),
            cs == char_views(cur@),
            hs == char_views(hist@),
            count <= k,
            count == shared_count(cs.take(k as int), hs),
        decreases cur.len() - k,
    {
        assert(cs.take(k + 1).drop_last() =~= cs.take(k as int));
        assert(cs.take(k + 1).last() == cur@[k as int]@);
        if has_token(&hist, &cur[k]) {
            count = count + 1;
        }
        k = k + 1;
    }
    assert(cs.take(k as int) =~= cs);
    Some((count, cur.len()))
}

/// `"def "`.
pub open spec fn word_def() -> Seq<char> {
    seq!['d', 'e', 'f', ' ']
}

/// `"if "`.
pub open spec fn word_if() -> Seq<char> {
    seq!['i', 'f', ' ']
}

/// The integer features of a script that its feature vector is made of.
#[derive(Debug, Clone, Copy, PartialEq, Eq)]
pub struct FeatureCounts {
    pub lines: usize,
    pub defs: usize,
    pub ifs: usize,
    pub bytes: usize,
}

/// Number of lines, of `def ` and of `if ` occurrences, and of UTF-8 bytes of
/// `script`.
pub fn feature_counts(script: &str) -> (f: FeatureCounts)
    ensures
        f.lines == lines_of(script@).len(),
        f.defs == crate::text::count_occurrences(script@, word_def()),
        f.ifs == crate::text::count_occurrences(script@, word_if()),
        f.bytes == script.len(),
{
    let v = chars_of(script);
    let lines = split_lines_chars(&v);
    let def_word = vec!['d', 'e', 'f', ' '];
    let if_word = vec!['i', 'f', ' '];
    assert(def_word@ =~= word_def());
    assert(if_word@ =~= word_if());
    let defs = crate::text::count_matches_chars(&v, &def_word);
    let ifs = crate::text::count_matches_chars(&v, &if_word);
    assert(char_views(lines@).len() == lines@.len());
    FeatureCounts { lines: lines.len(), defs, ifs, bytes: script.len() }
}


/// A cycle can be ranked when it has a run before its fix and the fix.
pub open spec fn rankable(cycles: Seq<Vec<RunRecord>>, i: int) -> bool {
    0 <= i < cycles.len() && cycles[i].len() >= 2
}

/// Cycle `i` comes before cycle `j` in the ranking: a higher score key, or
/// the same key and an earlier position.
pub open spec fn ranks_before(keys: Seq<u64>, i: int, j: int) -> bool {
    keys[i] > keys[j] || (keys[i] == keys[j] && i < j)
}

/// Cycle `i` comes first among the rankable cycles other than `skip`.
pub open spec fn is_top(cycles: Seq<Vec<RunRecord>>, keys: Seq<u64>, i: int, skip: int) -> bool {
    &&& rankable(cycles, i)
    &&& i != skip
    &&& forall|j: int| #[trigger] rankable(cycles, j) && j != i && j != skip ==> ranks_before(keys, i, j)
}

/// Like `is_top`, among the cycles before position `end`.
pub open spec fn is_top_before(
    cycles: Seq<Vec<RunRecord>>,
    keys: Seq<u64>,
    i: int,
    skip: int,
    end: int,
) -> bool {
    &&& rankable(cycles, i)
    &&& i < end
    &&& i != skip
    &&& forall|j: int|
        #[trigger] rankable(cycles, j) && j < end && j != i && j != skip ==> ranks_before(keys, i, j)
}

/// Positions of the first and second cycle of the ranking.
pub fn top_two(cycles: &Vec<Vec<RunRecord>>, keys: &Vec<u64>) -> (r: (Option<usize>, Option<usize>))
    requires
        keys.len() == cycles.len(),
    ensures
        r.0 is None <==> forall|j: int| !rankable(cycles@, j),
        r.0 matches Some(b) ==> is_top(cycles@, keys@, b as int, -1),
        r.1 is Some ==> r.0 is Some,
        r.0 matches Some(b) ==> (r.1 is None <==> forall|j: int|
            #[trigger] rankable(cycles@, j) ==> j == b),
        r.0 matches Some(b) ==> (r.1 matches Some(s) ==> is_top(cycles@, keys@, s as int, b as int)),
{
    let n = cycles.len();
    let mut best: Option<usize> = None;
    let mut second: Option<usize> = None;
    let mut i: usize = 0;
    while i < n
        invariant
            i <= n == cycles.len() == keys.len(),
            best is None <==> forall|j: int| #[trigger] rankable(cycles@, j) ==> j >= i,
            best matches Some(b) ==> is_top_before(cycles@, keys@, b as int, -1, i as int),
            second is Some ==> best is Some,
            best matches Some(b) ==> (second is None <==> forall|j: int|
                #[trigger] rankable(cycles@, j) && j < i ==> j == b),
            best matches Some(b) ==> (second matches Some(s) ==> is_top_before(
                cycles@,
                keys@,
                s as int,
                b as int,
                i as int,
            )),
        decreases n - i,
    {
        if cycles[i].len() >= 2 {
            assert(rankable(cycles@, i as int));
            match best {
                None => {
                    best = Some(i);
                },
                Some(b) => {
                    if keys[i] > keys[b] {
                        second = Some(b);
                        best = Some(i);
                    } else {
                        match second {
                            None => {
                                second = Some(i);
                            },
                            Some(s) => {
                                if keys[i] > keys[s] {
                                    second = Some(i);
                                }
                            },
                        }
                    }
                },
            }
        }
        i = i + 1;
    }
    (best, second)
}

/// Ranks the fixed cycles of an error bucket against the current failure and
/// keeps the best two. A cycle with fewer than two runs is left out; the
/// others are ordered by `score_keys` (one per cycle, higher first), equal
/// keys keeping their order.
pub fn generate_ranking(cycles: Vec<Vec<RunRecord>>, score_keys: &Vec<u64>) -> (r: Vec<Vec<RunRecord>>)
    requires
        score_keys.len() == cycles.len(),
    ensures
        r.len() <= 2,
        r.len() == 0 <==> forall|j: int| !rankable(cycles@, j),
        r.len() >= 1 ==> exists|b: int| is_top(cycles@, score_keys@, b, -1) && r[0] == cycles@[b],
        r.len() == 1 ==> exists|b: int| #![trigger rankable(cycles@, b)]
            rankable(cycles@, b) && forall|j: int| #[trigger] rankable(cycles@, j) ==> j == b,
        r.len() == 2 ==> exists|b: int, s: int|
            is_top(cycles@, score_keys@, b, -1) && is_top(cycles@, score_keys@, s, b) && r[0]
                == cycles@[b] && r[1] == cycles@[s],
{
    let (best, second) = top_two(&cycles, score_keys);
    let ghost orig = cycles@;
    let mut cycles = cycles;
    let mut first_cycle: Option<Vec<RunRecord>> = None;
    let mut second_cycle: Option<Vec<RunRecord>> = None;
    let mut k = cycles.len();
    while k > 0
        invariant
            k == cycles.len() <= orig.len(),
            cycles@ == orig.take(k as int),
            best matches Some(b) ==> b < orig.len() && (first_cycle is Some <==> b >= k) && (
            first_cycle matches Some(c) ==> c == orig[b as int]),
            best is None ==> first_cycle is None,
            second matches Some(s) ==> s < orig.len() && (second_cycle is Some <==> s >= k) && (
            second_cycle matches Some(c) ==> c == orig[s as int]),
            second is None ==> second_cycle is None,
            best matches Some(b) ==> (second matches Some(s) ==> s != b),
        decreases k,
    {
        let c = cycles.pop().unwrap();
        assert(c == orig[k - 1]);
        assert(cycles@ =~= orig.take(k - 1));
        k = k - 1;
        if best == Some(k) {
            first_cycle = Some(c);
        } else if second == Some(k) {
            second_cycle = Some(c);
        }
    }
    let mut r: Vec<Vec<RunRecord>> = Vec::new();
    match first_cycle {
        Some(c) => {
            r.push(c);
            match second_cycle {
                Some(d) => {
                    r.push(d);
                },
                None => {},
            }
        },
        None => {},
    }
    r
}


/// The first ranked cycle has at least two runs and a score key no lower
/// than that of any other rankable cycle; the second has a key no lower than
/// any rankable cycle but the first.
pub proof fn law_ranking_order(cycles: Seq<Vec<RunRecord>>, keys: Seq<u64>, b: int, s: int)
    requires
        keys.len() == cycles.len(),
    ensures
        is_top(cycles, keys, b, -1) ==> cycles[b].len() >= 2 && forall|j: int|
            #[trigger] rankable(cycles, j) ==> keys[j] <= keys[b],
        is_top(cycles, keys, b, -1) && is_top(cycles, keys, s, b) ==> cycles[s].len() >= 2
            && keys[s] <= keys[b] && forall|j: int| #[trigger] rankable(cycles, j) && j != b ==> keys[j]
            <= keys[s],
{
}

/// At most one cycle comes first: the ranking is determined.
pub proof fn law_ranking_unique(cycles: Seq<Vec<RunRecord>>, keys: Seq<u64>, a: int, b: int, skip: int)
    requires
        keys.len() == cycles.len(),
        is_top(cycles, keys, a, skip),
        is_top(cycles, keys, b, skip),
    ensures
        a == b,
{
    if a != b {
        assert(rankable(cycles, a) && rankable(cycles, b));
    }
}

/// The overlap of an error line with a script never exceeds the number of the
/// line's tokens, so the line score lies between 0 and 1.
pub proof fn law_overlap_at_most_tokens(line: Seq<char>, script: Seq<char>)
    ensures
        line_overlap_spec(line, script) matches Some((a, b)) ==> a <= b && b > 0,
{
    lemma_shared_count_bound(word_tokens_spec(line), word_tokens_spec(script));
}

proof fn lemma_shared_count_bound(cur: Seq<Seq<char>>, hist: Seq<Seq<char>>)
    ensures
        shared_count(cur, hist) <= cur.len(),
    decreases cur.len(),
{
    if cur.len() > 0 {
        lemma_shared_count_bound(cur.drop_last(), hist);
    }
}

/// A traceback line number of 0 points at the first line, as 1 does.
pub proof fn law_line_zero_is_first_line(script: Seq<char>)
    ensures
        script_line_spec(script, 0) == script_line_spec(script, 1),
{
}

/// A line number is only ever read from a location line (one that mentions
/// both `File` and `line`) of the standard error.
pub proof fn law_line_number_from_location_line(stderr: Seq<char>)
    ensures
        error_line_number_spec(stderr) is Some ==> exists|i: int|
            0 <= i < lines_of(stderr).len() && is_location_line(#[trigger] lines_of(stderr)[i]),
{
    lemma_first_line_number_location(lines_of(stderr));
}

proof fn lemma_first_line_number_location(lines: Seq<Seq<char>>)
    ensures
        first_line_number(lines) is Some ==> exists|i: int|
            0 <= i < lines.len() && is_location_line(#[trigger] lines[i]),
    decreases lines.len(),
{
    if lines.len() > 0 {
        lemma_first_line_number_location(lines.drop_first());
        if first_line_number(lines) is Some && !is_location_line(lines[0]) {
            let i = choose|i: int|
                0 <= i < lines.drop_first().len() && is_location_line(#[trigger] lines.drop_first()[i]);
            assert(lines[i + 1] == lines.drop_first()[i]);
        }
    }
}


/// The comma-separated parts of `l` give no line number.
pub open spec fn no_number_in(l: Seq<char>) -> bool {
    forall|k: int|
        0 <= k < split_on(l, ',').len() ==> (#[trigger] part_line_number(split_on(l, ',')[k])) is None
}

/// Part `k` of `l` is the first of its comma-separated parts to give a
/// number, and that number is `n`.
pub open spec fn first_number_at(l: Seq<char>, k: int, n: usize) -> bool {
    &&& 0 <= k < split_on(l, ',').len()
    &&& part_line_number(split_on(l, ',')[k]) == Some(n)
    &&& forall|k2: int|
        0 <= k2 < k ==> (#[trigger] part_line_number(split_on(l, ',')[k2])) is None
}

proof fn lemma_first_part(ps: Seq<Seq<char>>)
    ensures
        first_part_line_number(ps) is None ==> forall|k: int|
            0 <= k < ps.len() ==> (#[trigger] part_line_number(ps[k])) is None,
        first_part_line_number(ps) matches Some(n) ==> exists|k: int|
            0 <= k < ps.len() && part_line_number(ps[k]) == Some(n) && forall|k2: int|
                0 <= k2 < k ==> (#[trigger] part_line_number(ps[k2])) is None,
    decreases ps.len(),
{
    if ps.len() > 0 {
        lemma_first_part(ps.drop_first());
        let rest = ps.drop_first();
        assert forall|k: int| 0 < k < ps.len() implies ps[k] == rest[k - 1] by {}
        if let Some(n) = first_part_line_number(ps) {
            if part_line_number(ps[0]) is None {
                let k = choose|k: int|
                    0 <= k < rest.len() && part_line_number(rest[k]) == Some(n) && forall|k2: int|
                        0 <= k2 < k ==> (#[trigger] part_line_number(rest[k2])) is None;
                assert(part_line_number(ps[k + 1]) == Some(n));
                assert forall|k2: int| 0 <= k2 < k + 1 implies (#[trigger] part_line_number(
                    ps[k2],
                )) is None by {
                    if k2 > 0 {
                        assert(ps[k2] == rest[k2 - 1]);
                    }
                }
            } else {
                assert(part_line_number(ps[0]) == Some(n));
            }
        }
    }
}

proof fn lemma_first_line(lines: Seq<Seq<char>>)
    ensures
        first_line_number(lines) is None ==> forall|j: int|
            0 <= j < lines.len() && is_location_line(#[trigger] lines[j]) ==> no_number_in(lines[j]),
        first_line_number(lines) matches Some(n) ==> exists|i: int, k: int|
            0 <= i < lines.len() && is_location_line(lines[i]) && #[trigger] first_number_at(
                lines[i],
                k,
                n,
            ) && forall|j: int|
                0 <= j < i && is_location_line(#[trigger] lines[j]) ==> no_number_in(lines[j]),
    decreases lines.len(),
{
    if lines.len() > 0 {
        let rest = lines.drop_first();
        lemma_first_line(rest);
        lemma_first_part(split_on(lines[0], ','));
        assert forall|j: int| 0 < j < lines.len() implies lines[j] == rest[j - 1] by {}
        let here_none = !is_location_line(lines[0]) || first_part_line_number(
            split_on(lines[0], ','),
        ) is None;
        if here_none {
            assert(is_location_line(lines[0]) ==> no_number_in(lines[0]));
            if let Some(n) = first_line_number(lines) {
                let (i, k) = choose|i: int, k: int|
                    0 <= i < rest.len() && is_location_line(rest[i]) && #[trigger] first_number_at(
                        rest[i],
                        k,
                        n,
                    ) && forall|j: int|
                        0 <= j < i && is_location_line(#[trigger] rest[j]) ==> no_number_in(rest[j]);
                assert(lines[i + 1] == rest[i]);
                assert(first_number_at(lines[i + 1], k, n));
                assert forall|j: int|
                    0 <= j < i + 1 && is_location_line(#[trigger] lines[j]) implies no_number_in(
                    lines[j],
                ) by {
                    if j > 0 {
                        assert(lines[j] == rest[j - 1]);
                    }
                }
            } else {
                assert forall|j: int|
                    0 <= j < lines.len() && is_location_line(#[trigger] lines[j]) implies no_number_in(
                    lines[j],
                ) by {
                    if j > 0 {
                        assert(lines[j] == rest[j - 1]);
                    }
                }
            }
        } else {
            let n = first_part_line_number(split_on(lines[0], ',')).unwrap();
            let k = choose|k: int|
                0 <= k < split_on(lines[0], ',').len() && part_line_number(split_on(lines[0], ',')[k])
                    == Some(n) && forall|k2: int|
                    0 <= k2 < k ==> (#[trigger] part_line_number(split_on(lines[0], ',')[k2])) is None;
            assert(first_number_at(lines[0], k, n));
        }
    }
}

/// The error line number is that of the first location line of the standard
/// error that has a part giving a number: that line's first such part gives
/// it, and no location line before it gives any number. When there is no
/// number, no location line has a part that gives one.
pub proof fn law_first_location_line_wins(stderr: Seq<char>)
    ensures
        error_line_number_spec(stderr) matches Some(n) ==> exists|i: int, k: int|
            0 <= i < lines_of(stderr).len() && is_location_line(lines_of(stderr)[i])
                && #[trigger] first_number_at(lines_of(stderr)[i], k, n) && forall|j: int|
                0 <= j < i && is_location_line(#[trigger] lines_of(stderr)[j]) ==> no_number_in(
                    lines_of(stderr)[j],
                ),
        error_line_number_spec(stderr) is None ==> forall|j: int|
            0 <= j < lines_of(stderr).len() && is_location_line(#[trigger] lines_of(stderr)[j])
                ==> no_number_in(lines_of(stderr)[j]),
{
    lemma_first_line(lines_of(stderr));
}

/// A token of the line counts toward the overlap exactly when it equals a
/// token of the script: the overlap is the number of the line's tokens that
/// are among the script's tokens.
pub proof fn law_overlap_counts_equal_tokens(cur: Seq<Seq<char>>, hist: Seq<Seq<char>>)
    ensures
        shared_count(cur, hist) == cur.filter(|t: Seq<char>| hist.contains(t)).len(),
    decreases cur.len(),
{
    reveal_with_fuel(Seq::<_>::filter, 1);
    if cur.len() > 0 {
        law_overlap_counts_equal_tokens(cur.drop_last(), hist);
    }
}

/// The overlap of an error line with a script is how many of the line's
/// tokens are equal to some token of the script.
pub proof fn law_line_overlap_is_equal_token_count(line: Seq<char>, script: Seq<char>)
    ensures
        line_overlap_spec(line, script) matches Some((a, b)) ==> a == word_tokens_spec(line).filter(
            |t: Seq<char>| word_tokens_spec(script).contains(t),
        ).len() && b == word_tokens_spec(line).len(),
{
    law_overlap_counts_equal_tokens(word_tokens_spec(line), word_tokens_spec(script));
}

} // verus!
