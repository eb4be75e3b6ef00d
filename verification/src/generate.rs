use vstd::prelude::*;
use crate::buckets::RunRecord;
use crate::ranking::{extract_error_line_number, error_line_number_spec, get_line_from_script, script_line_spec};
use crate::text::{
    char_index, char_views, chars_of, lines_of, split_lines_chars, string_of, strip_suffix_all,
    strip_suffix_all_of, trim_chars, trim_seq, views_of, lemma_char_index_bound,
};

verus! {

broadcast use vstd::seq_lib::to_multiset_insert, vstd::seq_lib::to_multiset_build;

/// `a` comes no later than `b` in the order of their characters' code
/// points, a prefix first (the order of std's `str` comparison).
pub open spec fn lex_le(a: Seq<char>, b: Seq<char>) -> bool
    decreases a.len(),
{
    if a.len() == 0 {
        true
    } else if b.len() == 0 {
        false
    } else if a[0] != b[0] {
        a[0] < b[0]
    } else {
        lex_le(a.drop_first(), b.drop_first())
    }
}

pub proof fn lemma_lex_total(a: Seq<char>, b: Seq<char>)
    ensures
        lex_le(a, b) || lex_le(b, a),
    decreases a.len(),
{
    if a.len() > 0 && b.len() > 0 && a[0] == b[0] {
        lemma_lex_total(a.drop_first(), b.drop_first());
    }
}

pub proof fn lemma_lex_transitive(a: Seq<char>, b: Seq<char>, c: Seq<char>)
    requires
        lex_le(a, b),
        lex_le(b, c),
    ensures
        lex_le(a, c),
    decreases a.len(),
{
    if a.len() > 0 && b.len() > 0 && c.len() > 0 && a[0] == b[0] && b[0] == c[0] {
        lemma_lex_transitive(a.drop_first(), b.drop_first(), c.drop_first());
    }
}

/// `a` comes no later than `b`.
pub fn lex_le_chars(a: &Vec<char>, b: &Vec<char>) -> (r: bool)
    ensures
        r == lex_le(a@, b@),
{
    let mut i: usize = 0;
    assert(a@.skip(0) =~= a@);
    assert(b@.skip(0) =~= b@);
    while i < a.len() && i < b.len() && a[i] == b[i]
        invariant
            i <= a.len(),
            i <= b.len(),
            forall|j: int| 0 <= j < i ==> a@[j] == b@[j],
            lex_le(a@, b@) == lex_le(a@.skip(i as int), b@.skip(i as int)),
        decreases a.len() - i,
    {
        assert(a@.skip(i as int).drop_first() =~= a@.skip(i + 1));
        assert(b@.skip(i as int).drop_first() =~= b@.skip(i + 1));
        i = i + 1;
    }
    if i == a.len() {
        assert(a@.skip(i as int).len() == 0);
        true
    } else if i == b.len() {
        assert(b@.skip(i as int).len() == 0);
        false
    } else {
        assert(a@.skip(i as int)[0] == a@[i as int]);
        assert(b@.skip(i as int)[0] == b@[i as int]);
        a[i] < b[i]
    }
}

/// The views of `s` are in order.
pub open spec fn is_sorted(s: Seq<Seq<char>>) -> bool {
    forall|i: int, j: int| 0 <= i < j < s.len() ==> lex_le(#[trigger] s[i], #[trigger] s[j])
}

/// The saved versions of a script, ordered by their paths (oldest first, as
/// the time stamps in their names order them).
pub fn sort_versions(paths: Vec<String>) -> (r: Vec<String>)
    ensures
        r@.to_multiset() == paths@.to_multiset(),
        is_sorted(views_of(r@)),
{
    let ghost all = paths@;
    let mut res: Vec<String> = Vec::new();
    let mut keys: Vec<Vec<char>> = Vec::new();
    assert(all.take(0) =~= Seq::<String>::empty());
    for p in it: paths.into_iter()
        invariant
            it.seq() == all,
            res@.to_multiset() == all.take(it.index() as int).to_multiset(),
            keys.len() == res.len(),
            forall|k: int| 0 <= k < keys.len() ==> (#[trigger] keys@[k])@ == res@[k]@,
            is_sorted(views_of(res@)),
    {
        let ghost i = it.index();
        assert(all.take(i + 1) =~= all.take(i as int).push(p));
        let key = chars_of(p.as_str());
        let mut pos: usize = 0;
        while pos < keys.len() && lex_le_chars(&keys[pos], &key)
            invariant
                pos <= keys.len() == res.len(),
                forall|k: int| 0 <= k < pos ==> lex_le(#[trigger] res@[k]@, key@),
                forall|k: int| 0 <= k < keys.len() ==> (#[trigger] keys@[k])@ == res@[k]@,
            decreases keys.len() - pos,
        {
            pos = pos + 1;
        }
        proof {
            if pos < keys.len() {
                lemma_lex_total(keys@[pos as int]@, key@);
            }
        }
        let ghost old_res = res@;
        let ghost old_keys = keys@;
        res.insert(pos, p);
        keys.insert(pos, key);
        proof {
            let v = views_of(res@);
            assert forall|a: int, b: int| 0 <= a < b < v.len() implies lex_le(
                #[trigger] v[a],
                #[trigger] v[b],
            ) by {
                let ov = views_of(old_res);
                if b < pos {
                    assert(v[a] == ov[a] && v[b] == ov[b]);
                } else if b == pos {
                    assert(v[a] == ov[a]);
                } else if a < pos {
                    assert(v[a] == ov[a] && v[b] == ov[b - 1]);
                    assert(lex_le(ov[a], key@));
                    assert(lex_le(key@, ov[pos as int]));
                    if b - 1 > pos {
                        lemma_lex_transitive(key@, ov[pos as int], ov[b - 1]);
                    }
                    lemma_lex_transitive(ov[a], key@, ov[b - 1]);
                } else if a == pos {
                    assert(v[b] == ov[b - 1]);
                    if b - 1 > pos {
                        lemma_lex_transitive(key@, ov[pos as int], ov[b - 1]);
                    }
                } else {
                    assert(v[a] == ov[a - 1] && v[b] == ov[b - 1]);
                }
            }
            assert forall|k: int| 0 <= k < keys.len() implies (#[trigger] keys@[k])@ == res@[k]@ by {
                if k < pos {
                    assert(keys@[k] == old_keys[k]);
                } else if k > pos {
                    assert(keys@[k] == old_keys[k - 1]);
                }
            }
        }
    }
    assert(all.take(all.len() as int) =~= all);
    res
}


/// The last of `lines` that holds a `:`.
pub open spec fn last_line_with_colon(lines: Seq<Seq<char>>) -> Option<Seq<char>>
    decreases lines.len(),
{
    if lines.len() == 0 {
        None
    } else if char_index(lines.last(), ':') < lines.last().len() {
        Some(lines.last())
    } else {
        last_line_with_colon(lines.drop_last())
    }
}

/// The error type of a failed run: what comes before the first `:` of the
/// last line of its standard error that holds a `:`, trimmed, or
/// `UnknownError` when no line holds one.
pub open spec fn error_type_spec(stderr: Seq<char>) -> Seq<char> {
    match last_line_with_colon(lines_of(stderr)) {
        Some(l) => trim_seq(l.take(char_index(l, ':') as int)),
        None => "UnknownError"@,
    }
}

/// The error type named by the standard error of a failed Python run (the
/// bucket its runs are recorded in).
pub fn error_type_of(stderr: &str) -> (r: String)
    ensures
        r@ == error_type_spec(stderr@),
{
    let v = chars_of(stderr);
    let lines = split_lines_chars(&v);
    let ghost all = char_views(lines@);
    let mut k = lines.len();
    assert(all.take(k as int) =~= all);
    while k > 0
        invariant
            k <= lines.len(),
            all == char_views(lines@),
            all == lines_of(stderr@),
            last_line_with_colon(all) == last_line_with_colon(all.take(k as int)),
        decreases k,
    {
        let line = &lines[k - 1];
        let ghost t = all.take(k as int);
        assert(t.last() == line@);
        assert(t.drop_last() =~= all.take(k - 1));
        let mut j: usize = 0;
        while j < line.len() && line[j] != ':'
            invariant
                j <= line.len(),
                forall|m: int| 0 <= m < j ==> line@[m] != ':',
            decreases line.len() - j,
        {
            j = j + 1;
        }
        proof {
            lemma_char_index_bound(line@, ':');
            crate::text::lemma_char_index_is(line@, ':', j as int);
        }
        if j < line.len() {
            let head = crate::text::sub_chars(line, 0, j);
            assert(head@ =~= line@.take(j as int));
            let trimmed = trim_chars(&head);
            return string_of(&trimmed);
        }
        k = k - 1;
    }
    assert(all.take(0) =~= Seq::<Seq<char>>::empty());
    "UnknownError".to_owned()
}

/// `.py`.
pub open spec fn py_suffix() -> Seq<char> {
    seq!['.', 'p', 'y']
}

/// The name of a script without its trailing `.py` suffixes.
pub fn script_stem(script_name: &str) -> (r: String)
    ensures
        r@ == strip_suffix_all(script_name@, py_suffix()),
{
    let v = chars_of(script_name);
    let p = vec!['.', 'p', 'y'];
    assert(p@ =~= py_suffix());
    let r = crate::text::strip_suffix_all_chars(&v, &p);
    string_of(&r)
}

/// Name of the history file that saves a version of `script_name` made at
/// `date_stamp`: `<stem>_<date_stamp>.json`.
pub open spec fn history_file_name_spec(script_name: Seq<char>, date_stamp: Seq<char>) -> Seq<char> {
    strip_suffix_all(script_name, py_suffix()) + "_"@ + date_stamp + ".json"@
}

/// Name of the history file for a version of `script_name` saved at
/// `date_stamp`.
pub fn history_file_name(script_name: &str, date_stamp: &str) -> (r: String)
    ensures
        r@ == history_file_name_spec(script_name@, date_stamp@),
{
    let mut r = script_stem(script_name);
    r.append("_");
    r.append(date_stamp);
    r.append(".json");
    r
}

/// Positions (in the sorted versions) of the latest and of the one before
/// it, which a revert restores; `None` when there are fewer than two.
pub fn revert_targets(version_count: usize) -> (r: Option<(usize, usize)>)
    ensures
        version_count >= 2 ==> r == Some(((version_count - 1) as usize, (version_count - 2) as usize)),
        version_count < 2 ==> r is None,
{
    if version_count >= 2 {
        Some((version_count - 1, version_count - 2))
    } else {
        None
    }
}

/// Whether the current script is saved as a new version: when no version
/// exists, or the latest one differs from it.
pub fn should_save(latest: Option<&str>, current: &str) -> (b: bool)
    ensures
        b == match latest {
            None => true,
            Some(p) => p@ != current@,
        },
{
    match latest {
        None => true,
        Some(p) => {
            let a = chars_of(p);
            let c = chars_of(current);
            !crate::text::same_chars(&a, &c)
        },
    }
}

/// When the changes against the latest version are empty and an older
/// version exists, the position of the version to compare with instead.
pub fn fallback_diff_version(first_diff: &str, version_count: usize) -> (r: Option<usize>)
    ensures
        first_diff@.len() == 0 && version_count >= 2 ==> r == Some((version_count - 2) as usize),
        !(first_diff@.len() == 0 && version_count >= 2) ==> r is None,
{
    if first_diff.is_empty() && version_count >= 2 {
        Some(version_count - 2)
    } else {
        None
    }
}

/// The pairs of consecutive versions whose changes are compared before an
/// explanation: positions `start..end`, where pair `i` is versions `i` and
/// `i + 1`, covering at most the last three versions.
pub open spec fn explain_window_spec(version_count: nat) -> (int, int) {
    if version_count >= 2 {
        let m: int = if version_count - 1 < 3 {
            version_count - 1
        } else {
            3
        };
        (version_count - m, version_count - 1)
    } else {
        (0, 0)
    }
}

/// The positions of the version pairs compared before an explanation.
pub fn explain_window(version_count: usize) -> (r: (usize, usize))
    ensures
        r.0 as int == explain_window_spec(version_count as nat).0,
        r.1 as int == explain_window_spec(version_count as nat).1,
{
    if version_count >= 2 {
        let m = if version_count - 1 < 3 {
            version_count - 1
        } else {
            3
        };
        (version_count - m, version_count - 1)
    } else {
        (0, 0)
    }
}

/// How many of `rest`, from its start, equal `first`.
pub open spec fn run_after(first: Seq<char>, rest: Seq<Seq<char>>) -> nat
    decreases rest.len(),
{
    if rest.len() == 0 {
        0
    } else if rest[0] == first {
        1 + run_after(first, rest.drop_first())
    } else {
        0
    }
}

/// How many of the compared changes after the first repeat it, up to the
/// first that differs.
pub open spec fn repeated_changes_spec(diffs: Seq<Seq<char>>) -> nat {
    if diffs.len() == 0 {
        0
    } else {
        run_after(diffs[0], diffs.drop_first())
    }
}

/// How many of `diffs` after the first repeat it, up to the first that
/// differs.
pub fn repeated_changes(diffs: &Vec<String>) -> (r: usize)
    ensures
        r == repeated_changes_spec(views_of(diffs@)),
{
    if diffs.len() == 0 {
        return 0;
    }
    let ghost ds = views_of(diffs@);
    let first = chars_of(diffs[0].as_str());
    let mut count: usize = 0;
    let mut k: usize = 1;
    assert(ds.drop_first().skip(0) =~= ds.drop_first());
    while k < diffs.len()
        invariant
            1 <= k <= diffs.len(),
            ds == views_of(diffs@),
            first@ == ds[0],
            count == k - 1,
            repeated_changes_spec(ds) == count + run_after(first@, ds.drop_first().skip(k - 1)),
        decreases diffs.len() - k,
    {
        let ghost rest = ds.drop_first().skip(k - 1);
        assert(rest[0] == diffs@[k as int]@);
        assert(rest.drop_first() =~= ds.drop_first().skip(k as int));
        let cur = chars_of(diffs[k].as_str());
        if !crate::text::same_chars(&cur, &first) {
            return count;
        }
        count = count + 1;
        k = k + 1;
    }
    count
}

/// The prompt that asks for an explanation of a failure.
pub open spec fn explain_prompt_spec(error_output: Seq<char>) -> Seq<char> {
    "Provide the error line number and explain in a compact screen readable format for blind-low-vision programmers. Here is the error:\n"@
        + error_output
}

/// The prompt used when the same changes keep failing.
pub open spec fn repeat_prompt_spec(error_output: Seq<char>) -> Seq<char> {
    "This script has failed multiple times even with the same changes. Please Provide the error line number, and offer an alternative solution or suggest a different debugging approach in a compact screen readable format for blind-low-vision programmers. Here is the error:\n"@
        + error_output
}

/// The prompt asking for an explanation of a failure.
pub fn explain_prompt(error_output: &str) -> (r: String)
    ensures
        r@ == explain_prompt_spec(error_output@),
{
    let mut r = "Provide the error line number and explain in a compact screen readable format for blind-low-vision programmers. Here is the error:\n".to_owned();
    r.append(error_output);
    r
}

/// The explanation prompt, chosen by how many compared changes repeated:
/// two or more repeats ask for another approach.
pub fn explain_prompt_for(repeats: usize, error_output: &str) -> (r: String)
    ensures
        repeats >= 2 ==> r@ == repeat_prompt_spec(error_output@),
        repeats < 2 ==> r@ == explain_prompt_spec(error_output@),
{
    if repeats >= 2 {
        let mut r = "This script has failed multiple times even with the same changes. Please Provide the error line number, and offer an alternative solution or suggest a different debugging approach in a compact screen readable format for blind-low-vision programmers. Here is the error:\n".to_owned();
        r.append(error_output);
        r
    } else {
        explain_prompt(error_output)
    }
}

/// What the context step of a failed run does.
#[derive(Debug, Clone, Copy, PartialEq, Eq)]
pub enum ContextStep {
    /// No context was asked for, nor found automatically.
    Skip,
    /// Context was asked for but no fixed cycle exists: explain instead.
    Explain,
    /// Rank the fixed cycles and build the context prompt.
    Rank,
}

/// The context step: asked for (`manual`) or automatic (`auto`, which needs
/// fixed cycles); without fixed cycles it falls back to an explanation.
pub fn context_step(manual: bool, auto: bool, have_fixed: bool) -> (r: ContextStep)
    ensures
        !(manual || (auto && have_fixed)) ==> r == ContextStep::Skip,
        (manual || (auto && have_fixed)) && !have_fixed ==> r == ContextStep::Explain,
        (manual || (auto && have_fixed)) && have_fixed ==> r == ContextStep::Rank,
{
    if !(manual || (auto && have_fixed)) {
        ContextStep::Skip
    } else if !have_fixed {
        ContextStep::Explain
    } else {
        ContextStep::Rank
    }
}

/// The script line that the traceback in `stderr` points at, or the empty
/// text when it points at none.
pub open spec fn failing_line_spec(stderr: Seq<char>, script: Seq<char>) -> Seq<char> {
    match error_line_number_spec(stderr) {
        Some(n) => match script_line_spec(script, n) {
            Some(l) => l,
            None => Seq::empty(),
        },
        None => Seq::empty(),
    }
}

/// The failing line of `script` according to the traceback in `stderr`.
pub fn failing_line(stderr: &str, script: &str) -> (r: String)
    ensures
        r@ == failing_line_spec(stderr@, script@),
{
    match extract_error_line_number(stderr) {
        Some(n) => match get_line_from_script(script, n) {
            Some(l) => l,
            None => String::new(),
        },
        None => String::new(),
    }
}


/// What one ranked cycle contributes to the context prompt: its run before
/// the fix and its fix, each under a heading; nothing for a cycle with fewer
/// than two runs.
pub open spec fn fix_section(c: Seq<RunRecord>) -> Seq<char> {
    if c.len() < 2 {
        Seq::empty()
    } else {
        "\n[before fix]\n"@ + c[c.len() - 2].run_contents@ + "\n"@ + "\n[after fix]\n"@
            + c[c.len() - 1].run_contents@ + "\n"@
    }
}

/// The sections of `cycles`, in order.
pub open spec fn fix_sections(cycles: Seq<Vec<RunRecord>>) -> Seq<char>
    decreases cycles.len(),
{
    if cycles.len() == 0 {
        Seq::empty()
    } else {
        fix_sections(cycles.drop_last()) + fix_section(cycles.last()@)
    }
}

/// The earlier fixes shown in the context prompt: those of the first two
/// ranked cycles.
pub open spec fn previous_fixes_spec(ranked: Seq<Vec<RunRecord>>) -> Seq<char> {
    fix_sections(
        if ranked.len() > 2 {
            ranked.take(2)
        } else {
            ranked
        },
    )
}

/// The earlier fixes of the first two ranked cycles, as the context prompt
/// shows them.
pub fn previous_fixes(ranked: &Vec<Vec<RunRecord>>) -> (r: String)
    ensures
        r@ == previous_fixes_spec(ranked@),
{
    let end: usize = if ranked.len() > 2 {
        2
    } else {
        ranked.len()
    };
    let ghost shown = if ranked@.len() > 2 {
        ranked@.take(2)
    } else {
        ranked@
    };
    assert(shown =~= ranked@.take(end as int));
    let mut r = String::new();
    let mut k: usize = 0;
    assert(ranked@.take(0) =~= Seq::<Vec<RunRecord>>::empty());
    while k < end
        invariant
            k <= end <= ranked.len(),
            r@ == fix_sections(ranked@.take(k as int)),
        decreases end - k,
    {
        let c = &ranked[k];
        assert(ranked@.take(k + 1).drop_last() =~= ranked@.take(k as int));
        assert(ranked@.take(k + 1).last() == *c);
        if c.len() >= 2 {
            r.append("\n[before fix]\n");
            r.append(c[c.len() - 2].run_contents.as_str());
            r.append("\n");
            r.append("\n[after fix]\n");
            r.append(c[c.len() - 1].run_contents.as_str());
            r.append("\n");
        }
        k = k + 1;
    }
    r
}

/// The prompt that asks for help with a failure, given earlier fixes of the
/// same error type.
pub open spec fn context_prompt_spec(
    error_type: Seq<char>,
    error_output: Seq<char>,
    script: Seq<char>,
    fixes: Seq<char>,
) -> Seq<char> {
    "You are assisting a blind or low-vision programmer.\nIMPORTANT OUTPUT RULES (MUST FOLLOW):\n- Use CLEAR SECTION HEADERS\n- Use SHORT BULLET POINTS\n- NO PARAGRAPHS\n- Speak directly to the user\n- Do NOT provide the full solution\n====================\nCURRENT ERROR\n====================\nError type:\n"@
        + error_type + "\nError message:\n"@ + error_output
        + "\n====================\nCURRENT SCRIPT\n====================\n"@ + script
        + "\n====================\nRELEVANT PREVIOUS FIXES\n====================\n"@ + fixes
        + "\n====================\nRESPONSE FORMAT\n====================\nWHAT IS GOING WRONG\n- Explain root cause\nWHAT YOU DID BEFORE\n- Summarize previous fix\nWHAT TO TRY NEXT\n- 2\u{2013}4 short hints\nBEGIN RESPONSE NOW."@
}

/// The prompt that asks for help with a failure of type `error_type`, with
/// the fixes of the first two `ranked` cycles as context.
pub fn context_prompt(
    error_type: &str,
    error_output: &str,
    script: &str,
    ranked: &Vec<Vec<RunRecord>>,
) -> (r: String)
    ensures
        r@ == context_prompt_spec(error_type@, error_output@, script@, previous_fixes_spec(ranked@)),
{
    let fixes = previous_fixes(ranked);
    let mut r = "You are assisting a blind or low-vision programmer.\nIMPORTANT OUTPUT RULES (MUST FOLLOW):\n- Use CLEAR SECTION HEADERS\n- Use SHORT BULLET POINTS\n- NO PARAGRAPHS\n- Speak directly to the user\n- Do NOT provide the full solution\n====================\nCURRENT ERROR\n====================\nError type:\n".to_owned();
    r.append(error_type);
    r.append("\nError message:\n");
    r.append(error_output);
    r.append("\n====================\nCURRENT SCRIPT\n====================\n");
    r.append(script);
    r.append("\n====================\nRELEVANT PREVIOUS FIXES\n====================\n");
    r.append(fixes.as_str());
    r.append("\n====================\nRESPONSE FORMAT\n====================\nWHAT IS GOING WRONG\n- Explain root cause\nWHAT YOU DID BEFORE\n- Summarize previous fix\nWHAT TO TRY NEXT\n- 2\u{2013}4 short hints\nBEGIN RESPONSE NOW.");
    r
}


proof fn lemma_run_after_bound(first: Seq<char>, rest: Seq<Seq<char>>)
    ensures
        run_after(first, rest) <= rest.len(),
    decreases rest.len(),
{
    if rest.len() > 0 {
        lemma_run_after_bound(first, rest.drop_first());
    }
}

/// The compared pairs before an explanation are at most two, so at most one
/// repeat is ever seen and the prompt for repeated failures is never the one
/// chosen.
pub proof fn law_repeat_prompt_unreachable(version_count: nat, diffs: Seq<Seq<char>>)
    requires
        diffs.len() == explain_window_spec(version_count).1 - explain_window_spec(version_count).0,
    ensures
        diffs.len() <= 2,
        repeated_changes_spec(diffs) < 2,
{
    if diffs.len() > 0 {
        lemma_run_after_bound(diffs[0], diffs.drop_first());
    }
}

/// The history file name of a script never has `.py` before the `_` that
/// precedes the time stamp, and it ends in `.json`.
pub proof fn law_history_file_name(script_name: Seq<char>, date_stamp: Seq<char>)
    ensures
        !crate::text::seq_ends_with(strip_suffix_all(script_name, py_suffix()), py_suffix()),
        crate::text::seq_ends_with(history_file_name_spec(script_name, date_stamp), ".json"@),
{
    crate::text::law_strip_suffix_all(script_name, py_suffix());
    let h = history_file_name_spec(script_name, date_stamp);
    let pre = strip_suffix_all(script_name, py_suffix()) + "_"@ + date_stamp;
    assert(h == pre + ".json"@);
    assert(h.skip(h.len() - ".json"@.len()) =~= ".json"@);
}


/// `l` holds no `:`.
pub open spec fn has_no_colon(l: Seq<char>) -> bool {
    forall|m: int| 0 <= m < l.len() ==> #[trigger] l[m] != ':'
}

proof fn lemma_last_line_with_colon(lines: Seq<Seq<char>>)
    ensures
        last_line_with_colon(lines) matches Some(l) ==> exists|i: int|
            0 <= i < lines.len() && #[trigger] lines[i] == l && !has_no_colon(l) && forall|j: int|
                i < j < lines.len() ==> has_no_colon(#[trigger] lines[j]),
        last_line_with_colon(lines) is None ==> forall|j: int|
            0 <= j < lines.len() ==> has_no_colon(#[trigger] lines[j]),
    decreases lines.len(),
{
    if lines.len() > 0 {
        let l = lines.last();
        let init = lines.drop_last();
        lemma_last_line_with_colon(init);
        lemma_char_index_bound(l, ':');
        assert forall|j: int| 0 <= j < init.len() implies lines[j] == init[j] by {}
        if char_index(l, ':') < l.len() {
            assert(lines[lines.len() - 1] == l);
            assert(!has_no_colon(l));
        } else {
            assert(has_no_colon(l));
            if let Some(m) = last_line_with_colon(init) {
                let i = choose|i: int|
                    0 <= i < init.len() && #[trigger] init[i] == m && !has_no_colon(m) && forall|j: int|
                        i < j < init.len() ==> has_no_colon(#[trigger] init[j]);
                assert(lines[i] == m);
                assert forall|j: int| i < j < lines.len() implies has_no_colon(#[trigger] lines[j]) by {
                    if j < init.len() {
                        assert(lines[j] == init[j]);
                    }
                }
            } else {
                assert forall|j: int| 0 <= j < lines.len() implies has_no_colon(#[trigger] lines[j]) by {
                    if j < init.len() {
                        assert(lines[j] == init[j]);
                    }
                }
            }
        }
    }
}

/// The error type holds no `:`. When some line of the standard error holds a
/// `:`, the error type is the trimmed text before the first `:` of the last
/// such line; otherwise it is `UnknownError`.
pub proof fn law_error_type_before_first_colon(stderr: Seq<char>)
    ensures
        has_no_colon(error_type_spec(stderr)),
        (exists|i: int, k: int|
            0 <= i < lines_of(stderr).len() && 0 <= k < lines_of(stderr)[i].len()
                && lines_of(stderr)[i][k] == ':' && has_no_colon(#[trigger] lines_of(stderr)[i].take(k))
                && (forall|j: int|
                i < j < lines_of(stderr).len() ==> has_no_colon(#[trigger] lines_of(stderr)[j]))
                && error_type_spec(stderr) == trim_seq(lines_of(stderr)[i].take(k))) || ((forall|j: int|
            0 <= j < lines_of(stderr).len() ==> has_no_colon(#[trigger] lines_of(stderr)[j]))
            && error_type_spec(stderr) == "UnknownError"@),
{
    let lines = lines_of(stderr);
    lemma_last_line_with_colon(lines);
    reveal_strlit("UnknownError");
    match last_line_with_colon(lines) {
        Some(l) => {
            let i = choose|i: int|
                0 <= i < lines.len() && #[trigger] lines[i] == l && !has_no_colon(l) && forall|j: int|
                    i < j < lines.len() ==> has_no_colon(#[trigger] lines[j]);
            lemma_char_index_bound(l, ':');
            let k = char_index(l, ':') as int;
            assert(k < l.len());
            let head = l.take(k);
            assert(has_no_colon(head));
            let t = trim_seq(head);
            crate::text::law_trim_keeps_characters(head);
            assert forall|m: int| 0 <= m < t.len() implies #[trigger] t[m] != ':' by {
                assert(head.contains(t[m]));
            }
            assert(error_type_spec(stderr) == t);
        },
        None => {
            assert(error_type_spec(stderr) == "UnknownError"@);
        },
    }
}


proof fn lemma_strip_suffix_shape(s: Seq<char>, p: Seq<char>)
    requires
        p.len() > 0,
    ensures
        strip_suffix_all(s, p).len() <= s.len(),
        strip_suffix_all(s, p) == s.take(strip_suffix_all(s, p).len() as int),
        (s.len() - strip_suffix_all(s, p).len()) % (p.len() as int) == 0,
        forall|j: int|
            0 <= j < (s.len() - strip_suffix_all(s, p).len()) / (p.len() as int) ==> #[trigger] s.subrange(
                strip_suffix_all(s, p).len() + j * p.len(),
                strip_suffix_all(s, p).len() + j * p.len() + p.len(),
            ) == p,
    decreases s.len(),
{
    if crate::text::seq_ends_with(s, p) {
        let s2 = s.take(s.len() - p.len());
        lemma_strip_suffix_shape(s2, p);
        let r = strip_suffix_all(s, p);
        let q = (s2.len() - r.len()) / (p.len() as int);
        assert(s2.len() - r.len() == q * p.len()) by (nonlinear_arith)
            requires
                (s2.len() - r.len()) % (p.len() as int) == 0,
                q == (s2.len() - r.len()) / (p.len() as int),
                p.len() > 0,
        ;
        assert(s.len() - r.len() == (q + 1) * p.len()) by (nonlinear_arith)
            requires
                s2.len() - r.len() == q * p.len(),
                s.len() == s2.len() + p.len(),
        ;
        assert((s.len() - r.len()) % (p.len() as int) == 0 && (s.len() - r.len()) / (p.len() as int)
            == q + 1) by (nonlinear_arith)
            requires
                s.len() - r.len() == (q + 1) * p.len(),
                p.len() > 0,
        ;
        assert(r =~= s.take(r.len() as int));
        assert forall|j: int| 0 <= j < q + 1 implies #[trigger] s.subrange(
            r.len() + j * p.len(),
            r.len() + j * p.len() + p.len(),
        ) == p by {
            assert(0 <= j * p.len()) by (nonlinear_arith)
                requires
                    0 <= j,
                    p.len() > 0,
            ;
            if j < q {
                assert(j * p.len() + p.len() <= q * p.len()) by (nonlinear_arith)
                    requires
                        j < q,
                        p.len() > 0,
                ;
                assert(s.subrange(r.len() + j * p.len(), r.len() + j * p.len() + p.len()) =~= s2.subrange(
                    r.len() + j * p.len(),
                    r.len() + j * p.len() + p.len(),
                ));
            } else {
                assert(j * p.len() == q * p.len());
                assert(s.subrange(r.len() + j * p.len(), r.len() + j * p.len() + p.len()) =~= s.skip(
                    s.len() - p.len(),
                ));
            }
        }
    } else {
        assert(s.take(s.len() as int) =~= s);
        assert(strip_suffix_all(s, p) == s);
        assert((0int) % (p.len() as int) == 0) by (nonlinear_arith)
            requires
                p.len() > 0,
        ;
        assert((0int) / (p.len() as int) == 0) by (nonlinear_arith)
            requires
                p.len() > 0,
        ;
    }
}

/// The history file name of a script is its stem, `_`, the date stamp and
/// `.json`, where the stem is the name without its trailing `.py` suffixes:
/// a prefix of the name that does not end in `.py`, followed in the name only
/// by repetitions of `.py`.
pub proof fn law_history_name_keeps_stem(script_name: Seq<char>, date_stamp: Seq<char>)
    ensures
        exists|stem: Seq<char>|
            #![trigger stem.len()]
            history_file_name_spec(script_name, date_stamp) == stem + "_"@ + date_stamp + ".json"@
                && stem.len() <= script_name.len() && stem == script_name.take(stem.len() as int)
                && !crate::text::seq_ends_with(stem, py_suffix()) && (script_name.len() - stem.len())
                % 3 == 0 && forall|j: int|
                0 <= j < (script_name.len() - stem.len()) / 3 ==> #[trigger] script_name.subrange(
                    stem.len() + 3 * j,
                    stem.len() + 3 * j + 3,
                ) == py_suffix(),
{
    let stem = strip_suffix_all(script_name, py_suffix());
    lemma_strip_suffix_shape(script_name, py_suffix());
    crate::text::law_strip_suffix_all(script_name, py_suffix());
    assert forall|j: int| 0 <= j < (script_name.len() - stem.len()) / 3 implies #[trigger] script_name.subrange(
        stem.len() + 3 * j,
        stem.len() + 3 * j + 3,
    ) == py_suffix() by {
        assert(j * py_suffix().len() == 3 * j);
        assert(script_name.subrange(
            stem.len() + j * py_suffix().len(),
            stem.len() + j * py_suffix().len() + py_suffix().len(),
        ) == py_suffix());
    }
    assert(stem.len() >= 0);
}

} // verus!
