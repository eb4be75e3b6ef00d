use vstd::prelude::*;
use crate::number::{decimal, format_u64};
use crate::text::{char_views, chars_of, lines_of, split_lines_chars};

verus! {

/// Line `i` of `ls`, if there is one.
pub open spec fn line_at(ls: Seq<Seq<char>>, i: int) -> Option<Seq<char>> {
    if 0 <= i < ls.len() {
        Some(ls[i])
    } else {
        None
    }
}

/// The larger of two lengths.
pub open spec fn max_len(a: nat, b: nat) -> nat {
    if a >= b {
        a
    } else {
        b
    }
}

/// Line `i` differs between the two versions (or exists in one only).
pub open spec fn line_changed(a: Seq<Seq<char>>, b: Seq<Seq<char>>, i: int) -> bool {
    line_at(a, i) != line_at(b, i)
}

/// How many of the first `n` line positions differ.
pub open spec fn changed_upto(a: Seq<Seq<char>>, b: Seq<Seq<char>>, n: int) -> nat
    decreases n,
{
    if n <= 0 {
        0
    } else {
        changed_upto(a, b, n - 1) + if line_changed(a, b, n - 1) {
            1nat
        } else {
            0nat
        }
    }
}

/// How many line positions differ between `old` and `new`.
pub open spec fn count_changes_spec(old: Seq<char>, new: Seq<char>) -> nat {
    let a = lines_of(old);
    let b = lines_of(new);
    changed_upto(a, b, max_len(a.len(), b.len()) as int)
}

/// The report of one line position: nothing when it is unchanged, else its
/// number (from 1), the old line after `- ` and the new line after `+ `,
/// each when it exists.
pub open spec fn change_entry(a: Seq<Seq<char>>, b: Seq<Seq<char>>, i: int) -> Seq<char> {
    if !line_changed(a, b, i) {
        Seq::empty()
    } else {
        "Line "@ + decimal((i + 1) as nat) + ":\n"@ + (if i < a.len() {
            "- "@ + a[i] + "\n"@
        } else {
            Seq::empty()
        }) + (if i < b.len() {
            "+ "@ + b[i] + "\n"@
        } else {
            Seq::empty()
        })
    }
}

/// The reports of the first `n` line positions.
pub open spec fn report_upto(a: Seq<Seq<char>>, b: Seq<Seq<char>>, n: int) -> Seq<char>
    decreases n,
{
    if n <= 0 {
        Seq::empty()
    } else {
        report_upto(a, b, n - 1) + change_entry(a, b, n - 1)
    }
}

/// The readable report of the changes from `old` to `new`, line by line.
pub open spec fn compare_spec(old: Seq<char>, new: Seq<char>) -> Seq<char> {
    let a = lines_of(old);
    let b = lines_of(new);
    report_upto(a, b, max_len(a.len(), b.len()) as int)
}

/// Whether line `i` differs between `a` and `b`.
fn changed_at(a: &Vec<Vec<char>>, b: &Vec<Vec<char>>, i: usize) -> (r: bool)
    ensures
        r == line_changed(char_views(a@), char_views(b@), i as int),
{
    if i < a.len() && i < b.len() {
        let same = crate::text::same_chars(&a[i], &b[i]);
        assert(char_views(a@)[i as int] == a@[i as int]@);
        assert(char_views(b@)[i as int] == b@[i as int]@);
        !same
    } else {
        i < a.len() || i < b.len()
    }
}

/// How many line positions differ between `old` and `new`.
pub fn count_changes(old: &str, new: &str) -> (r: usize)
    ensures
        r == count_changes_spec(old@, new@),
{
    let a = split_lines_chars(&chars_of(old));
    let b = split_lines_chars(&chars_of(new));
    let n = if a.len() >= b.len() {
        a.len()
    } else {
        b.len()
    };
    let mut count: usize = 0;
    let mut i: usize = 0;
    while i < n
        invariant
            i <= n,
            count <= i,
            count == changed_upto(char_views(a@), char_views(b@), i as int),
        decreases n - i,
    {
        if changed_at(&a, &b, i) {
            count = count + 1;
        }
        i = i + 1;
    }
    count
}

/// The readable report of the changes from `old` to `new`: for each changed
/// line position, `Line <n>:` and the old and new lines.
pub fn compare_strs(old: &str, new: &str) -> (r: String)
    ensures
        r@ == compare_spec(old@, new@),
{
    let a = split_lines_chars(&chars_of(old));
    let b = split_lines_chars(&chars_of(new));
    let ghost av = char_views(a@);
    let ghost bv = char_views(b@);
    let n = if a.len() >= b.len() {
        a.len()
    } else {
        b.len()
    };
    let mut r = String::new();
    let mut i: usize = 0;
    while i < n
        invariant
            i <= n,
            n == max_len(a.len() as nat, b.len() as nat),
            av == char_views(a@),
            bv == char_views(b@),
            r@ == report_upto(av, bv, i as int),
        decreases n - i,
    {
        if changed_at(&a, &b, i) {
            let ghost before = r@;
            r.append("Line ");
            let num = format_u64(i as u64 + 1);
            r.append(num.as_str());
            r.append(":\n");
            let ghost head = r@;
            if i < a.len() {
                r.append("- ");
                let line = crate::text::string_of(&a[i]);
                r.append(line.as_str());
                r.append("\n");
                assert(av[i as int] == a@[i as int]@);
            }
            let ghost mid = r@;
            if i < b.len() {
                r.append("+ ");
                let line = crate::text::string_of(&b[i]);
                r.append(line.as_str());
                r.append("\n");
                assert(bv[i as int] == b@[i as int]@);
            }
            assert(r@ =~= before + change_entry(av, bv, i as int));
        }
        i = i + 1;
    }
    r
}


proof fn lemma_unchanged_upto(a: Seq<Seq<char>>, n: int)
    ensures
        changed_upto(a, a, n) == 0,
        report_upto(a, a, n) == Seq::<char>::empty(),
    decreases n,
{
    if n > 0 {
        lemma_unchanged_upto(a, n - 1);
        assert(report_upto(a, a, n - 1) + change_entry(a, a, n - 1) =~= Seq::<char>::empty());
    }
}

proof fn lemma_count_zero_iff_report_empty(a: Seq<Seq<char>>, b: Seq<Seq<char>>, n: int)
    ensures
        (changed_upto(a, b, n) == 0) == (report_upto(a, b, n).len() == 0),
    decreases n,
{
    if n > 0 {
        lemma_count_zero_iff_report_empty(a, b, n - 1);
        if line_changed(a, b, n - 1) {
            assert(change_entry(a, b, n - 1).len() > 0);
        } else {
            assert(report_upto(a, b, n) =~= report_upto(a, b, n - 1));
        }
    }
}

/// A text compared with itself shows no change; and the change report is
/// empty exactly when no line position differs.
pub proof fn law_compare_itself(old: Seq<char>, new: Seq<char>)
    ensures
        count_changes_spec(old, old) == 0,
        compare_spec(old, old) == Seq::<char>::empty(),
        (count_changes_spec(old, new) == 0) == (compare_spec(old, new).len() == 0),
{
    let a = lines_of(old);
    lemma_unchanged_upto(a, max_len(a.len(), a.len()) as int);
    let b = lines_of(new);
    lemma_count_zero_iff_report_empty(a, b, max_len(a.len(), b.len()) as int);
}


proof fn lemma_no_change_upto(a: Seq<Seq<char>>, b: Seq<Seq<char>>, n: int)
    ensures
        (report_upto(a, b, n).len() == 0) == (forall|i: int|
            0 <= i < n ==> #[trigger] line_at(a, i) == line_at(b, i)),
    decreases n,
{
    if n > 0 {
        lemma_no_change_upto(a, b, n - 1);
        if line_changed(a, b, n - 1) {
            assert(change_entry(a, b, n - 1).len() > 0);
        } else {
            assert(report_upto(a, b, n) =~= report_upto(a, b, n - 1));
        }
    }
}

/// The change report is empty exactly when the two versions have the same
/// lines, character for character (white space included); so is the count of
/// changes zero.
pub proof fn law_no_report_iff_same_lines(old: Seq<char>, new: Seq<char>)
    ensures
        (compare_spec(old, new).len() == 0) == (lines_of(old) == lines_of(new)),
        (count_changes_spec(old, new) == 0) == (lines_of(old) == lines_of(new)),
{
    let a = lines_of(old);
    let b = lines_of(new);
    let n = max_len(a.len(), b.len()) as int;
    lemma_no_change_upto(a, b, n);
    lemma_count_zero_iff_report_empty(a, b, n);
    if forall|i: int| 0 <= i < n ==> #[trigger] line_at(a, i) == line_at(b, i) {
        if a.len() < b.len() {
            assert(line_at(a, a.len() as int) == line_at(b, a.len() as int));
        } else if b.len() < a.len() {
            assert(line_at(a, b.len() as int) == line_at(b, b.len() as int));
        }
        assert forall|i: int| 0 <= i < a.len() implies a[i] == b[i] by {
            assert(line_at(a, i) == line_at(b, i));
        }
        assert(a =~= b);
    }
}

} // verus!
