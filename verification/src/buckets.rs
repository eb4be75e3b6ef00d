use vstd::prelude::*;
use crate::number::{format_i64, format_u64, decimal, signed_decimal};
use crate::text::push_char;

verus! {

/// One run of a script, as stored in a cycle of an error bucket.
#[derive(Debug, Clone, PartialEq, Eq)]
pub struct RunRecord {
    pub run_id: String,
    pub timestamp: String,
    pub run_contents: String,
    pub is_error: bool,
    pub is_fixed: bool,
}

/// A cycle is closed once its last run is a fix.
pub open spec fn is_closed(runs: Seq<RunRecord>) -> bool {
    runs.len() > 0 && runs.last().is_fixed
}

/// A cycle is still open when it has a last run and that run is not a fix.
pub open spec fn is_open(runs: Seq<RunRecord>) -> bool {
    runs.len() > 0 && !runs.last().is_fixed
}

/// Whether the cycle `runs` is closed (its last run is a fix).
pub fn cycle_is_closed(runs: &Vec<RunRecord>) -> (b: bool)
    ensures
        b == is_closed(runs@),
{
    runs.len() > 0 && runs[runs.len() - 1].is_fixed
}

/// Where a new run is recorded.
#[derive(Debug, Clone, Copy, PartialEq, Eq)]
pub enum CycleTarget {
    /// Append to the existing cycle file at this index (of the sorted list).
    Continue(usize),
    /// Start a new cycle file with this number.
    Start(usize),
}

/// The cycle a new run goes to, given how many cycle files exist (sorted by
/// name) and whether the last of them is closed: a closed or missing cycle
/// starts the next one, an open one is continued.
pub open spec fn cycle_target_spec(cycle_count: nat, last_closed: bool) -> CycleTarget {
    if cycle_count == 0 {
        CycleTarget::Start(1)
    } else if last_closed {
        CycleTarget::Start((cycle_count + 1) as usize)
    } else {
        CycleTarget::Continue((cycle_count - 1) as usize)
    }
}

/// The cycle a new run goes to.
pub fn choose_cycle(cycle_count: usize, last_closed: bool) -> (t: CycleTarget)
    requires
        cycle_count < usize::MAX,
    ensures
        t == cycle_target_spec(cycle_count as nat, last_closed),
{
    if cycle_count == 0 {
        CycleTarget::Start(1)
    } else if last_closed {
        CycleTarget::Start(cycle_count + 1)
    } else {
        CycleTarget::Continue(cycle_count - 1)
    }
}

/// File name of the cycle with number `n`.
pub open spec fn cycle_file_name_spec(n: nat) -> Seq<char> {
    seq!['c', 'y', 'c', 'l', 'e', '_'] + decimal(n) + seq!['.', 'j', 's', 'o', 'n']
}

fn append_json_suffix(s: &mut String)
    ensures
        final(s)@ == old(s)@ + seq!['.', 'j', 's', 'o', 'n'],
{
    push_char(s, '.');
    push_char(s, 'j');
    push_char(s, 's');
    push_char(s, 'o');
    push_char(s, 'n');
}

/// `cycle_<n>.json`.
pub fn cycle_file_name(n: usize) -> (s: String)
    ensures
        s@ == cycle_file_name_spec(n as nat),
{
    let mut s = String::new();
    push_char(&mut s, 'c');
    push_char(&mut s, 'y');
    push_char(&mut s, 'c');
    push_char(&mut s, 'l');
    push_char(&mut s, 'e');
    push_char(&mut s, '_');
    let digits = format_u64(n as u64);
    s.append(digits.as_str());
    append_json_suffix(&mut s);
    s
}

/// Identifier of a run made at the UNIX time `secs`: `run_<secs>`.
pub open spec fn run_id_spec(secs: int) -> Seq<char> {
    seq!['r', 'u', 'n', '_'] + signed_decimal(secs)
}

/// A new run record made at the UNIX time `secs`, stamped `timestamp`.
pub fn new_run(secs: i64, timestamp: String, run_contents: String, is_error: bool, is_fixed: bool) -> (r: RunRecord)
    ensures
        r.run_id@ == run_id_spec(secs as int),
        r.timestamp == timestamp,
        r.run_contents == run_contents,
        r.is_error == is_error,
        r.is_fixed == is_fixed,
{
    let mut run_id = String::new();
    push_char(&mut run_id, 'r');
    push_char(&mut run_id, 'u');
    push_char(&mut run_id, 'n');
    push_char(&mut run_id, '_');
    let digits = format_i64(secs);
    run_id.append(digits.as_str());
    RunRecord { run_id, timestamp, run_contents, is_error, is_fixed }
}

/// What is known of one error bucket when looking for the script's active error.
#[derive(Debug)]
pub enum ProbeState {
    /// The bucket holds no directory for the script.
    NoScript,
    /// The script's directory holds no cycle file.
    NoCycle,
    /// The directory or the last cycle could not be read or parsed.
    Unreadable,
    /// The runs of the last cycle file (by name).
    LastCycle(Vec<RunRecord>),
}

impl ProbeState {
    /// The bucket could not be read.
    pub open spec fn is_unreadable(self) -> bool {
        self matches ProbeState::Unreadable
    }
}

/// One error bucket and what was found in it.
#[derive(Debug)]
pub struct BucketProbe {
    pub error_type: String,
    pub state: ProbeState,
}

/// The active error type: buckets are looked at in order; an unreadable one
/// ends the search with nothing, one whose last cycle is open is the answer.
pub open spec fn active_error_type_spec(ps: Seq<BucketProbe>) -> Option<String>
    decreases ps.len(),
{
    if ps.len() == 0 {
        None
    } else {
        match ps[0].state {
            ProbeState::Unreadable => None,
            ProbeState::LastCycle(runs) => if is_open(runs@) {
                Some(ps[0].error_type)
            } else {
                active_error_type_spec(ps.drop_first())
            },
            _ => active_error_type_spec(ps.drop_first()),
        }
    }
}

/// The error type whose last cycle for the script is still open.
pub fn active_error_type(probes: &Vec<BucketProbe>) -> (r: Option<String>)
    ensures
        r == active_error_type_spec(probes@),
{
    let n = probes.len();
    let mut i: usize = 0;
    assert(probes@.skip(0) =~= probes@);
    while i < n
        invariant
            i <= n == probes.len(),
            active_error_type_spec(probes@) == active_error_type_spec(probes@.skip(i as int)),
        decreases n - i,
    {
        let ghost rest = probes@.skip(i as int);
        assert(rest[0] == probes@[i as int]);
        assert(rest.drop_first() =~= probes@.skip(i + 1));
        match &probes[i].state {
            ProbeState::Unreadable => {
                return None;
            },
            ProbeState::LastCycle(runs) => {
                if runs.len() > 0 && !runs[runs.len() - 1].is_fixed {
                    return Some(probes[i].error_type.clone());
                }
            },
            _ => {},
        }
        i = i + 1;
    }
    None
}

/// Index of the last fix in `runs`, if any.
pub open spec fn last_fix_index(runs: Seq<RunRecord>) -> Option<int>
    decreases runs.len(),
{
    if runs.len() == 0 {
        None
    } else if runs.last().is_fixed {
        Some(runs.len() - 1)
    } else {
        last_fix_index(runs.drop_last())
    }
}

/// The runs of a cycle up to and including its last fix.
pub open spec fn fixed_prefix_spec(runs: Seq<RunRecord>) -> Option<Seq<RunRecord>> {
    match last_fix_index(runs) {
        Some(k) => Some(runs.take(k + 1)),
        None => None,
    }
}

proof fn lemma_last_fix_index(runs: Seq<RunRecord>)
    ensures
        match last_fix_index(runs) {
            Some(k) => 0 <= k < runs.len() && runs[k].is_fixed && forall|j: int|
                k < j < runs.len() ==> !(#[trigger] runs[j]).is_fixed,
            None => forall|j: int| 0 <= j < runs.len() ==> !(#[trigger] runs[j]).is_fixed,
        },
    decreases runs.len(),
{
    if runs.len() > 0 && !runs.last().is_fixed {
        lemma_last_fix_index(runs.drop_last());
        assert forall|j: int| 0 <= j < runs.len() - 1 implies #[trigger] runs[j] == runs.drop_last()[j] by {}
    }
}

/// The cycle cut just after its last fix, or `None` when it holds no fix.
pub fn fixed_prefix(runs: Vec<RunRecord>) -> (r: Option<Vec<RunRecord>>)
    ensures
        match fixed_prefix_spec(runs@) {
            Some(p) => r is Some && r->0@ == p,
            None => r is None,
        },
{
    let mut runs = runs;
    let ghost orig = runs@;
    let mut k = runs.len();
    assert(orig.take(k as int) =~= orig);
    while k > 0 && !runs[k - 1].is_fixed
        invariant
            k <= runs.len(),
            runs@ == orig,
            last_fix_index(orig) == last_fix_index(orig.take(k as int)),
        decreases k,
    {
        proof {
            assert(orig.take(k as int).drop_last() =~= orig.take(k - 1));
        }
        k = k - 1;
    }
    if k == 0 {
        assert(orig.take(0) =~= Seq::<RunRecord>::empty());
        None
    } else {
        assert(orig.take(k as int).last() == orig[k - 1]);
        runs.truncate(k);
        Some(runs)
    }
}

/// The fixed parts of the readable cycles, in order; cycles that could not be
/// read (`None`) or hold no fix are left out.
pub open spec fn fixed_cycles_spec(cycles: Seq<Option<Vec<RunRecord>>>) -> Seq<Seq<RunRecord>>
    decreases cycles.len(),
{
    if cycles.len() == 0 {
        seq![]
    } else {
        let rest = fixed_cycles_spec(cycles.drop_last());
        match cycles.last() {
            Some(runs) => match fixed_prefix_spec(runs@) {
                Some(p) => rest.push(p),
                None => rest,
            },
            None => rest,
        }
    }
}

/// The views of a sequence of cycles.
pub open spec fn cycle_views(v: Seq<Vec<RunRecord>>) -> Seq<Seq<RunRecord>> {
    v.map_values(|c: Vec<RunRecord>| c@)
}

/// The fixed parts of the given cycles, in order.
pub fn collect_fixed_cycles(cycles: Vec<Option<Vec<RunRecord>>>) -> (r: Vec<Vec<RunRecord>>)
    ensures
        cycle_views(r@) == fixed_cycles_spec(cycles@),
{
    let mut out: Vec<Vec<RunRecord>> = Vec::new();
    let ghost all = cycles@;
    assert(all.take(0) =~= Seq::<Option<Vec<RunRecord>>>::empty());
    assert(cycle_views(out@) =~= Seq::<Seq<RunRecord>>::empty());
    for c in it: cycles.into_iter()
        invariant
            it.seq() == all,
            cycle_views(out@) == fixed_cycles_spec(all.take(it.index() as int)),
    {
        let ghost i = it.index();
        let ghost pre = all.take(i as int);
        let ghost cur = all.take(i + 1);
        assert(cur.drop_last() =~= pre);
        assert(cur.last() == c);
        match c {
            Some(runs) => {
                match fixed_prefix(runs) {
                    Some(p) => {
                        let ghost old_out = out@;
                        out.push(p);
                        assert(cycle_views(out@) =~= cycle_views(old_out).push(p@));
                    },
                    None => {},
                }
            },
            None => {},
        }
    }
    assert(all.take(all.len() as int) =~= all);
    out
}


/// Recording a fix closes its cycle, and recording anything else leaves it
/// open.
pub proof fn law_fix_closes_cycle(runs: Seq<RunRecord>, run: RunRecord)
    ensures
        is_closed(runs.push(run)) == run.is_fixed,
        is_open(runs.push(run)) == !run.is_fixed,
{
}

/// After a fix is recorded in the last of `cycle_count` cycles, the next run
/// starts a new cycle, numbered one past the existing ones; after any other
/// run, the next run continues that cycle.
pub proof fn law_run_after_fix_starts_new_cycle(cycle_count: nat, runs: Seq<RunRecord>, run: RunRecord)
    requires
        0 < cycle_count < usize::MAX,
    ensures
        run.is_fixed ==> cycle_target_spec(cycle_count, is_closed(runs.push(run)))
            == CycleTarget::Start((cycle_count + 1) as usize),
        !run.is_fixed ==> cycle_target_spec(cycle_count, is_closed(runs.push(run)))
            == CycleTarget::Continue((cycle_count - 1) as usize),
{
}

/// The fixed part of a cycle is a prefix of it that ends with its last fix:
/// it is closed and no fix follows it; a cycle without a fix has no fixed
/// part. A closed cycle is its own fixed part.
pub proof fn law_fixed_part(runs: Seq<RunRecord>)
    ensures
        match fixed_prefix_spec(runs) {
            Some(p) => {
                &&& is_closed(p)
                &&& p.len() <= runs.len()
                &&& p == runs.take(p.len() as int)
                &&& forall|j: int| p.len() <= j < runs.len() ==> !(#[trigger] runs[j]).is_fixed
            },
            None => forall|j: int| 0 <= j < runs.len() ==> !(#[trigger] runs[j]).is_fixed,
        },
        is_closed(runs) ==> fixed_prefix_spec(runs) == Some(runs),
{
    lemma_last_fix_index(runs);
    if let Some(k) = last_fix_index(runs) {
        assert(runs.take(k + 1).last() == runs[k]);
    }
    if is_closed(runs) {
        assert(runs.take(runs.len() as int) =~= runs);
    }
}

/// Every cycle that the fixed cycles of a bucket hold is closed.
pub proof fn law_fixed_cycles_are_closed(cycles: Seq<Option<Vec<RunRecord>>>)
    ensures
        forall|k: int| 0 <= k < fixed_cycles_spec(cycles).len() ==> is_closed(
            #[trigger] fixed_cycles_spec(cycles)[k],
        ),
    decreases cycles.len(),
{
    if cycles.len() > 0 {
        law_fixed_cycles_are_closed(cycles.drop_last());
        let rest = fixed_cycles_spec(cycles.drop_last());
        if let Some(runs) = cycles.last() {
            law_fixed_part(runs@);
            if let Some(p) = fixed_prefix_spec(runs@) {
                assert forall|k: int| 0 <= k < rest.push(p).len() implies is_closed(
                    #[trigger] rest.push(p)[k],
                ) by {
                    if k < rest.len() {
                        assert(rest.push(p)[k] == rest[k]);
                    }
                }
            }
        }
    }
}

/// The active error type is that of a bucket whose last cycle is open, and
/// no bucket before it was unreadable.
pub proof fn law_active_error_type_is_open(ps: Seq<BucketProbe>)
    ensures
        active_error_type_spec(ps) matches Some(t) ==> exists|i: int|
            0 <= i < ps.len() && (#[trigger] ps[i]).error_type == t && (ps[i].state matches ProbeState::LastCycle(runs)
                && is_open(runs@)) && forall|j: int| 0 <= j < i ==> !(
            #[trigger] ps[j]).state.is_unreadable(),
    decreases ps.len(),
{
    if ps.len() > 0 {
        law_active_error_type_is_open(ps.drop_first());
        if let Some(t) = active_error_type_spec(ps) {
            if !(ps[0].state matches ProbeState::LastCycle(runs) && is_open(runs@)) {
                let i = choose|i: int|
                    0 <= i < ps.drop_first().len() && (#[trigger] ps.drop_first()[i]).error_type == t && (
                    ps.drop_first()[i].state matches ProbeState::LastCycle(runs) && is_open(runs@))
                        && forall|j: int| 0 <= j < i ==> !(
                    #[trigger] ps.drop_first()[j]).state.is_unreadable();
                assert(ps[i + 1] == ps.drop_first()[i]);
                assert forall|j: int| 0 <= j < i + 1 implies !(#[trigger] ps[j]).state.is_unreadable() by {
                    if j > 0 {
                        assert(ps[j] == ps.drop_first()[j - 1]);
                    }
                }
            }
        }
    }
}

} // verus!
