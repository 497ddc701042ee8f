//! The plan of the benchmark: which runs there are, what their files are called,
//! and whether what is found afterwards is what was sent.

use crate::text::{all_digits, decimal, is_digit, lemma_padded, push_decimal};
use vstd::prelude::*;

verus! {

/// One run of the benchmark.
#[derive(Debug, Clone, Copy, PartialEq, Eq, Structural)]
pub struct BenchRun {
    /// Whether every operation is synced.
    pub sync: bool,
    pub threads: usize,
    /// The number of tasks that are divided among the threads.
    pub nominal_tasks: usize,
    /// The number of the run. The first one warms up and is not counted.
    pub run_idx: usize,
}

/// How many tasks a run has. Runs that sync every operation are shorter.
pub open spec fn nominal_tasks_spec(quick: bool, sync: bool) -> usize {
    if quick {
        100
    } else if sync {
        1_000
    } else {
        10_000
    }
}

pub fn nominal_tasks(quick: bool, sync: bool) -> (tasks: usize)
    ensures
        tasks == nominal_tasks_spec(quick, sync),
{
    if quick {
        100
    } else if sync {
        1_000
    } else {
        10_000
    }
}

/// The numbers of threads that are tried.
pub fn thread_counts(quick: bool) -> (counts: Vec<usize>)
    ensures
        counts@ == (if quick {
            seq![1usize]
        } else {
            seq![1usize, 4, 16]
        }),
{
    let mut counts: Vec<usize> = Vec::new();
    counts.push(1);
    if !quick {
        counts.push(4);
        counts.push(16);
    }
    assert(counts@ =~= if quick {
        seq![1usize]
    } else {
        seq![1usize, 4, 16]
    });
    counts
}

/// How many runs each setting has, with the one that warms up.
pub fn num_runs(quick: bool) -> (runs: usize)
    ensures
        runs == (if quick {
            2usize
        } else {
            6
        }),
{
    if quick {
        2
    } else {
        6
    }
}

/// The runs of one number of threads.
pub open spec fn runs_with(quick: bool, sync: bool, threads: usize, runs: nat) -> Seq<BenchRun> {
    Seq::new(
        runs,
        |i: int|
            BenchRun {
                sync,
                threads,
                nominal_tasks: nominal_tasks_spec(quick, sync),
                run_idx: i as usize,
            },
    )
}

/// The runs of some numbers of threads.
pub open spec fn runs_over(quick: bool, sync: bool, counts: Seq<usize>, runs: nat) -> Seq<BenchRun>
    decreases counts.len(),
{
    if counts.len() == 0 {
        Seq::empty()
    } else {
        runs_over(quick, sync, counts.drop_last(), runs) + runs_with(
            quick,
            sync,
            counts.last(),
            runs,
        )
    }
}

/// Adds the runs of some numbers of threads to a list.
fn push_runs(out: &mut Vec<BenchRun>, quick: bool, sync: bool, counts: &Vec<usize>, runs: usize)
    ensures
        final(out)@ == old(out)@ + runs_over(quick, sync, counts@, runs as nat),
{
    let ghost start = out@;
    let mut i: usize = 0;
    assert(start + runs_over(quick, sync, counts@.take(0), runs as nat) =~= start);
    while i < counts.len()
        invariant
            i <= counts@.len(),
            out@ == start + runs_over(quick, sync, counts@.take(i as int), runs as nat),
        decreases counts@.len() - i,
    {
        let threads: usize = counts[i];
        let ghost before = out@;
        let ghost done = runs_over(quick, sync, counts@.take(i as int), runs as nat);
        let ghost wanted = runs_with(quick, sync, threads, runs as nat);
        let mut j: usize = 0;
        assert(before + wanted.take(0) =~= before);
        while j < runs
            invariant
                j <= runs,
                wanted == runs_with(quick, sync, threads, runs as nat),
                out@ == before + wanted.take(j as int),
            decreases runs - j,
        {
            let run = BenchRun {
                sync,
                threads,
                nominal_tasks: nominal_tasks(quick, sync),
                run_idx: j,
            };
            out.push(run);
            assert(wanted[j as int] == run);
            assert(before + wanted.take(j + 1) =~= (before + wanted.take(j as int)).push(run));
            j = j + 1;
        }
        proof {
            assert(wanted.take(runs as int) =~= wanted);
            assert(counts@.take(i + 1).drop_last() =~= counts@.take(i as int));
            assert(counts@.take(i + 1).last() == threads);
            assert((start + done) + wanted =~= start + (done + wanted));
        }
        i = i + 1;
    }
    assert(counts@.take(i as int) =~= counts@);
}

/// All runs of the benchmark: first those that do not sync, then those that do.
/// Their files are removed before and after the benchmark.
pub fn all_runs(quick: bool, counts: &Vec<usize>, runs: usize) -> (list: Vec<BenchRun>)
    ensures
        list@ == runs_over(quick, false, counts@, runs as nat) + runs_over(
            quick,
            true,
            counts@,
            runs as nat,
        ),
{
    let mut list: Vec<BenchRun> = Vec::new();
    push_runs(&mut list, quick, false, counts, runs);
    assert(Seq::<BenchRun>::empty() + runs_over(quick, false, counts@, runs as nat) =~= runs_over(
        quick,
        false,
        counts@,
        runs as nat,
    ));
    push_runs(&mut list, quick, true, counts, runs);
    list
}

impl BenchRun {
    /// What the names of the files of a run have in common.
    pub open spec fn label(self) -> Seq<char> {
        (if self.sync {
            "true"@
        } else {
            "false"@
        }) + "_"@ + decimal(self.threads as nat) + "_"@ + decimal(self.nominal_tasks as nat)
            + "_r"@ + decimal(self.run_idx as nat)
    }

    fn push_label(&self, out: &mut String)
        ensures
            final(out)@ == old(out)@ + self.label(),
    {
        if self.sync {
            out.append("true");
        } else {
            out.append("false");
        }
        out.append("_");
        push_decimal(out, self.threads as u64);
        out.append("_");
        push_decimal(out, self.nominal_tasks as u64);
        out.append("_r");
        push_decimal(out, self.run_idx as u64);
        assert(out@ =~= old(out)@ + self.label());
    }

    /// The database file of a run.
    pub fn sqlite_file(&self) -> (name: String)
        ensures
            name@ == "bench_sqlite_"@ + self.label() + ".db"@,
    {
        let mut name = String::from_str("bench_sqlite_");
        self.push_label(&mut name);
        name.append(".db");
        name
    }

    /// The queue directory of a run.
    pub fn nesso_dir(&self) -> (name: String)
        ensures
            name@ == "bench_nesso_ip_"@ + self.label(),
    {
        let mut name = String::from_str("bench_nesso_ip_");
        self.push_label(&mut name);
        name
    }

    /// The queue of a run over HTTP.
    pub fn queue_name(&self) -> (name: String)
        ensures
            name@ == "bench_q_"@ + self.label(),
    {
        let mut name = String::from_str("bench_q_");
        self.push_label(&mut name);
        name
    }

    /// Whether the run warms up and is not counted.
    pub fn is_warmup(&self) -> (warmup: bool)
        ensures
            warmup == (self.run_idx == 0),
    {
        self.run_idx == 0
    }
}

/// The tasks of each thread.
pub fn tasks_per_thread(nominal: usize, threads: usize) -> (tasks: usize)
    requires
        threads > 0,
    ensures
        tasks == nominal / threads,
{
    nominal / threads
}

/// The files that a database consists of.
pub fn database_files(path: &str) -> (files: Vec<String>)
    ensures
        files@.len() == 3,
        files@[0]@ == path@,
        files@[1]@ == path@ + "-wal"@,
        files@[2]@ == path@ + "-shm"@,
{
    let mut wal = String::from_str(path);
    wal.append("-wal");
    let mut shm = String::from_str(path);
    shm.append("-shm");
    let mut files: Vec<String> = Vec::new();
    files.push(String::from_str(path));
    files.push(wal);
    files.push(shm);
    files
}

/// Whether everything that was pushed is found afterwards.
pub fn push_integrity(found: u64, dispatched: u64) -> (ok: bool)
    ensures
        ok == (found == dispatched),
{
    found == dispatched
}

/// Whether what is left after tasks were taken and completed is what was not
/// taken, and nobody holds a task.
pub fn pop_integrity(remaining: u64, active: u64, dispatched: u64, popped: u64) -> (ok: bool)
    ensures
        ok == (active == 0 && remaining == (if popped <= dispatched {
            dispatched - popped
        } else {
            0
        })),
{
    let expected: u64 = if popped <= dispatched {
        dispatched - popped
    } else {
        0
    };
    active == 0 && remaining == expected
}

/// Whether there were runs, and all of them were sound.
pub fn all_integrity_ok(runs: &Vec<bool>) -> (ok: bool)
    ensures
        ok == (runs@.len() > 0 && forall|i: int| 0 <= i < runs@.len() ==> runs@[i]),
{
    let mut i: usize = 0;
    while i < runs.len()
        invariant
            i <= runs@.len(),
            forall|j: int| 0 <= j < i ==> runs@[j],
        decreases runs@.len() - i,
    {
        if !runs[i] {
            return false;
        }
        i = i + 1;
    }
    runs.len() > 0
}

/// Every number of threads has all its runs, in order: the list goes through the numbers
/// of threads one after the other, and for each of them through the runs. A run has a
/// hundred tasks in a quick benchmark, otherwise a thousand if it syncs every operation,
/// and ten thousand if not.
pub proof fn law_every_setting_has_its_runs(
    quick: bool,
    sync: bool,
    counts: Seq<usize>,
    runs: usize,
    t: int,
    r: int,
)
    requires
        0 <= t < counts.len(),
        0 <= r < runs,
    ensures
        ({
            let list = runs_over(quick, sync, counts, runs as nat);
            let run = list[t * runs + r];
            &&& list.len() == counts.len() * runs
            &&& 0 <= t * runs + r < list.len()
            &&& run.sync == sync
            &&& run.threads == counts[t]
            &&& run.run_idx == r
            &&& run.nominal_tasks == (if quick {
                100int
            } else if sync {
                1_000
            } else {
                10_000
            })
            &&& run.nominal_tasks == nominal_tasks_spec(quick, sync)
        }),
    decreases counts.len(),
{
    let list = runs_over(quick, sync, counts, runs as nat);
    let head = counts.drop_last();
    let before = runs_over(quick, sync, head, runs as nat);
    let n = head.len() as int;
    lemma_runs_len(quick, sync, head, runs as nat);
    lemma_runs_len(quick, sync, counts, runs as nat);
    assert(counts.len() * runs == n * runs + runs) by (nonlinear_arith)
        requires
            counts.len() == n + 1,
    ;
    assert(0 <= t * runs) by (nonlinear_arith)
        requires
            0 <= t,
            0 <= runs,
    ;
    if t < n {
        assert(t * runs + runs <= n * runs) by (nonlinear_arith)
            requires
                t + 1 <= n,
                0 <= runs,
        ;
        law_every_setting_has_its_runs(quick, sync, head, runs, t, r);
        assert(list[t * runs + r] == before[t * runs + r]);
    } else {
        assert(t * runs == n * runs) by (nonlinear_arith)
            requires
                t == n,
        ;
        assert(list[t * runs + r] == runs_with(quick, sync, counts.last(), runs as nat)[r]);
    }
}

proof fn lemma_runs_len(quick: bool, sync: bool, counts: Seq<usize>, runs: nat)
    ensures
        runs_over(quick, sync, counts, runs).len() == counts.len() * runs,
    decreases counts.len(),
{
    if counts.len() > 0 {
        let n = counts.len() - 1;
        lemma_runs_len(quick, sync, counts.drop_last(), runs);
        assert(counts.len() * runs == n * runs + runs) by (nonlinear_arith)
            requires
                counts.len() == n + 1,
        ;
    } else {
        assert(counts.len() * runs == 0) by (nonlinear_arith)
            requires
                counts.len() == 0,
        ;
    }
}

/// The files of a run are named after whether it syncs, its threads, its tasks and its
/// number. So no two runs have the same files.
pub proof fn law_no_two_runs_share_their_files(a: BenchRun, b: BenchRun)
    ensures
        a.label() == (if a.sync {
            "true"@
        } else {
            "false"@
        }) + "_"@ + decimal(a.threads as nat) + "_"@ + decimal(a.nominal_tasks as nat) + "_r"@
            + decimal(a.run_idx as nat),
        a.label() == b.label() ==> a == b,
{
    if a.label() == b.label() {
        lemma_label(a);
        lemma_label(b);
        lemma_same_tail(tail_of(a), tail_of(b), a, b);
    }
}

/// What follows the first underscore of a label.
spec fn tail_of(run: BenchRun) -> Seq<char> {
    decimal(run.threads as nat) + "_"@ + (decimal(run.nominal_tasks as nat) + "_"@ + ("r"@
        + decimal(run.run_idx as nat)))
}

/// A label starts with the letter of its flag, and its tail follows the flag.
proof fn lemma_label(run: BenchRun)
    ensures
        run.label().len() > 0,
        run.sync ==> run.label()[0] == 't' && run.label().skip(5) == tail_of(run),
        !run.sync ==> run.label()[0] == 'f' && run.label().skip(6) == tail_of(run),
{
    reveal_strlit("true");
    reveal_strlit("false");
    let flag = if run.sync {
        "true"@
    } else {
        "false"@
    };
    lemma_regrouped(
        flag,
        decimal(run.threads as nat),
        decimal(run.nominal_tasks as nat),
        decimal(run.run_idx as nat),
    );
}

proof fn lemma_regrouped(flag: Seq<char>, x: Seq<char>, y: Seq<char>, z: Seq<char>)
    requires
        flag.len() > 0,
    ensures
        ({
            let whole = flag + "_"@ + x + "_"@ + y + "_r"@ + z;
            &&& whole.len() > 0
            &&& whole[0] == flag[0]
            &&& whole.skip(flag.len() as int + 1) == x + "_"@ + (y + "_"@ + ("r"@ + z))
        }),
{
    reveal_strlit("_");
    reveal_strlit("_r");
    reveal_strlit("r");
    assert("_r"@ =~= "_"@ + "r"@);
    let whole = flag + "_"@ + x + "_"@ + y + "_r"@ + z;
    assert(whole.skip(flag.len() as int + 1) =~= x + "_"@ + (y + "_"@ + ("r"@ + z)));
}

/// The tail of a label says which run it is, apart from the flag.
proof fn lemma_same_tail(tail_a: Seq<char>, tail_b: Seq<char>, a: BenchRun, b: BenchRun)
    requires
        tail_a == tail_of(a),
        tail_b == tail_of(b),
        tail_a == tail_b,
    ensures
        a.threads == b.threads,
        a.nominal_tasks == b.nominal_tasks,
        a.run_idx == b.run_idx,
{
    lemma_padded(a.threads as nat, 0);
    lemma_padded(b.threads as nat, 0);
    lemma_padded(a.nominal_tasks as nat, 0);
    lemma_padded(b.nominal_tasks as nat, 0);
    lemma_padded(a.run_idx as nat, 0);
    lemma_padded(b.run_idx as nat, 0);
    let end_a = "r"@ + decimal(a.run_idx as nat);
    let end_b = "r"@ + decimal(b.run_idx as nat);
    let rest_a = decimal(a.nominal_tasks as nat) + "_"@ + end_a;
    let rest_b = decimal(b.nominal_tasks as nat) + "_"@ + end_b;
    lemma_split(decimal(a.threads as nat), rest_a, decimal(b.threads as nat), rest_b);
    lemma_split(decimal(a.nominal_tasks as nat), end_a, decimal(b.nominal_tasks as nat), end_b);
    reveal_strlit("r");
    assert(end_a.skip(1) =~= decimal(a.run_idx as nat));
    assert(end_b.skip(1) =~= decimal(b.run_idx as nat));
}

/// Two texts of digits up to the first underscore are the same if the whole texts are.
proof fn lemma_split(a: Seq<char>, rest_a: Seq<char>, b: Seq<char>, rest_b: Seq<char>)
    requires
        all_digits(a),
        all_digits(b),
        a + "_"@ + rest_a == b + "_"@ + rest_b,
    ensures
        a == b,
        rest_a == rest_b,
{
    reveal_strlit("_");
    let whole_a = a + "_"@ + rest_a;
    let whole_b = b + "_"@ + rest_b;
    assert(whole_a[a.len() as int] == '_');
    assert(whole_b[b.len() as int] == '_');
    if a.len() < b.len() {
        assert(whole_b[a.len() as int] == b[a.len() as int]);
        assert(is_digit(b[a.len() as int]));
    }
    if b.len() < a.len() {
        assert(whole_a[b.len() as int] == a[b.len() as int]);
        assert(is_digit(a[b.len() as int]));
    }
    assert(whole_a.take(a.len() as int) =~= a);
    assert(whole_b.take(b.len() as int) =~= b);
    assert(whole_a.skip(a.len() as int + 1) =~= rest_a);
    assert(whole_b.skip(b.len() as int + 1) =~= rest_b);
}

} // verus!
