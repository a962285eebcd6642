use vstd::prelude::*;

use vstd::utf8::{decode_utf8, valid_utf8};

use crate::text::{trim, trimmed};

verus! {

/// How many programs a run invokes.
pub const STEP_COUNT: usize = 6;

/// The file that holds the rendered document, in the scratch directory.
pub const DOCUMENT: &'static str = "paper.tex";

/// The file that the last program leaves the rendered citation in.
pub const OUTPUT: &'static str = "paper.txt";

/// The program that step `i` invokes.
pub open spec fn step_program(i: int) -> Seq<char> {
    if i == 1 {
        "bibtex"@
    } else if i == 4 {
        "dvipdf"@
    } else if i == 5 {
        "pdftotext"@
    } else {
        "latex"@
    }
}

/// The one argument that step `i` hands its program.
pub open spec fn step_argument(i: int) -> Seq<char> {
    if i == 1 {
        "paper"@
    } else if i == 4 {
        "paper.dvi"@
    } else if i == 5 {
        "paper.pdf"@
    } else {
        "paper.tex"@
    }
}

/// One program of the toolchain, with its argument.
pub struct Step {
    pub program: String,
    pub argument: String,
}

/// Step `i` of the toolchain: latex, bibtex, latex twice more, dvipdf and
/// pdftotext.
pub fn step(i: usize) -> (r: Step)
    requires
        i < STEP_COUNT,
    ensures
        r.program@ == step_program(i as int),
        r.argument@ == step_argument(i as int),
{
    let (program, argument) = if i == 1 {
        ("bibtex", "paper")
    } else if i == 4 {
        ("dvipdf", "paper.dvi")
    } else if i == 5 {
        ("pdftotext", "paper.pdf")
    } else {
        ("latex", "paper.tex")
    };
    Step { program: program.to_string(), argument: argument.to_string() }
}

/// All the steps of the toolchain, in the order in which they run.
pub fn toolchain() -> (r: Vec<Step>)
    ensures
        r@.len() == STEP_COUNT,
        forall|i: int|
            0 <= i < STEP_COUNT ==> (#[trigger] r@[i]).program@ == step_program(i)
                && r@[i].argument@ == step_argument(i),
{
    let mut r: Vec<Step> = Vec::new();
    for i in 0..STEP_COUNT
        invariant
            r@.len() == i,
            forall|j: int|
                0 <= j < i ==> (#[trigger] r@[j]).program@ == step_program(j)
                    && r@[j].argument@ == step_argument(j),
    {
        r.push(step(i));
    }
    r
}

/// Where a run of the toolchain stands.
#[derive(Clone, Copy, Debug, PartialEq, Eq, Structural)]
pub enum Stage {
    /// The step of this index runs next.
    Running(usize),
    /// Every step has succeeded.
    Done,
    /// The step of this index has failed; nothing runs after it.
    Failed(usize),
}

impl Stage {
    /// The stage names a step that exists.
    pub open spec fn wf(self) -> bool {
        match self {
            Stage::Running(i) => i < STEP_COUNT,
            Stage::Failed(i) => i < STEP_COUNT,
            Stage::Done => true,
        }
    }
}

/// The stage that follows `stage` once its step has succeeded or failed.
pub open spec fn advanced(stage: Stage, success: bool) -> Stage {
    match stage {
        Stage::Running(i) => if !success {
            Stage::Failed(i)
        } else if i + 1 < STEP_COUNT {
            Stage::Running((i + 1) as usize)
        } else {
            Stage::Done
        },
        _ => stage,
    }
}

/// The stage at which a run starts.
pub fn start() -> (r: Stage)
    ensures
        r == Stage::Running(0),
        r.wf(),
{
    Stage::Running(0)
}

/// Moves past the running step, given whether it succeeded.
pub fn advance(stage: Stage, success: bool) -> (r: Stage)
    requires
        stage.wf(),
    ensures
        r == advanced(stage, success),
        r.wf(),
{
    match stage {
        Stage::Running(i) => if !success {
            Stage::Failed(i)
        } else if i + 1 < STEP_COUNT {
            Stage::Running(i + 1)
        } else {
            Stage::Done
        },
        _ => stage,
    }
}

/// The step to run at `stage`, if any runs.
pub fn current_step(stage: Stage) -> (r: Option<Step>)
    requires
        stage.wf(),
    ensures
        match stage {
            Stage::Running(i) => r is Some && r->0.program@ == step_program(i as int)
                && r->0.argument@ == step_argument(i as int),
            _ => r is None,
        },
{
    match stage {
        Stage::Running(i) => Some(step(i)),
        _ => None,
    }
}

/// The steps that run, and the stage reached, when the steps run from `stage`
/// report `results` one after the other.
pub open spec fn run_from(stage: Stage, results: Seq<bool>) -> (Seq<int>, Stage)
    decreases results.len(),
{
    match stage {
        Stage::Running(i) => if results.len() == 0 {
            (Seq::empty(), stage)
        } else {
            let (rest, end) = run_from(advanced(stage, results[0]), results.drop_first());
            (seq![i as int] + rest, end)
        },
        _ => (Seq::empty(), stage),
    }
}

/// The steps `m..n`, in order.
pub open spec fn steps_between(m: int, n: int) -> Seq<int> {
    Seq::new((n - m) as nat, |j: int| m + j)
}

proof fn lemma_run_until_failure(m: usize, i: usize, results: Seq<bool>)
    requires
        m <= i < STEP_COUNT,
        i < results.len(),
        forall|j: int| 0 <= j < i ==> results[j],
        !results[i as int],
    ensures
        run_from(Stage::Running(m), results.skip(m as int)) == (
            steps_between(m as int, i + 1),
            Stage::Failed(i),
        ),
    decreases i - m,
{
    let rs = results.skip(m as int);
    assert(rs[0] == results[m as int]);
    if m < i {
        assert(rs.drop_first() =~= results.skip(m + 1));
        lemma_run_until_failure((m + 1) as usize, i, results);
        assert(seq![m as int] + steps_between(m + 1, i + 1) =~= steps_between(m as int, i + 1));
    } else {
        assert(run_from(Stage::Failed(i), rs.drop_first()) == (Seq::<int>::empty(), Stage::Failed(i)));
        assert(seq![m as int] + Seq::<int>::empty() =~= steps_between(m as int, i + 1));
    }
}

/// When step `i` is the first to fail, steps `0..=i` have run, in order, no
/// later step runs, and the run ends failed at step `i`.
pub proof fn lemma_failure_stops_the_run(i: usize, results: Seq<bool>)
    requires
        i < STEP_COUNT,
        i < results.len(),
        forall|j: int| 0 <= j < i ==> results[j],
        !results[i as int],
    ensures
        run_from(Stage::Running(0), results) == (steps_between(0, i + 1), Stage::Failed(i)),
{
    lemma_run_until_failure(0, i, results);
    assert(results.skip(0) =~= results);
}

proof fn lemma_run_to_completion(m: usize, results: Seq<bool>)
    requires
        m < STEP_COUNT,
        STEP_COUNT <= results.len(),
        forall|j: int| 0 <= j < STEP_COUNT ==> results[j],
    ensures
        run_from(Stage::Running(m), results.subrange(m as int, STEP_COUNT as int)) == (
            steps_between(m as int, STEP_COUNT as int),
            Stage::Done,
        ),
    decreases STEP_COUNT - m,
{
    let rs = results.subrange(m as int, STEP_COUNT as int);
    assert(rs[0] == results[m as int]);
    if m + 1 < STEP_COUNT {
        assert(rs.drop_first() =~= results.subrange(m + 1, STEP_COUNT as int));
        lemma_run_to_completion((m + 1) as usize, results);
        assert(seq![m as int] + steps_between(m + 1, STEP_COUNT as int) =~= steps_between(
            m as int,
            STEP_COUNT as int,
        ));
    } else {
        assert(run_from(Stage::Done, rs.drop_first()) == (Seq::<int>::empty(), Stage::Done));
        assert(seq![m as int] + Seq::<int>::empty() =~= steps_between(m as int, STEP_COUNT as int));
    }
}

/// When every step succeeds, all of them run, each once and in order, and the
/// run is done.
pub proof fn lemma_success_runs_every_step(results: Seq<bool>)
    requires
        results.len() == STEP_COUNT,
        forall|j: int| 0 <= j < STEP_COUNT ==> results[j],
    ensures
        run_from(Stage::Running(0), results) == (steps_between(0, STEP_COUNT as int), Stage::Done),
{
    lemma_run_to_completion(0, results);
    assert(results.subrange(0, STEP_COUNT as int) =~= results);
}

/// What a run reports when `program` has failed.
pub fn failure_message(program: &str) -> (r: String)
    ensures
        r@ == "`"@ + program@ + "` has failed"@,
{
    let mut r = String::from_str("`");
    r.append(program);
    r.append("` has failed");
    r
}

/// What `b` reads as once each byte sequence that is not UTF-8 has been
/// replaced.
pub uninterp spec fn lossy_text(b: Seq<u8>) -> Seq<char>;

/// Relies on `String::from_utf8_lossy`: the text depends on the bytes alone,
/// and bytes that are valid UTF-8 are read as they are.
#[verifier::external_body]
fn decode_lossy(b: &Vec<u8>) -> (r: String)
    ensures
        r@ == lossy_text(b@),
        valid_utf8(b@) ==> r@ == decode_utf8(b@),
{
    String::from_utf8_lossy(b).into_owned()
}

/// How a run ends, once it has stopped at `stage`: nothing while a step is
/// still to run, success when every step has succeeded, and otherwise the
/// failure of the program of the step that failed.
pub fn finished(stage: Stage) -> (r: Option<Result<(), String>>)
    requires
        stage.wf(),
    ensures
        match stage {
            Stage::Running(_) => r is None,
            Stage::Done => r == Some(Ok::<(), String>(())),
            Stage::Failed(i) => r is Some && r->0 is Err && r->0->Err_0@ == "`"@ + step_program(
                i as int,
            ) + "` has failed"@,
        },
{
    match stage {
        Stage::Running(_) => None,
        Stage::Done => Some(Ok(())),
        Stage::Failed(i) => {
            let s = step(i);
            Some(Err(failure_message(s.program.as_str())))
        },
    }
}

/// The rendered citation, from the bytes of the last program's output file.
pub fn output_text(b: &Vec<u8>) -> (r: String)
    ensures
        r@ == trimmed(lossy_text(b@)),
{
    let text = decode_lossy(b);
    trim(text.as_str())
}

} // verus!
