//! Writing a file by way of a temporary one that is renamed into place, so that the file is never
//! left half-written.
//!
//! The caller performs the steps. Which step comes next, and what the temporary file is named, is
//! decided here.

use vstd::prelude::*;
use vstd::utf8::*;

use crate::number;
use crate::paths;
use crate::paths::FsPath;
use crate::text;

verus! {

/// How many names are tried for a temporary file.
pub const ATTEMPTS: u32 = 64;

/// What has to be done next.
#[derive(Debug, Clone, Copy, PartialEq, Eq, Structural)]
pub enum Step {
    /// Create the temporary file of this attempt, which must not exist yet.
    Create(u32),
    /// Fill the temporary file of this attempt, and rename it into place.
    Fill(u32),
    /// Remove the temporary file of this attempt.
    Remove(u32),
    /// Nothing: the file is written.
    Done,
    /// Nothing: the last error stands.
    Failed,
    /// Nothing: every name was taken.
    Exhausted,
}

/// How a step went.
#[derive(Debug, Clone, Copy, PartialEq, Eq, Structural)]
pub enum StepResult {
    /// It worked.
    Worked,
    /// A file of that name exists already.
    Taken,
    /// It did not work.
    Error,
}

/// What has to be done after a step. Once the temporary file exists, it is either renamed into
/// place or removed: left behind, it would use up one of the names.
pub open spec fn step_after(now: Step, result: StepResult) -> Step {
    match now {
        Step::Create(attempt) => match result {
            StepResult::Worked => Step::Fill(attempt),
            StepResult::Taken => if attempt + 1 < ATTEMPTS {
                Step::Create((attempt + 1) as u32)
            } else {
                Step::Exhausted
            },
            StepResult::Error => Step::Failed,
        },
        Step::Fill(attempt) => if result == StepResult::Worked {
            Step::Done
        } else {
            Step::Remove(attempt)
        },
        Step::Remove(_) => Step::Failed,
        _ => now,
    }
}

/// Decides what has to be done after a step.
pub fn next_step(now: Step, result: StepResult) -> (next: Step)
    ensures
        next == step_after(now, result),
{
    match now {
        Step::Create(attempt) => {
            match result {
                StepResult::Worked => Step::Fill(attempt),
                StepResult::Taken => {
                    if attempt < ATTEMPTS - 1 {
                        Step::Create(attempt + 1)
                    } else {
                        Step::Exhausted
                    }
                },
                StepResult::Error => Step::Failed,
            }
        },
        Step::Fill(attempt) => {
            match result {
                StepResult::Worked => Step::Done,
                _ => Step::Remove(attempt),
            }
        },
        Step::Remove(_) => Step::Failed,
        now => now,
    }
}

/// The name of a temporary file.
pub open spec fn temp_name(file: Seq<char>, pid: nat, attempt: nat) -> Seq<char> {
    "."@ + file + ".runandlog-"@ + number::decimal(pid) + "-"@ + number::decimal(attempt) + ".tmp"@
}

/// The name of the file at `path`, as text.
pub open spec fn name_text(path: Seq<u8>) -> Seq<char> {
    match paths::name_of(path) {
        Some(name) => text::lossy_text(name),
        None => "runandlog"@,
    }
}

/// Where the temporary file of an attempt lies: beside the file itself.
pub open spec fn temp_path(path: Seq<u8>, pid: nat, attempt: nat) -> Seq<u8> {
    paths::sibling(path, encode_utf8(temp_name(name_text(path), pid, attempt)))
}

/// Where the temporary file of an attempt lies.
pub fn candidate(path: &FsPath, pid: u32, attempt: u32) -> (temp: FsPath)
    ensures
        temp@ == temp_path(path@, pid as nat, attempt as nat),
{
    let file = match path.file_name() {
        Some(name) => text::decode_lossy(name.as_slice()),
        None => "runandlog".to_owned(),
    };
    let mut name = ".".to_owned();
    name.append(file.as_str());
    name.append(".runandlog-");
    name.append(number::write_decimal(pid as u64).as_str());
    name.append("-");
    name.append(number::write_decimal(attempt as u64).as_str());
    name.append(".tmp");
    path.with_file_name(name.as_str().as_bytes())
}

/// What is said when every name was taken.
pub const EXHAUSTED: &'static str = "could not create a temporary file";

/// What has to be done after all of `results`, from the first attempt on.
pub open spec fn performed(results: Seq<StepResult>) -> Step
    decreases results.len(),
{
    if results.len() == 0 {
        Step::Create(0)
    } else {
        step_after(performed(results.drop_last()), results.last())
    }
}

/// At most [`ATTEMPTS`] names are tried, one after the other: a name is tried once those before it
/// were taken, and nothing more is tried once all of them were.
pub proof fn law_attempts_are_bounded(results: Seq<StepResult>)
    ensures
        performed(results) matches Step::Create(attempt) ==> attempt < ATTEMPTS && attempt
            == results.len() && forall|i: int|
            0 <= i < results.len() ==> results[i] == StepResult::Taken,
        performed(results) is Exhausted ==> results.len() >= ATTEMPTS && forall|i: int|
            0 <= i < ATTEMPTS ==> results[i] == StepResult::Taken,
    decreases results.len(),
{
    if results.len() > 0 {
        let before = results.drop_last();
        law_attempts_are_bounded(before);
        let n = results.len() - 1;
        assert(results[n] == results.last());
        assert forall|i: int| 0 <= i < n implies results[i] == before[i] by {}
        match performed(before) {
            Step::Create(attempt) => {
                assert forall|i: int| 0 <= i < n implies results[i] == StepResult::Taken by {
                    assert(before[i] == StepResult::Taken);
                }
            },
            Step::Exhausted => {
                assert forall|i: int| 0 <= i < ATTEMPTS implies results[i] == StepResult::Taken by {
                    assert(before[i] == StepResult::Taken);
                }
            },
            _ => {},
        }
    }
}

/// The attempt whose temporary file is there after all of `results`: created, and neither renamed
/// into place nor removed.
pub open spec fn temporary(results: Seq<StepResult>) -> Option<u32>
    decreases results.len(),
{
    if results.len() == 0 {
        None
    } else {
        let before = results.drop_last();
        match (performed(before), results.last()) {
            (Step::Create(attempt), StepResult::Worked) => Some(attempt),
            (Step::Fill(_), StepResult::Worked) => None,
            (Step::Remove(_), StepResult::Worked) => None,
            _ => temporary(before),
        }
    }
}

/// Whether one of `results` says that a temporary file could not be removed.
pub open spec fn removal_failed(results: Seq<StepResult>) -> bool
    decreases results.len(),
{
    results.len() > 0 && (removal_failed(results.drop_last()) || (performed(
        results.drop_last(),
    ) is Remove && results.last() != StepResult::Worked))
}

/// No temporary file is left behind: while there is one, what comes next is to rename it into
/// place or to remove it, and at the end there is none, unless it could not be removed.
pub proof fn law_no_temporary_is_left(results: Seq<StepResult>)
    ensures
        match performed(results) {
            Step::Create(_) => temporary(results) is None,
            Step::Fill(attempt) => temporary(results) == Some(attempt),
            Step::Remove(attempt) => temporary(results) == Some(attempt),
            Step::Done => temporary(results) is None,
            Step::Failed => temporary(results) is None || removal_failed(results),
            Step::Exhausted => temporary(results) is None,
        },
    decreases results.len(),
{
    if results.len() > 0 {
        law_no_temporary_is_left(results.drop_last());
    }
}

/// The name of a temporary file begins with a dot.
proof fn lemma_temp_name_start(file: Seq<char>, pid: nat, attempt: nat)
    ensures
        encode_utf8(temp_name(file, pid, attempt)).len() > 0,
        encode_utf8(temp_name(file, pid, attempt))[0] == paths::dot(),
{
    let name = temp_name(file, pid, attempt);
    reveal_strlit(".");
    assert(name[0] == '.');
    assert(leading_byte_width_1(0x2e) == 0x2e) by {
        assert((0x2eu32 & 0x7f) as u8 == 0x2e) by (bit_vector);
    }
    assert(encode_utf8(name) =~= encode_scalar(name[0] as u32) + encode_utf8(name.drop_first()));
}

/// Different attempts try different names.
pub proof fn law_attempts_differ(path: Seq<u8>, pid: nat, a: nat, b: nat)
    requires
        temp_path(path, pid, a) == temp_path(path, pid, b),
    ensures
        a == b,
{
    let file = name_text(path);
    let x = temp_name(file, pid, a);
    let y = temp_name(file, pid, b);
    lemma_temp_name_start(file, pid, a);
    lemma_temp_name_start(file, pid, b);
    let base = if paths::name_of(path) is Some {
        paths::parent_of(path)->0
    } else {
        path
    };
    paths::lemma_joined_injective(base, encode_utf8(x), encode_utf8(y));
    text::lemma_encode_injective(x, y);
    let head = "."@ + file + ".runandlog-"@ + number::decimal(pid) + "-"@;
    let from = head.len() as int;
    let to = x.len() - ".tmp"@.len();
    assert(number::decimal(a) =~= x.subrange(from, to));
    assert(number::decimal(b) =~= y.subrange(from, to));
    number::lemma_decimal_injective(a, b);
}

/// A file that can be written is written with the first name that is free: after names that were
/// taken, creating and filling the temporary file is all there is to do.
pub proof fn law_free_name_is_used(taken: nat)
    requires
        taken < 64,
    ensures
        ({
            let results = Seq::new(taken, |i: int| StepResult::Taken);
            &&& performed(results) == Step::Create(taken as u32)
            &&& performed(results.push(StepResult::Worked)) == Step::Fill(taken as u32)
            &&& performed(results.push(StepResult::Worked).push(StepResult::Worked)) == Step::Done
            &&& performed(results.push(StepResult::Error)) == Step::Failed
            &&& performed(results.push(StepResult::Worked).push(StepResult::Error)) == Step::Remove(
                taken as u32,
            )
        }),
    decreases taken,
{
    let results = Seq::new(taken, |i: int| StepResult::Taken);
    if taken > 0 {
        law_free_name_is_used((taken - 1) as nat);
        assert(results.drop_last() =~= Seq::new((taken - 1) as nat, |i: int| StepResult::Taken));
    }
    let created = results.push(StepResult::Worked);
    assert(created.drop_last() =~= results);
    assert(created.push(StepResult::Worked).drop_last() =~= created);
    assert(created.push(StepResult::Error).drop_last() =~= created);
    assert(results.push(StepResult::Error).drop_last() =~= results);
}

/// A temporary file lies beside the file that it is renamed to: in the same directory.
pub proof fn law_temporary_lies_beside_the_file(path: Seq<u8>, pid: nat, attempt: nat)
    requires
        paths::name_of(path) is Some,
    ensures
        temp_path(path, pid, attempt) == paths::joined(
            paths::parent_of(path)->0,
            encode_utf8(
                "."@ + text::lossy_text(paths::name_of(path)->0) + ".runandlog-"@ + number::decimal(
                    pid,
                ) + "-"@ + number::decimal(attempt) + ".tmp"@,
            ),
        ),
{
}

} // verus!
