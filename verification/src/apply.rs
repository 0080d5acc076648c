//! Writing the outcome of a run back: to the Markdown, and to a separate file when needed.
//!
//! The caller reads and writes files. Which file comes next, and what is written to it, is
//! decided here, one stage at a time.

use vstd::prelude::*;
use vstd::utf8::*;

use crate::destination;
use crate::destination::{Finding, Inquiry, InquiryModel};
use crate::exec::ExecOutcome;
use crate::parse;
use crate::paths;
use crate::render;
use crate::render::{Sidecar, SidecarModel};
use crate::session;
use crate::session::Session;
use crate::text;
use crate::writeback;

verus! {

/// What has to be done next to write an outcome back.
#[derive(Debug)]
pub enum Stage {
    /// Read the Markdown file: someone may have edited it while the command ran.
    Read,
    /// Find out something about the designated destination.
    Check(Inquiry),
    /// Write a separate file. The result block that goes with it is `markdown`.
    Store { sidecar: Sidecar, markdown: String },
    /// Write the Markdown file.
    Write(String),
    /// Nothing: the outcome is written back.
    Done,
    /// Nothing: the document has changed too much.
    Refused,
}

/// What the caller has done.
#[derive(Debug)]
pub enum Event {
    /// The Markdown file was read.
    Text(String),
    /// The file system has answered.
    Found(Finding),
    /// The separate file was written, or could not be.
    Stored(bool),
    /// The Markdown file was written.
    Written,
}

/// What has to be done next to write an outcome back.
pub enum StageModel {
    Read,
    Check(InquiryModel),
    Store { sidecar: SidecarModel, markdown: Seq<char> },
    Write(Seq<char>),
    Done,
    Refused,
}

impl View for Stage {
    type V = StageModel;

    open spec fn view(&self) -> StageModel {
        match self {
            Stage::Read => StageModel::Read,
            Stage::Check(inquiry) => StageModel::Check(inquiry@),
            Stage::Store { sidecar, markdown } => StageModel::Store {
                sidecar: render::sidecar_model(Some(*sidecar))->0,
                markdown: markdown@,
            },
            Stage::Write(text) => StageModel::Write(text@),
            Stage::Done => StageModel::Done,
            Stage::Refused => StageModel::Refused,
        }
    }
}

/// The text of the document of a session with `region` as the result of a cell.
pub open spec fn document_with(session: Session, index: int, region: Seq<char>) -> Seq<char> {
    writeback::with_result(session.document().text@, session.cells()[index], region)
}

/// What has to be done once it is known whether the designated destination may be used: the
/// separate file is written first, if there is one.
pub open spec fn stage_rendered(
    session: Session,
    index: int,
    outcome: ExecOutcome,
    allowed: bool,
) -> StageModel {
    let cell = session.document().cells@[index];
    let markdown = render::rendered_block(cell, outcome, session.context(), allowed);
    match render::rendered_sidecar(cell, outcome, session.context(), allowed) {
        Some(sidecar) => StageModel::Store { sidecar, markdown },
        None => StageModel::Write(document_with(session, index, markdown)),
    }
}

/// What has to be done once the document is up to date.
pub open spec fn stage_read(session: Session, index: int, outcome: ExecOutcome) -> StageModel {
    match session.cells()[index].out_file {
        Some(link) => StageModel::Check(
            InquiryModel::Directory {
                target: paths::joined(session.context().md_dir@, encode_utf8(link)),
            },
        ),
        None => stage_rendered(session, index, outcome, true),
    }
}

/// What has to be done after an answer about the destination.
pub open spec fn stage_checked(
    session: Session,
    index: int,
    outcome: ExecOutcome,
    inquiry: InquiryModel,
) -> StageModel {
    match inquiry {
        InquiryModel::Settled(allowed) => stage_rendered(session, index, outcome, allowed),
        _ => StageModel::Check(inquiry),
    }
}

fn render_stage(session: &Session, index: usize, outcome: &ExecOutcome, allowed: bool) -> (next:
    Stage)
    requires
        index < session.cells().len(),
    ensures
        next@ == stage_rendered(*session, index as int, *outcome, allowed),
{
    let rendered = session.render_outcome(index, outcome, allowed);
    match rendered.sidecar {
        Some(sidecar) => Stage::Store { sidecar, markdown: rendered.markdown },
        None => Stage::Write(session.updated_text(index, rendered.markdown.as_str())),
    }
}

fn check_stage(session: &Session, index: usize, outcome: &ExecOutcome, inquiry: Inquiry) -> (next:
    Stage)
    requires
        index < session.cells().len(),
    ensures
        next@ == stage_checked(*session, index as int, *outcome, inquiry@),
{
    match inquiry {
        Inquiry::Settled(allowed) => render_stage(session, index, outcome, allowed),
        inquiry => Stage::Check(inquiry),
    }
}

/// Decides what has to be done next to write the outcome of a run of a cell back.
///
/// A separate file that cannot be written never costs the output: it then goes into the document
/// as a whole. An event that does not belong to the stage changes nothing.
pub fn next_stage(
    session: &mut Session,
    index: usize,
    outcome: &ExecOutcome,
    now: Stage,
    event: Event,
) -> (next: Stage)
    requires
        index < old(session).cells().len(),
    ensures
        final(session).same_settings(*old(session)),
        final(session).document().wf(),
        match (now, event) {
            (Stage::Read, Event::Text(current)) => {
                &&& next is Refused <==> !(parse::cells_of(current@).len() == old(
                    session,
                ).cells().len() && forall|k: int|
                    0 <= k < old(session).cells().len() ==> (#[trigger] parse::cells_of(
                        current@,
                    )[k]).command == old(session).cells()[k].command)
                &&& if session::same_commands(parse::cells_of(current@), old(session).cells()) {
                    &&& final(session).document().text@ == current@
                    &&& next@ == stage_read(*final(session), index as int, *outcome)
                } else {
                    &&& *final(session) == *old(session)
                    &&& next is Refused
                }
            },
            (Stage::Check(inquiry), Event::Found(finding)) => {
                &&& *final(session) == *old(session)
                &&& next@ == stage_checked(
                    *old(session),
                    index as int,
                    *outcome,
                    destination::inquiry_after(old(session).file(), inquiry@, finding@),
                )
            },
            (Stage::Store { sidecar, markdown }, Event::Stored(stored)) => {
                &&& *final(session) == *old(session)
                &&& next@ == stage_stored(
                    *old(session),
                    index as int,
                    *outcome,
                    markdown@,
                    stored,
                )
                &&& next@ == StageModel::Write(
                    document_with(
                        *old(session),
                        index as int,
                        if stored {
                            markdown@
                        } else {
                            session::inline_block(
                                old(session).document().cells@[index as int],
                                *outcome,
                            )
                        },
                    ),
                )
            },
            (Stage::Write(text), Event::Written) => {
                &&& final(session).document().text@ == text@
                &&& next is Done
            },
            _ => *final(session) == *old(session) && next == now,
        },
{
    proof {
        use_type_invariant(&*session);
    }
    match (now, event) {
        (Stage::Read, Event::Text(current)) => {
            if !session.refresh_before_write(current.as_str()) {
                return Stage::Refused;
            }
            match session.out_file_target(index) {
                Some(target) => Stage::Check(Inquiry::Directory { target }),
                None => render_stage(session, index, outcome, true),
            }
        },
        (Stage::Check(inquiry), Event::Found(finding)) => {
            let inquiry = destination::next_inquiry(session.path(), inquiry, finding);
            check_stage(session, index, outcome, inquiry)
        },
        (Stage::Store { sidecar, markdown }, Event::Stored(stored)) => {
            if stored {
                Stage::Write(session.updated_text(index, markdown.as_str()))
            } else {
                let inline = session.render_inline(index, outcome);
                Stage::Write(session.updated_text(index, inline.markdown.as_str()))
            }
        },
        (Stage::Write(text), Event::Written) => {
            session.reload(text.as_str());
            Stage::Done
        },
        (now, _) => now,
    }
}

/// A result is written to a cell only if the file that it is written to still has the command that
/// was run there: unless the outcome of a run is refused, each cell of the text that was read has
/// the command of the cell it takes the place of, and the text that was read is written to.
pub proof fn law_result_goes_to_the_command_that_was_run(
    before: Session,
    current: Seq<char>,
    index: int,
)
    requires
        0 <= index < before.cells().len(),
        session::same_commands(parse::cells_of(current), before.cells()),
    ensures
        0 <= index < parse::cells_of(current).len(),
        parse::cells_of(current)[index].command == before.cells()[index].command,
{
}

/// What is written for an outcome that needs no separate file is the document with the result
/// block in it; for one that needs one, that file is stored first, and only then the document is
/// written.
pub proof fn law_separate_file_comes_first(
    session: Session,
    index: int,
    outcome: ExecOutcome,
    allowed: bool,
)
    ensures
        ({
            let cell = session.document().cells@[index];
            let block = render::rendered_block(cell, outcome, session.context(), allowed);
            match render::rendered_sidecar(cell, outcome, session.context(), allowed) {
                Some(file) => stage_rendered(session, index, outcome, allowed)
                    == (StageModel::Store { sidecar: file, markdown: block }),
                None => stage_rendered(session, index, outcome, allowed) == StageModel::Write(
                    writeback::with_result(
                        session.document().text@,
                        session.cells()[index],
                        block,
                    ),
                ),
            }
        }),
        session.cells()[index].out_file is None ==> stage_read(session, index, outcome)
            == stage_rendered(session, index, outcome, true),
        session.cells()[index].out_file matches Some(link) ==> stage_read(session, index, outcome)
            == StageModel::Check(
            InquiryModel::Directory {
                target: paths::joined(session.context().md_dir@, encode_utf8(link)),
            },
        ),
        forall|inquiry: InquiryModel|
            !(inquiry is Settled) ==> #[trigger] stage_checked(session, index, outcome, inquiry)
                == StageModel::Check(inquiry),
        stage_checked(session, index, outcome, InquiryModel::Settled(allowed)) == stage_rendered(
            session,
            index,
            outcome,
            allowed,
        ),
{
}

/// What has to be done once a separate file was written, or could not be.
pub open spec fn stage_stored(
    session: Session,
    index: int,
    outcome: ExecOutcome,
    markdown: Seq<char>,
    stored: bool,
) -> StageModel {
    let region = if stored {
        markdown
    } else {
        session::inline_block(session.document().cells@[index], outcome)
    };
    StageModel::Write(document_with(session, index, region))
}

/// Once a separate file was written, its result block goes into the document. If it could not be
/// written, a result block with the whole output goes there, so that nothing of it is lost.
pub proof fn law_output_goes_to_the_document_if_not_to_a_file(
    session: Session,
    index: int,
    outcome: ExecOutcome,
    markdown: Seq<char>,
)
    requires
        render::normalized(outcome.output@).len() > 0,
    ensures
        stage_stored(session, index, outcome, markdown, true) == StageModel::Write(
            writeback::with_result(
                session.document().text@,
                session.cells()[index],
                markdown,
            ),
        ),
        exists|said: Seq<char>|
            stage_stored(session, index, outcome, markdown, false) == StageModel::Write(
                writeback::with_result(
                    session.document().text@,
                    session.cells()[index],
                    #[trigger] render::block_of(
                        said,
                        Some(render::fenced_output(render::normalized(outcome.output@))),
                    ),
                ),
            ),
{
    let output = render::normalized(outcome.output@);
    let cell = session.document().cells@[index];
    let said = render::summary(outcome, text::text_lines(output).len(), cell.out_file is Some);
    assert(session::inline_block(cell, outcome) == render::block_of(
        said,
        Some(render::fenced_output(output)),
    ));
}

} // verus!
