//! A Markdown file together with its run state. Shared by all front ends.
//!
//! Reading and writing files is left to the caller. What is compared, rendered and written, and
//! in which order, is decided here.

use vstd::prelude::*;
use vstd::utf8::*;

use crate::edit;
use crate::edit::Edit;
use crate::exec::{ExecOptions, ExecOutcome};
use crate::parse;
use crate::parse::{Cell, CellModel, Document};
use crate::paths;
use crate::paths::FsPath;
use crate::render;
use crate::render::{RenderContext, ResultRender};
use crate::text;
use crate::time;
use crate::writeback;

verus! {

/// State for a single Markdown file.
pub struct Session {
    path: FsPath,
    doc: Document,
    settings: ExecOptions,
    render: RenderContext,
}

/// The directory of a file; the current one for a path without a parent.
pub open spec fn directory_of(path: Seq<u8>) -> Seq<u8> {
    match paths::parent_of(path) {
        Some(parent) => parent,
        None => seq![paths::dot()],
    }
}

/// The name of a file without its extension, as text.
pub open spec fn stem_of(path: Seq<u8>) -> Seq<char> {
    match paths::name_of(path) {
        Some(name) => text::lossy_text(paths::stem(name)),
        None => "runandlog"@,
    }
}

/// Whether two documents have the same commands in the same order.
pub open spec fn same_commands(a: Seq<CellModel>, b: Seq<CellModel>) -> bool {
    &&& a.len() == b.len()
    &&& forall|i: int| 0 <= i < a.len() ==> (#[trigger] a[i]).command == b[i].command
}

/// What is said when a result is not written because the document has changed.
pub const CHANGED: &'static str =
    "the Markdown changed while the command was running, so the result could not be written back; reload and run again";

impl Session {
    /// The Markdown file.
    pub closed spec fn file(&self) -> Seq<u8> {
        self.path@
    }

    /// The document, as it was read last.
    pub closed spec fn document(&self) -> Document {
        self.doc
    }

    /// The execution settings.
    pub closed spec fn options(&self) -> ExecOptions {
        self.settings
    }

    /// What results are formatted with.
    pub closed spec fn context(&self) -> RenderContext {
        self.render
    }

    /// The cells of the document.
    pub open spec fn cells(&self) -> Seq<CellModel> {
        parse::cells_of(self.document().text@)
    }

    /// Whether everything but the document is the same as in `other`.
    pub open spec fn same_settings(&self, other: Session) -> bool {
        &&& self.file() == other.file()
        &&& self.options() == other.options()
        &&& self.context() == other.context()
    }

    /// Whether the cells are those of the text.
    #[verifier::type_invariant]
    pub open spec fn is_parsed(self) -> bool {
        self.document().wf()
    }

    /// The state for the file at `path`, of which `text` was read.
    pub fn load(path: FsPath, text: &str, settings: ExecOptions, max_inline_lines: usize) -> (session:
        Session)
        ensures
            session.file() == path@,
            session.document().text@ == text@,
            session.document().wf(),
            session.options() == settings,
            session.context().md_dir@ == directory_of(path@),
            session.context().md_stem@ == stem_of(path@),
            session.context().max_inline_lines == max_inline_lines,
    {
        let md_dir = match path.parent() {
            Some(parent) => parent,
            None => FsPath::current(),
        };
        let md_stem = match path.file_stem() {
            Some(name) => text::decode_lossy(name.as_slice()),
            None => "runandlog".to_owned(),
        };
        let doc = Document::parse(text);
        Session { path, doc, settings, render: RenderContext { md_dir, md_stem, max_inline_lines } }
    }

    /// The Markdown file.
    pub fn path(&self) -> (path: &FsPath)
        ensures
            path@ == self.file(),
    {
        &self.path
    }

    /// The directory of the Markdown file.
    pub fn dir(&self) -> (dir: &FsPath)
        ensures
            *dir == self.context().md_dir,
    {
        &self.render.md_dir
    }

    /// The document, as it was read last.
    pub fn doc(&self) -> (doc: &Document)
        ensures
            *doc == self.document(),
            doc.wf(),
    {
        proof {
            use_type_invariant(self);
        }
        &self.doc
    }

    /// Number of cells.
    pub fn len(&self) -> (count: usize)
        ensures
            count == self.cells().len(),
            count == self.document().cells@.len(),
    {
        proof {
            use_type_invariant(self);
        }
        self.doc.cells.len()
    }

    /// Whether there are no cells.
    pub fn is_empty(&self) -> (empty: bool)
        ensures
            empty == (self.cells().len() == 0),
    {
        self.len() == 0
    }

    /// The command of a cell.
    pub fn command_of(&self, index: usize) -> (command: String)
        requires
            index < self.cells().len(),
        ensures
            command@ == self.cells()[index as int].command,
    {
        proof {
            use_type_invariant(self);
            assert(self.doc.cells@[index as int].describes(
                self.doc.text@,
                self.cells()[index as int],
            ));
        }
        self.doc.cells[index].command.as_str().to_owned()
    }

    /// The execution settings.
    pub fn exec_options(&self) -> (options: ExecOptions)
        ensures
            options.shell@ == self.options().shell@,
            options.cwd@ == self.options().cwd@,
            options.timeout == self.options().timeout,
            options.max_output_bytes == self.options().max_output_bytes,
    {
        self.settings.duplicate()
    }

    /// Takes the text that the file holds just before a result is written.
    ///
    /// Someone may have edited the file while the command ran. Edits around the cells are kept.
    /// When the sequence of commands has changed the result could land on another cell, so it is
    /// refused.
    pub fn refresh_before_write(&mut self, current: &str) -> (fresh: bool)
        ensures
            fresh == same_commands(parse::cells_of(current@), old(self).cells()),
            fresh ==> parse::cells_of(current@).len() == old(self).cells().len(),
            fresh ==> forall|k: int|
                0 <= k < old(self).cells().len() ==> (#[trigger] parse::cells_of(
                    current@,
                )[k]).command == old(self).cells()[k].command,
            !fresh ==> parse::cells_of(current@).len() != old(self).cells().len() || exists|k: int|
                0 <= k < old(self).cells().len() && (#[trigger] parse::cells_of(
                    current@,
                )[k]).command != old(self).cells()[k].command,
            fresh ==> final(self).document().text@ == current@,
            !fresh ==> *final(self) == *old(self),
            final(self).document().wf(),
            final(self).same_settings(*old(self)),
    {
        proof {
            use_type_invariant(&*self);
        }
        let here = text::to_chars(current);
        let known = text::to_chars(self.doc.text.as_str());
        if text::same(here.as_slice(), known.as_slice()) {
            return true;
        }
        let reparsed = Document::parse(current);
        if reparsed.cells.len() != self.doc.cells.len() {
            return false;
        }
        for i in 0..reparsed.cells.len()
            invariant
                self.doc.wf(),
                reparsed.wf(),
                reparsed.text@ == current@,
                *self == *old(self),
                reparsed.cells@.len() == self.doc.cells@.len(),
                forall|j: int|
                    0 <= j < i ==> (#[trigger] parse::cells_of(current@)[j]).command
                        == self.cells()[j].command,
        {
            let a = text::to_chars(reparsed.cells[i].command.as_str());
            let b = text::to_chars(self.doc.cells[i].command.as_str());
            assert(reparsed.cells@[i as int].describes(
                current@,
                parse::cells_of(current@)[i as int],
            ));
            assert(self.doc.cells@[i as int].describes(
                self.doc.text@,
                self.cells()[i as int],
            ));
            if !text::same(a.as_slice(), b.as_slice()) {
                return false;
            }
        }
        self.doc = reparsed;
        true
    }

    /// Takes the text of the file anew, with whatever was edited.
    pub fn reload(&mut self, text: &str)
        ensures
            final(self).document().text@ == text@,
            final(self).document().wf(),
            final(self).same_settings(*old(self)),
    {
        self.doc = Document::parse(text);
    }

    /// Where the designated destination of a cell lies.
    pub fn out_file_target(&self, index: usize) -> (target: Option<FsPath>)
        requires
            index < self.cells().len(),
        ensures
            target is Some <==> self.cells()[index as int].out_file is Some,
            target matches Some(t) ==> t@ == paths::joined(
                self.context().md_dir@,
                encode_utf8(self.cells()[index as int].out_file->0),
            ),
    {
        proof {
            use_type_invariant(self);
            assert(self.doc.cells@[index as int].describes(
                self.doc.text@,
                self.cells()[index as int],
            ));
        }
        match &self.doc.cells[index].out_file {
            Some(link) => Some(self.render.md_dir.join(link.as_str())),
            None => None,
        }
    }

    /// The text of the document with `region` as the result of a cell.
    pub fn updated_text(&self, index: usize, region: &str) -> (updated: String)
        requires
            index < self.cells().len(),
        ensures
            updated@ == writeback::with_result(
                self.document().text@,
                self.cells()[index as int],
                region@,
            ),
    {
        proof {
            use_type_invariant(self);
            writeback::lemma_cell_offsets(self.doc, index as int);
            writeback::law_edit_writes_the_result(self.doc, index as int, region@);
        }
        let written = self.doc.result_edit(&self.doc.cells[index], region);
        let mut edits: Vec<Edit> = Vec::new();
        edits.push(written);
        assert(edit::models(edits@) =~= seq![
            writeback::result_edit_model(self.doc.text@, self.doc.cells@[index as int], region@),
        ]);
        edit::splice(self.doc.text.as_str(), edits)
    }

    /// Formats the result of a run of a cell.
    pub fn render_outcome(&self, index: usize, outcome: &ExecOutcome, out_file_allowed: bool) -> (
    rendered: ResultRender)
        requires
            index < self.cells().len(),
        ensures
            render::sidecar_model(rendered.sidecar) == render::rendered_sidecar(
                self.document().cells@[index as int],
                *outcome,
                self.context(),
                out_file_allowed,
            ),
            rendered.markdown@ == render::rendered_block(
                self.document().cells@[index as int],
                *outcome,
                self.context(),
                out_file_allowed,
            ),
            time::has_two_decimals(time::elapsed_text(outcome.duration@)),
    {
        proof {
            use_type_invariant(self);
            assert(self.doc.cells@[index as int].index == index);
            assert(index < self.doc.cells.len());
        }
        render::render_result(&self.doc.cells[index], outcome, &self.render, out_file_allowed)
    }

    /// Formats the result of a run of a cell without a separate file, for when that file cannot
    /// be written: the command has run, and its output must not be lost.
    pub fn render_inline(&self, index: usize, outcome: &ExecOutcome) -> (rendered: ResultRender)
        requires
            index < self.cells().len(),
        ensures
            rendered.sidecar is None,
            rendered.markdown@ == inline_block(self.document().cells@[index as int], *outcome),
            time::has_two_decimals(time::elapsed_text(outcome.duration@)),
    {
        proof {
            use_type_invariant(self);
            assert(self.doc.cells@[index as int].index == index);
            assert(index < self.doc.cells.len());
        }
        let inline = RenderContext {
            md_dir: self.render.md_dir.duplicate(),
            md_stem: self.render.md_stem.as_str().to_owned(),
            max_inline_lines: usize::MAX,
        };
        render::render_result(&self.doc.cells[index], outcome, &inline, false)
    }
}

/// The result block with the whole output in it.
pub open spec fn inline_block(cell: Cell, outcome: ExecOutcome) -> Seq<char> {
    let output = render::normalized(outcome.output@);
    render::block_of(
        render::summary(outcome, text::text_lines(output).len(), cell.out_file is Some),
        render::body_of(None, false, output),
    )
}

/// Whether a result is refused depends on the commands alone: the file may be written to exactly
/// if it has as many cells as before, and each of them the command it had.
pub proof fn law_refused_unless_every_command_is_kept(loaded: Seq<char>, current: Seq<char>)
    ensures
        same_commands(parse::cells_of(current), parse::cells_of(loaded)) <==> (parse::cells_of(
            current,
        ).len() == parse::cells_of(loaded).len() && forall|k: int|
            0 <= k < parse::cells_of(loaded).len() ==> (#[trigger] parse::cells_of(
                current,
            )[k]).command == parse::cells_of(loaded)[k].command),
{
}

/// The document of a file lies in the directory of that file, and is known by its name: the path
/// of the file has one name more than the directory.
pub proof fn law_directory_holds_the_file(path: Seq<u8>)
    requires
        paths::name_of(path) is Some,
    ensures
        paths::parts_of(directory_of(path)) == paths::parts_of(path).drop_last(),
        paths::parts_of(path).last() == paths::PartModel::Name(paths::name_of(path)->0),
{
    paths::lemma_parent_parts(path);
}

/// The name by which results are numbered is that of the file, without its extension, as text; a
/// path without a name has a name of its own.
pub proof fn law_stem_is_the_name_without_its_extension(path: Seq<u8>)
    ensures
        paths::name_of(path) matches Some(name) ==> stem_of(path) == text::lossy_text(
            paths::stem(name),
        ),
        paths::name_of(path) is None ==> stem_of(path) == "runandlog"@,
        paths::parent_of(path) is None ==> paths::parts_of(directory_of(path)) == seq![
            paths::PartModel::Current,
        ],
{
    let here = seq![paths::dot()];
    paths::law_names_stay_inside(here, here);
    assert(paths::parts_of(here) =~= seq![paths::PartModel::Current]) by {
        paths::lemma_current();
    }
}

} // verus!
