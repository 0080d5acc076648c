//! Whether a designated destination may be written.
//!
//! A destination must lie under the directory of the document once all links in the file system
//! are followed, must not be a directory, and must not be the document itself. The file system is
//! asked by the caller; what is asked, and what follows from the answers, is decided here.

use vstd::prelude::*;

use crate::paths;
use crate::paths::{FsPath, PartModel};

verus! {

/// What has to be found out next about a destination.
#[derive(Debug)]
pub enum Inquiry {
    /// Whether the destination is a directory.
    Directory { target: FsPath },
    /// What the directory of the document resolves to.
    Base { target: FsPath },
    /// Whether a path exists. It is what is left of the destination without the names in `rest`,
    /// of which the last was taken away last.
    Existence { base: FsPath, existing: FsPath, rest: Vec<Vec<u8>> },
    /// What a path that exists resolves to.
    Resolution { base: FsPath, existing: FsPath, rest: Vec<Vec<u8>> },
    /// Nothing any more: whether the destination may be written.
    Settled(bool),
}

/// What the file system has answered.
#[derive(Debug)]
pub enum Finding {
    /// Whether it is so.
    Is(bool),
    /// The path without links.
    Resolved(FsPath),
}

/// What has to be found out next about a destination.
pub enum InquiryModel {
    Directory { target: Seq<u8> },
    Base { target: Seq<u8> },
    Existence { base: Seq<u8>, existing: Seq<u8>, rest: Seq<Seq<u8>> },
    Resolution { base: Seq<u8>, existing: Seq<u8>, rest: Seq<Seq<u8>> },
    Settled(bool),
}

/// What the file system has answered.
pub enum FindingModel {
    Is(bool),
    Resolved(Seq<u8>),
}

/// The names in a list.
pub open spec fn name_models(names: Seq<Vec<u8>>) -> Seq<Seq<u8>> {
    names.map_values(|n: Vec<u8>| n@)
}

impl View for Inquiry {
    type V = InquiryModel;

    open spec fn view(&self) -> InquiryModel {
        match self {
            Inquiry::Directory { target } => InquiryModel::Directory { target: target@ },
            Inquiry::Base { target } => InquiryModel::Base { target: target@ },
            Inquiry::Existence { base, existing, rest } => InquiryModel::Existence {
                base: base@,
                existing: existing@,
                rest: name_models(rest@),
            },
            Inquiry::Resolution { base, existing, rest } => InquiryModel::Resolution {
                base: base@,
                existing: existing@,
                rest: name_models(rest@),
            },
            Inquiry::Settled(allowed) => InquiryModel::Settled(*allowed),
        }
    }
}

impl View for Finding {
    type V = FindingModel;

    open spec fn view(&self) -> FindingModel {
        match self {
            Finding::Is(answer) => FindingModel::Is(*answer),
            Finding::Resolved(path) => FindingModel::Resolved(path@),
        }
    }
}

/// The names that were taken away from a path, in the order in which they follow it.
pub open spec fn below(rest: Seq<Seq<u8>>) -> Seq<PartModel>
    decreases rest.len(),
{
    if rest.len() == 0 {
        Seq::empty()
    } else {
        seq![PartModel::Name(rest.last())] + below(rest.drop_last())
    }
}

/// A path with the names that were taken away from it put back.
pub open spec fn put_back(path: Seq<u8>, rest: Seq<Seq<u8>>) -> Seq<u8>
    decreases rest.len(),
{
    if rest.len() == 0 {
        path
    } else {
        put_back(paths::joined(path, rest.last()), rest.drop_last())
    }
}

/// Whether output may be written to a path without links: it lies under the directory of the
/// document, and is not the document.
pub open spec fn is_safe(base: Seq<u8>, markdown: Seq<u8>, resolved: Seq<u8>) -> bool {
    &&& paths::parts_of(base).is_prefix_of(paths::parts_of(resolved))
    &&& paths::parts_of(resolved) != paths::parts_of(markdown)
}

/// What has to be found out after an answer. A path that need not exist yet is resolved as far as
/// it does: names are taken away from its end until something exists, and put back to what that
/// resolves to. An answer to something else changes nothing.
pub open spec fn inquiry_after(
    markdown: Seq<u8>,
    now: InquiryModel,
    finding: FindingModel,
) -> InquiryModel {
    match (now, finding) {
        (InquiryModel::Directory { target }, FindingModel::Is(directory)) => if directory {
            InquiryModel::Settled(false)
        } else {
            InquiryModel::Base { target }
        },
        (InquiryModel::Base { target }, FindingModel::Resolved(base)) => InquiryModel::Existence {
            base,
            existing: target,
            rest: Seq::empty(),
        },
        (InquiryModel::Existence { base, existing, rest }, FindingModel::Is(exists)) => if exists {
            InquiryModel::Resolution { base, existing, rest }
        } else {
            match (paths::name_of(existing), paths::parent_of(existing)) {
                (Some(name), Some(parent)) => InquiryModel::Existence {
                    base,
                    existing: parent,
                    rest: rest.push(name),
                },
                _ => InquiryModel::Settled(false),
            }
        },
        (InquiryModel::Resolution { base, existing, rest }, FindingModel::Resolved(path)) => {
            InquiryModel::Settled(is_safe(base, markdown, put_back(path, rest)))
        },
        _ => now,
    }
}

/// The components of the destination that an inquiry is about.
pub open spec fn target_of(now: InquiryModel) -> Option<Seq<PartModel>> {
    match now {
        InquiryModel::Directory { target } => Some(paths::parts_of(target)),
        InquiryModel::Base { target } => Some(paths::parts_of(target)),
        InquiryModel::Existence { existing, rest, .. } => Some(
            paths::parts_of(existing) + below(rest),
        ),
        InquiryModel::Resolution { existing, rest, .. } => Some(
            paths::parts_of(existing) + below(rest),
        ),
        InquiryModel::Settled(_) => None,
    }
}

/// Whether what was taken away in an inquiry are names.
pub open spec fn takes_names(now: InquiryModel) -> bool {
    match now {
        InquiryModel::Existence { rest, .. } => are_names(rest),
        InquiryModel::Resolution { rest, .. } => are_names(rest),
        _ => true,
    }
}

/// Whether each of `rest` is a name, and nothing else.
pub open spec fn are_names(rest: Seq<Seq<u8>>) -> bool {
    forall|i: int|
        0 <= i < rest.len() ==> paths::parts_of(#[trigger] rest[i]) == seq![
            PartModel::Name(rest[i]),
        ]
}

/// Whether output may be written to a path without links.
pub fn is_safe_out_file(base: &FsPath, markdown: &FsPath, resolved: &FsPath) -> (safe: bool)
    ensures
        safe == is_safe(base@, markdown@, resolved@),
{
    resolved.starts_with(base) && !resolved.is_same(markdown)
}

/// Puts the names that were taken away back to a path.
fn with_names(path: FsPath, rest: &Vec<Vec<u8>>) -> (whole: FsPath)
    ensures
        whole@ == put_back(path@, name_models(rest@)),
{
    let ghost names = name_models(rest@);
    let mut whole = path;
    let mut n: usize = rest.len();
    assert(names.take(n as int) =~= names);
    while n > 0
        invariant
            n <= rest@.len(),
            names == name_models(rest@),
            put_back(whole@, names.take(n as int)) == put_back(path@, names),
        decreases n,
    {
        n -= 1;
        proof {
            assert(names.take(n + 1).drop_last() =~= names.take(n as int));
            assert(names.take(n + 1).last() == rest@[n as int]@);
        }
        whole = whole.join_bytes(rest[n].as_slice());
    }
    whole
}

/// Decides what has to be found out after an answer.
pub fn next_inquiry(markdown: &FsPath, now: Inquiry, finding: Finding) -> (next: Inquiry)
    ensures
        next@ == inquiry_after(markdown@, now@, finding@),
{
    match (now, finding) {
        (Inquiry::Directory { target }, Finding::Is(directory)) => {
            if directory {
                Inquiry::Settled(false)
            } else {
                Inquiry::Base { target }
            }
        },
        (Inquiry::Base { target }, Finding::Resolved(base)) => {
            let rest: Vec<Vec<u8>> = Vec::new();
            assert(name_models(rest@) =~= Seq::empty());
            Inquiry::Existence { base, existing: target, rest }
        },
        (Inquiry::Existence { base, existing, rest }, Finding::Is(exists)) => {
            if exists {
                return Inquiry::Resolution { base, existing, rest };
            }
            match (existing.file_name(), existing.parent()) {
                (Some(name), Some(parent)) => {
                    let mut rest = rest;
                    let ghost before = rest@;
                    rest.push(name);
                    assert(name_models(rest@) =~= name_models(before).push(name@));
                    Inquiry::Existence { base, existing: parent, rest }
                },
                _ => Inquiry::Settled(false),
            }
        },
        (Inquiry::Resolution { base, existing, rest }, Finding::Resolved(path)) => {
            let resolved = with_names(path, &rest);
            Inquiry::Settled(is_safe_out_file(&base, markdown, &resolved))
        },
        (now, _) => now,
    }
}

/// What is asked is always about the same destination: the path that is looked at, and the names
/// that were taken away from it, make up the destination until it is settled. What is taken away
/// are names.
pub proof fn law_inquiry_keeps_the_target(
    markdown: Seq<u8>,
    now: InquiryModel,
    finding: FindingModel,
)
    ensures
        inquiry_after(markdown, now, finding) is Settled || target_of(
            inquiry_after(markdown, now, finding),
        ) == target_of(now),
        takes_names(now) ==> takes_names(inquiry_after(markdown, now, finding)),
{
    match (now, finding) {
        (InquiryModel::Existence { base, existing, rest }, FindingModel::Is(exists)) => {
            match (paths::name_of(existing), paths::parent_of(existing)) {
                (Some(name), Some(parent)) => {
                    paths::lemma_parent_parts(existing);
                    paths::lemma_name_is_proper(existing);
                    assert(rest.push(name).drop_last() =~= rest);
                    assert(paths::parts_of(parent) + below(rest.push(name)) =~= paths::parts_of(
                        existing,
                    ) + below(rest));
                },
                _ => {},
            }
        },
        (InquiryModel::Base { target }, FindingModel::Resolved(base)) => {
            assert(paths::parts_of(target) + below(Seq::empty()) =~= paths::parts_of(target));
        },
        _ => {},
    }
}

/// Names that are put back follow the path they are put to.
pub proof fn law_names_follow_the_path(path: Seq<u8>, rest: Seq<Seq<u8>>)
    requires
        path.len() > 0,
        are_names(rest),
    ensures
        paths::parts_of(put_back(path, rest)) == paths::parts_of(path) + below(rest),
    decreases rest.len(),
{
    if rest.len() > 0 {
        let name = rest.last();
        let before = rest.drop_last();
        assert(paths::parts_of(name) == seq![PartModel::Name(name)]);
        assert forall|i: int| 0 <= i < before.len() implies paths::parts_of(
            #[trigger] before[i],
        ) == seq![PartModel::Name(before[i])] by {
            assert(before[i] == rest[i]);
        }
        paths::lemma_joined_name(path, name);
        law_names_follow_the_path(paths::joined(path, name), before);
    }
    assert(paths::parts_of(put_back(path, rest)) =~= paths::parts_of(path) + below(rest));
}

/// Only what lies under the directory of the document is ever allowed, and never the document
/// itself.
pub proof fn law_allowed_is_safe(markdown: Seq<u8>, now: InquiryModel, finding: FindingModel)
    requires
        !(now is Settled),
        inquiry_after(markdown, now, finding) == InquiryModel::Settled(true),
    ensures
        now is Resolution,
        finding is Resolved,
        is_safe(
            now->Resolution_base,
            markdown,
            put_back(finding->Resolved_0, now->Resolution_rest),
        ),
{
}

/// What may be written is decided by the answers: a directory is refused at once; anything else is
/// allowed exactly if what it resolves to begins with the components of the resolved directory of
/// the document, and has not those of the document.
pub proof fn law_destination_is_decided_by_the_answers(
    markdown: Seq<u8>,
    target: Seq<u8>,
    base: Seq<u8>,
    resolved: Seq<u8>,
)
    ensures
        inquiry_after(markdown, InquiryModel::Directory { target }, FindingModel::Is(true))
            == InquiryModel::Settled(false),
        inquiry_after(markdown, InquiryModel::Directory { target }, FindingModel::Is(false))
            == (InquiryModel::Base { target }),
        ({
            let none = Seq::<Seq<u8>>::empty();
            let first = inquiry_after(
                markdown,
                InquiryModel::Base { target },
                FindingModel::Resolved(base),
            );
            let found = inquiry_after(markdown, first, FindingModel::Is(true));
            let settled = inquiry_after(markdown, found, FindingModel::Resolved(resolved));
            &&& first == (InquiryModel::Existence { base, existing: target, rest: none })
            &&& found == (InquiryModel::Resolution { base, existing: target, rest: none })
            &&& settled == InquiryModel::Settled(
                paths::parts_of(base).is_prefix_of(paths::parts_of(resolved)) && paths::parts_of(
                    resolved,
                ) != paths::parts_of(markdown),
            )
        }),
{
}

/// A destination that does not exist is looked up by what does: as long as nothing is there, the
/// name at its end is taken away and its parent is looked at, and once something is, what was taken
/// away counts as lying below it.
pub proof fn law_missing_destination_is_looked_up_by_its_parent(
    markdown: Seq<u8>,
    base: Seq<u8>,
    existing: Seq<u8>,
    rest: Seq<Seq<u8>>,
    resolved: Seq<u8>,
)
    requires
        are_names(rest),
        resolved.len() > 0,
    ensures
        ({
            let next = inquiry_after(
                markdown,
                InquiryModel::Existence { base, existing, rest },
                FindingModel::Is(false),
            );
            match paths::name_of(existing) {
                Some(name) => next matches InquiryModel::Existence { base: b, existing: e, rest: r }
                    && b == base && r == rest.push(name) && paths::parts_of(e)
                    == paths::parts_of(existing).drop_last(),
                None => next == InquiryModel::Settled(false),
            }
        }),
        ({
            let below_it = paths::parts_of(resolved) + below(rest);
            inquiry_after(
                markdown,
                InquiryModel::Resolution { base, existing, rest },
                FindingModel::Resolved(resolved),
            ) == InquiryModel::Settled(
                paths::parts_of(base).is_prefix_of(below_it) && below_it != paths::parts_of(
                    markdown,
                ),
            )
        }),
{
    paths::lemma_parent_parts(existing);
    law_names_follow_the_path(resolved, rest);
}

} // verus!
