//! What the models show of the values that they stand for: every field, and every
//! item of a list, as it is.

use crate::commit_template::{IssueView, ParseResult, Segment, SegmentView};
use crate::fs_path;
use crate::fs_path::{Component, FileName, FsPath, Part};
use crate::fs_sandbox;
use crate::fs_sandbox::{
    CallView, ErrorView, FsCall, FsReply, Outcome, OutcomeView, ReplyView, SandboxError,
};
use crate::github_api;
use crate::github_api::{ApiRequest, Body, BodyView, GitHubError, GitHubErrorView};
use crate::text;
use crate::upload;
use crate::upload::{PushCall, PushCallView, PushReply, PushReplyView, StagedFile};
use vstd::prelude::*;

verus! {

// ---- Templates -----------------------------------------------------------

/// A parse result is shown segment by segment and issue by issue, each with all that
/// it holds.
pub proof fn law_parse_results_are_shown(result: ParseResult)
    ensures
        result@.segments.len() == result.segments@.len(),
        forall|i: int|
            0 <= i < result.segments@.len() ==> (#[trigger] result@.segments[i]) == match
                result.segments@[i] {
                Segment::Literal(text) => SegmentView::Literal(text@),
                Segment::Filename => SegmentView::Filename,
                Segment::Time(format) => SegmentView::Time(format@),
            },
        result@.issues.len() == result.issues@.len(),
        forall|i: int|
            0 <= i < result.issues@.len() ==> {
                let issue = result.issues@[i];
                (#[trigger] result@.issues[i]) == IssueView {
                    severity: issue.severity,
                    message: issue.message@,
                    span: (issue.span.0 as nat, issue.span.1 as nat),
                }
            },
{
}

// ---- Requests ------------------------------------------------------------

/// A request is shown with its method, its address, each header, and all that its
/// body carries.
pub proof fn law_requests_are_shown(made: ApiRequest)
    ensures
        made@.method == made.method,
        made@.url == made.url@,
        made@.headers.len() == made.headers@.len(),
        forall|i: int|
            0 <= i < made.headers@.len() ==> (#[trigger] made@.headers[i]).name
                == made.headers@[i].name@ && made@.headers[i].value == made.headers@[i].value@,
        match made.body {
            Body::Empty => made@.body == BodyView::Empty,
            Body::Blob(blob) => made@.body == (BodyView::Blob {
                content: blob.content@,
                encoding: blob.encoding@,
            }),
            Body::Tree { entries, base_tree } => {
                &&& made@.body matches BodyView::Tree { entries: shown, base_tree: base }
                &&& base == match base_tree {
                    Some(sha) => Some(sha@),
                    None => None,
                }
                &&& shown.len() == entries@.len()
                &&& forall|i: int|
                    0 <= i < shown.len() ==> {
                        &&& (#[trigger] shown[i]).path == entries@[i].path@
                        &&& shown[i].mode == entries@[i].mode@
                        &&& shown[i].entry_type == entries@[i].entry_type@
                        &&& shown[i].sha == entries@[i].sha@
                    }
            },
            Body::Commit { message, tree, parents } => {
                &&& made@.body matches BodyView::Commit {
                    message: shown,
                    tree: shown_tree,
                    parents: shown_parents,
                }
                &&& shown == message@
                &&& shown_tree == tree@
                &&& shown_parents.len() == parents@.len()
                &&& forall|i: int|
                    0 <= i < shown_parents.len() ==> (#[trigger] shown_parents[i]) == parents@[i]@
            },
            Body::Reference { sha, force } => made@.body == (BodyView::Reference {
                sha: sha@,
                force,
            }),
        },
{
}

/// An error of a request is shown with its kind and all that is known of it.
pub proof fn law_request_errors_are_shown(error: GitHubError)
    ensures
        error@ == match error {
            GitHubError::Http(message) => GitHubErrorView::Http(message@),
            GitHubError::Io(message) => GitHubErrorView::Io(message@),
            GitHubError::Api { status, message } => GitHubErrorView::Api {
                status,
                message: message@,
            },
            GitHubError::Json(message) => GitHubErrorView::Json(message@),
        },
{
}

/// Pairs of a path and a blob are shown one by one, as they are.
pub proof fn law_entries_are_shown(entries: Seq<(String, String)>)
    ensures
        github_api::entry_views(entries).len() == entries.len(),
        forall|i: int|
            0 <= i < entries.len() ==> (#[trigger] github_api::entry_views(entries)[i]).path
                == entries[i].0@ && github_api::entry_views(entries)[i].sha == entries[i].1@,
{
}

// ---- Pushes --------------------------------------------------------------

/// Staged files are shown one by one, none left out, with their paths and contents.
pub proof fn law_staged_files_are_shown(files: Seq<StagedFile>)
    ensures
        upload::file_views(files).len() == files.len(),
        forall|i: int|
            0 <= i < files.len() ==> {
                &&& (#[trigger] upload::file_views(files)[i]).path == files[i].relative_path@
                &&& upload::file_views(files)[i].content == files[i].content@
            },
{
}

/// What a push waits for and what it is handed is shown as it is.
pub proof fn law_push_calls_are_shown(call: PushCall, reply: PushReply)
    ensures
        match call {
            PushCall::Send(made) => call@ == PushCallView::Send(made@),
            PushCall::Compose(file) => call@ matches PushCallView::Compose(shown) && shown.path
                == file.relative_path@ && shown.content == file.content@,
        },
        reply@ == match reply {
            PushReply::Sha(sha) => PushReplyView::Sha(sha@),
            PushReply::Done => PushReplyView::Done,
            PushReply::Message(message) => PushReplyView::Message(message@),
            PushReply::Failed(error) => PushReplyView::Failed(error@),
        },
{
}

/// Texts are shown one by one.
pub proof fn law_texts_are_shown(texts: Seq<String>)
    ensures
        text::text_views(texts).len() == texts.len(),
        forall|i: int|
            0 <= i < texts.len() ==> #[trigger] text::text_views(texts)[i] == texts[i]@,
{
}

// ---- Paths ---------------------------------------------------------------

/// Components are shown one by one, with their names and prefixes.
pub proof fn law_components_are_shown(components: Seq<Component>)
    ensures
        fs_path::part_views(components).len() == components.len(),
        forall|i: int|
            0 <= i < components.len() ==> (#[trigger] fs_path::part_views(components)[i]) == match
                components[i] {
                Component::Prefix { text, verbatim } => Part::Prefix { text: text@, verbatim },
                Component::RootDir => Part::Root,
                Component::CurDir => Part::Here,
                Component::ParentDir => Part::Up,
                Component::Normal(name) => Part::Name(name@),
            },
{
}

/// Paths and names are shown one by one.
pub proof fn law_paths_are_shown(paths: Seq<FsPath>, names: Seq<FileName>)
    ensures
        fs_sandbox::path_views(paths).len() == paths.len(),
        forall|i: int|
            0 <= i < paths.len() ==> #[trigger] fs_sandbox::path_views(paths)[i] == paths[i]@,
        fs_sandbox::name_views(names).len() == names.len(),
        forall|i: int|
            0 <= i < names.len() ==> #[trigger] fs_sandbox::name_views(names)[i] == names[i]@,
{
}

// ---- The sandbox ---------------------------------------------------------

/// A call on the file system is shown with its kind, its paths in order, and the
/// bytes that it writes.
pub proof fn law_calls_are_shown(call: FsCall)
    ensures
        call@ == match call {
            FsCall::Exists(p) => CallView::Exists(p@),
            FsCall::Canonicalize(p) => CallView::Canonicalize(p@),
            FsCall::ReadLink(p) => CallView::ReadLink(p@),
            FsCall::IsDir(p) => CallView::IsDir(p@),
            FsCall::Read(p) => CallView::Read(p@),
            FsCall::Write(p, bytes) => CallView::Write(p@, bytes@),
            FsCall::CreateDirAll(p) => CallView::CreateDirAll(p@),
            FsCall::RemoveDirAll(p) => CallView::RemoveDirAll(p@),
            FsCall::RemoveFile(p) => CallView::RemoveFile(p@),
            FsCall::Rename(from, to) => CallView::Rename(from@, to@),
            FsCall::ReadDir(p) => CallView::ReadDir(p@),
        },
{
}

/// An answer of the file system is shown with all that it says.
pub proof fn law_replies_are_shown(reply: FsReply)
    ensures
        match reply {
            FsReply::Flag(flag) => reply@ == ReplyView::Flag(flag),
            FsReply::Path(path) => reply@ == ReplyView::Path(path@),
            FsReply::Link(Some(target)) => reply@ == ReplyView::Link(Some(target@)),
            FsReply::Link(None) => reply@ == ReplyView::Link(None),
            FsReply::Bytes(bytes) => reply@ == ReplyView::Bytes(bytes@),
            FsReply::Names(names) => reply@ matches ReplyView::Names(shown) && shown.len()
                == names@.len() && forall|i: int|
                0 <= i < shown.len() ==> #[trigger] shown[i] == names@[i]@,
            FsReply::Done => reply@ == ReplyView::Done,
            FsReply::Failed(message) => reply@ == ReplyView::Failed(message@),
        },
{
}

/// What an operation gives is shown as it is: the path, the content, or every file.
pub proof fn law_outcomes_are_shown(outcome: Outcome, error: SandboxError)
    ensures
        match outcome {
            Outcome::Path(path) => outcome@ == OutcomeView::Path(path@),
            Outcome::Contents(bytes) => outcome@ == OutcomeView::Contents(bytes@),
            Outcome::Done => outcome@ == OutcomeView::Done,
            Outcome::Files(paths) => outcome@ matches OutcomeView::Files(shown) && shown.len()
                == paths@.len() && forall|i: int|
                0 <= i < shown.len() ==> #[trigger] shown[i] == paths@[i]@,
        },
        error@ == match error {
            SandboxError::PathEscape(path) => ErrorView::PathEscape(path@),
            SandboxError::Io(message) => ErrorView::Io(message@),
            SandboxError::NotYetCreated(path) => ErrorView::NotYetCreated(path@),
        },
        fs_sandbox::result_view(Ok(outcome)) == Ok::<OutcomeView, ErrorView>(outcome@),
        fs_sandbox::result_view(Err(error)) == Err::<OutcomeView, ErrorView>(error@),
{
}

} // verus!
