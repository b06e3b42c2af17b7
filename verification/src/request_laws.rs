//! What the requests to GitHub carry, field by field, and what its answers and
//! refusals are read as.

use crate::blob_content;
use crate::github_api;
use crate::github_api::{
    BodyView, ClientView, EntryView, GitHubErrorView, HeaderView, HttpFailure, Method, RequestView,
    TreeEntry,
};
use crate::text_laws;
use crate::upload;
use crate::upload::{
    BulkStageView, BulkView, FileView, MultiStageView, MultiView, PushCallView, PushReplyView,
};
use vstd::prelude::*;

verus! {

// ---- Requests ------------------------------------------------------------

/// The headers ask for the JSON of the API and name this program; the token is sent
/// exactly where there is one, as it is.
pub open spec fn has_headers(headers: Seq<HeaderView>, token: Option<Seq<char>>) -> bool {
    &&& headers.len() == if token is Some {
        3
    } else {
        2nat
    }
    &&& headers[0].name == "Accept"@
    &&& headers[0].value == "application/vnd.github+json"@
    &&& headers[1].name == "User-Agent"@
    &&& headers[1].value == "CodeForge"@
    &&& token matches Some(t) ==> headers[2].name == "Authorization"@ && headers[2].value
        == "Bearer "@ + t
}

/// The request goes to a path of the repository of the client.
pub open spec fn goes_to(request: RequestView, client: ClientView, path: Seq<char>) -> bool {
    &&& request.url == "https://api.github.com/repos/"@ + client.owner + "/"@ + client.repo + path
    &&& has_headers(request.headers, client.token)
}

/// Questions are asked of the branch, the tree and the blob that are named, and
/// carry nothing; a tree is asked for with all that is below it.
pub proof fn law_questions(client: ClientView, name: Seq<char>)
    ensures
        ({
            let head = github_api::head_request(client, name);
            let tree = github_api::tree_request(client, name);
            let blob = github_api::blob_request(client, name);
            &&& goes_to(head, client, "/git/ref/heads/"@ + name)
            &&& goes_to(tree, client, "/git/trees/"@ + name + "?recursive=1"@)
            &&& goes_to(blob, client, "/git/blobs/"@ + name)
            &&& head.method == Method::Get && head.body == BodyView::Empty
            &&& tree.method == Method::Get && tree.body == BodyView::Empty
            &&& blob.method == Method::Get && blob.body == BodyView::Empty
        }),
{
}

/// A blob is sent whole, in base64.
pub proof fn law_new_blob_carries_the_content(client: ClientView, content: Seq<u8>)
    ensures
        ({
            let made = github_api::new_blob_request(client, content);
            &&& goes_to(made, client, "/git/blobs"@)
            &&& made.method == Method::Post
            &&& made.body == BodyView::Blob {
                content: blob_content::base64(content),
                encoding: "base64"@,
            }
        }),
{
}

/// A new tree has an entry for each pair, in order: its path and its blob as they
/// are given, as a regular file. The tree it is on top of is the one that is given.
pub proof fn law_new_tree_carries_the_entries(
    client: ClientView,
    entries: Seq<EntryView>,
    base: Option<Seq<char>>,
)
    ensures
        ({
            let made = github_api::new_tree_request(client, entries, base);
            &&& goes_to(made, client, "/git/trees"@)
            &&& made.method == Method::Post
            &&& made.body matches BodyView::Tree { entries: sent, base_tree }
            &&& base_tree == base
            &&& sent.len() == entries.len()
            &&& forall|i: int|
                0 <= i < entries.len() ==> {
                    &&& (#[trigger] sent[i]).path == entries[i].path
                    &&& sent[i].sha == entries[i].sha
                    &&& sent[i].mode == "100644"@
                    &&& sent[i].entry_type == "blob"@
                }
        }),
{
}

/// A new commit carries the message as it is given, the tree, and the one parent.
pub proof fn law_new_commit_carries_the_message(
    client: ClientView,
    message: Seq<char>,
    tree: Seq<char>,
    parent: Seq<char>,
)
    ensures
        ({
            let made = github_api::new_commit_request(client, message, tree, parent);
            &&& goes_to(made, client, "/git/commits"@)
            &&& made.method == Method::Post
            &&& made.body matches BodyView::Commit { message: sent, tree: of, parents }
            &&& sent == message
            &&& of == tree
            &&& parents.len() == 1
            &&& parents[0] == parent
        }),
{
}

/// A branch is moved to the commit that is given, and not by force.
pub proof fn law_branch_is_moved_without_force(
    client: ClientView,
    branch: Seq<char>,
    commit: Seq<char>,
)
    ensures
        ({
            let made = github_api::update_request(client, branch, commit);
            &&& goes_to(made, client, "/git/refs/heads/"@ + branch)
            &&& made.method == Method::Patch
            &&& made.body == BodyView::Reference { sha: commit, force: false }
        }),
{
}

// ---- Pushes --------------------------------------------------------------

/// What a bulk commit sends at each stage: the content of the file behind those
/// that have blobs, the entries as they were gathered and on top of no tree, the
/// message as it was given with the head of the branch as the parent, and the new
/// commit as the place of the branch.
pub proof fn law_bulk_commit_sends(bulk: BulkView)
    ensures
        match bulk.stage {
            BulkStageView::Head => bulk.call() matches Some(PushCallView::Send(made))
                && goes_to(made, bulk.client, "/git/ref/heads/"@ + bulk.branch),
            BulkStageView::Blobs { entries, .. } => bulk.call() matches Some(
                PushCallView::Send(made),
            ) && made.body == (BodyView::Blob {
                content: blob_content::base64(bulk.files[entries.len() as int].content),
                encoding: "base64"@,
            }),
            BulkStageView::Tree { entries, .. } => bulk.call() matches Some(
                PushCallView::Send(made),
            ) && made.body matches BodyView::Tree { entries: sent, base_tree } && base_tree is None
                && sent.len() == entries.len() && forall|i: int|
                0 <= i < sent.len() ==> (#[trigger] sent[i]).path == entries[i].path && sent[i].sha
                    == entries[i].sha,
            BulkStageView::Commit { parent, tree } => bulk.call() matches Some(
                PushCallView::Send(made),
            ) && made.body == (BodyView::Commit {
                message: bulk.message,
                tree,
                parents: seq![parent],
            }),
            BulkStageView::Reference { commit } => bulk.call() matches Some(
                PushCallView::Send(made),
            ) && made.body == (BodyView::Reference { sha: commit, force: false }) && goes_to(
                made,
                bulk.client,
                "/git/refs/heads/"@ + bulk.branch,
            ),
            BulkStageView::Finished(_) => bulk.call() is None,
        },
{
}

/// What a series of commits sends for the file at hand, which is the one behind
/// those that have commits: its content, its path with its blob on top of the tree
/// before, the message that was composed for it as it is, and the new commit as the
/// place of the branch.
pub proof fn law_multi_commit_sends(multi: MultiView)
    ensures
        match multi.stage {
            MultiStageView::Head => multi.call() matches Some(PushCallView::Send(made))
                && goes_to(made, multi.client, "/git/ref/heads/"@ + multi.branch),
            MultiStageView::Blob { commits, .. } => multi.call() matches Some(
                PushCallView::Send(made),
            ) && made.body == (BodyView::Blob {
                content: blob_content::base64(multi.files[commits.len() as int].content),
                encoding: "base64"@,
            }),
            MultiStageView::Tree { base, commits, blob, .. } => multi.call() matches Some(
                PushCallView::Send(made),
            ) && made.body matches BodyView::Tree { entries, base_tree } && base_tree == base
                && entries.len() == 1 && entries[0].path
                == multi.files[commits.len() as int].path && entries[0].sha == blob,
            MultiStageView::Compose { commits, .. } => multi.call() == Some(
                PushCallView::Compose(multi.files[commits.len() as int]),
            ),
            MultiStageView::Commit { parent, tree, message, .. } => multi.call() matches Some(
                PushCallView::Send(made),
            ) && made.body == (BodyView::Commit { message, tree, parents: seq![parent] }),
            MultiStageView::Reference { commit, .. } => multi.call() matches Some(
                PushCallView::Send(made),
            ) && made.body == (BodyView::Reference { sha: commit, force: false }) && goes_to(
                made,
                multi.client,
                "/git/refs/heads/"@ + multi.branch,
            ),
            MultiStageView::Finished(_) => multi.call() is None,
        },
{
}

/// Files of up to a thousand million bytes can be sent.
pub proof fn law_ordinary_files_can_be_sent(files: Seq<FileView>)
    requires
        forall|i: int| 0 <= i < files.len() ==> (#[trigger] files[i]).content.len() <= 1000000000,
    ensures
        upload::sendable(files),
{
    assert forall|i: int| 0 <= i < files.len() implies blob_content::encodable(
        (#[trigger] files[i]).content,
    ) by {
        assert(files[i].content.len() <= 1000000000);
    }
}

// ---- Answers -------------------------------------------------------------

/// Which answers fit what a push waits for: a request may fail; else one that moves
/// a branch is done, and any other names a SHA. A message is always composed.
pub proof fn law_answers_fit_what_is_waited_for(
    made: RequestView,
    file: FileView,
    reply: PushReplyView,
)
    ensures
        upload::answers(reply, PushCallView::Send(made)) <==> reply is Failed || (if made.method
            == Method::Patch {
            reply is Done
        } else {
            reply is Sha
        }),
        upload::answers(reply, PushCallView::Compose(file)) <==> reply is Message,
{
}

/// The files of a tree are its entries of the type `blob`.
pub proof fn law_files_are_blobs(entry: TreeEntry)
    ensures
        github_api::is_blob(entry) <==> entry.entry_type@ == "blob"@,
{
}

/// An answer with an error status is an error of the API, with that status and the
/// body as it was sent, or no message where there is none; no answer is an error of
/// the transport, with what it says.
pub proof fn law_failures_are_told_apart(failure: HttpFailure)
    ensures
        match failure {
            HttpFailure::Status(code, body) => github_api::failure_error(failure)
                == (GitHubErrorView::Api {
                status: code,
                message: match body {
                    Some(sent) => sent@,
                    None => Seq::<char>::empty(),
                },
            }),
            HttpFailure::Transport(said) => github_api::failure_error(failure)
                == GitHubErrorView::Http(said@),
        },
{
}

/// An error says what kind it is and then what is known of it; an error of the API
/// names the status in decimal.
pub proof fn law_errors_say_their_cause(status: u16, cause: Seq<char>)
    ensures
        github_api::error_message(GitHubErrorView::Http(cause)) == "http error: "@ + cause,
        github_api::error_message(GitHubErrorView::Io(cause)) == "io error reading response: "@
            + cause,
        github_api::error_message(GitHubErrorView::Json(cause)) == "json error: "@ + cause,
        exists|number: Seq<char>| #[trigger]
            text_laws::is_number(number, status as int) && github_api::error_message(
                GitHubErrorView::Api { status, message: cause },
            ) == "github api error ("@ + number + "): "@ + cause,
{
    text_laws::law_decimal_is_read_back(status as nat);
}

} // verus!
