//! Pushing staged files to a branch, as one commit or as one commit per file.
//!
//! A push is a state machine: it names the next request to send (or the file to
//! compose a commit message for), and is handed the answer.

use crate::blob_content;
use crate::github_api;
use crate::github_api::{
    ApiRequest, ClientView, EntryView, GhResult, GitHubClient, GitHubError, GitHubErrorView, Method,
    RequestView,
};
use crate::text;
use vstd::prelude::*;

verus! {

/// One file staged for upload.
pub struct StagedFile {
    /// The path from the project root, e.g. `src/utils/helpers.ts`.
    pub relative_path: String,
    pub content: Vec<u8>,
}

/// The model of a staged file.
pub struct FileView {
    pub path: Seq<char>,
    pub content: Seq<u8>,
}

impl View for StagedFile {
    type V = FileView;

    open spec fn view(&self) -> FileView {
        FileView { path: self.relative_path@, content: self.content@ }
    }
}

/// The models of staged files.
pub open spec fn file_views(files: Seq<StagedFile>) -> Seq<FileView> {
    files.map_values(|f: StagedFile| f@)
}

/// Every file can be sent.
pub open spec fn sendable(files: Seq<FileView>) -> bool {
    forall|i: int|
        0 <= i < files.len() ==> blob_content::encodable((#[trigger] files[i]).content)
}

// ---- Calls and answers ---------------------------------------------------

/// What a push waits for.
pub enum PushCall<'a> {
    /// The answer to a request.
    Send(ApiRequest),
    /// The commit message for a file.
    Compose(&'a StagedFile),
}

/// The model of what a push waits for.
pub enum PushCallView {
    Send(RequestView),
    Compose(FileView),
}

impl<'a> View for PushCall<'a> {
    type V = PushCallView;

    open spec fn view(&self) -> PushCallView {
        match self {
            PushCall::Send(request) => PushCallView::Send(request@),
            PushCall::Compose(file) => PushCallView::Compose(file@),
        }
    }
}

/// What a push is handed.
pub enum PushReply {
    /// The SHA that the answer names.
    Sha(String),
    /// The branch was moved.
    Done,
    /// The commit message.
    Message(String),
    /// The request came to nothing.
    Failed(GitHubError),
}

/// The model of what a push is handed.
pub enum PushReplyView {
    Sha(Seq<char>),
    Done,
    Message(Seq<char>),
    Failed(GitHubErrorView),
}

impl View for PushReply {
    type V = PushReplyView;

    open spec fn view(&self) -> PushReplyView {
        match self {
            PushReply::Sha(sha) => PushReplyView::Sha(sha@),
            PushReply::Done => PushReplyView::Done,
            PushReply::Message(message) => PushReplyView::Message(message@),
            PushReply::Failed(error) => PushReplyView::Failed(error@),
        }
    }
}

/// The answer is one to the call: moving a branch is done or fails, any other
/// request gives a SHA or fails.
pub open spec fn answers(reply: PushReplyView, call: PushCallView) -> bool {
    match call {
        PushCallView::Send(request) => reply is Failed || if request.method == Method::Patch {
            reply is Done
        } else {
            reply is Sha
        },
        PushCallView::Compose(_) => reply is Message,
    }
}

// ---- One commit for all files --------------------------------------------

/// Where a bulk commit stands.
enum BulkStage {
    Head,
    Blobs { parent: String, entries: Vec<(String, String)> },
    Tree { parent: String, entries: Vec<(String, String)> },
    Commit { parent: String, tree: String },
    Reference { commit: String },
    Finished(GhResult<String>),
}

/// The model of a stage of a bulk commit.
pub enum BulkStageView {
    /// Asking for the commit that the branch points to.
    Head,
    /// Making the blob of the file behind those that have entries.
    Blobs { parent: Seq<char>, entries: Seq<EntryView> },
    /// Making the one tree.
    Tree { parent: Seq<char>, entries: Seq<EntryView> },
    /// Making the commit.
    Commit { parent: Seq<char>, tree: Seq<char> },
    /// Moving the branch.
    Reference { commit: Seq<char> },
    /// The commit, or why there is none.
    Finished(Result<Seq<char>, GitHubErrorView>),
}

impl View for BulkStage {
    type V = BulkStageView;

    closed spec fn view(&self) -> BulkStageView {
        match self {
            BulkStage::Head => BulkStageView::Head,
            BulkStage::Blobs { parent, entries } => BulkStageView::Blobs {
                parent: parent@,
                entries: github_api::entry_views(entries@),
            },
            BulkStage::Tree { parent, entries } => BulkStageView::Tree {
                parent: parent@,
                entries: github_api::entry_views(entries@),
            },
            BulkStage::Commit { parent, tree } => BulkStageView::Commit {
                parent: parent@,
                tree: tree@,
            },
            BulkStage::Reference { commit } => BulkStageView::Reference { commit: commit@ },
            BulkStage::Finished(Ok(commit)) => BulkStageView::Finished(Ok(commit@)),
            BulkStage::Finished(Err(error)) => BulkStageView::Finished(Err(error@)),
        }
    }
}

/// A bulk commit that is under way.
pub struct BulkCommit<'a> {
    client: &'a GitHubClient,
    branch: &'a str,
    files: &'a [StagedFile],
    message: &'a str,
    stage: BulkStage,
}

/// The model of a bulk commit.
pub struct BulkView {
    pub client: ClientView,
    pub branch: Seq<char>,
    pub files: Seq<FileView>,
    pub message: Seq<char>,
    pub stage: BulkStageView,
}

impl<'a> View for BulkCommit<'a> {
    type V = BulkView;

    closed spec fn view(&self) -> BulkView {
        BulkView {
            client: self.client@,
            branch: self.branch@,
            files: file_views(self.files@),
            message: self.message@,
            stage: self.stage@,
        }
    }
}

impl BulkView {
    /// What the commit waits for.
    pub open spec fn call(self) -> Option<PushCallView> {
        match self.stage {
            BulkStageView::Head => Some(
                PushCallView::Send(github_api::head_request(self.client, self.branch)),
            ),
            BulkStageView::Blobs { entries, .. } => Some(
                PushCallView::Send(
                    github_api::new_blob_request(
                        self.client,
                        self.files[entries.len() as int].content,
                    ),
                ),
            ),
            BulkStageView::Tree { entries, .. } => Some(
                PushCallView::Send(github_api::new_tree_request(self.client, entries, None)),
            ),
            BulkStageView::Commit { parent, tree } => Some(
                PushCallView::Send(
                    github_api::new_commit_request(self.client, self.message, tree, parent),
                ),
            ),
            BulkStageView::Reference { commit } => Some(
                PushCallView::Send(github_api::update_request(self.client, self.branch, commit)),
            ),
            BulkStageView::Finished(_) => None,
        }
    }

    /// Goes on with the blobs, or with the tree once all are made.
    pub open spec fn staged(self, parent: Seq<char>, entries: Seq<EntryView>) -> BulkStageView {
        if entries.len() < self.files.len() {
            BulkStageView::Blobs { parent, entries }
        } else {
            BulkStageView::Tree { parent, entries }
        }
    }

    /// The stage after an answer.
    pub open spec fn next(self, reply: PushReplyView) -> BulkStageView {
        match (self.stage, reply) {
            (BulkStageView::Finished(_), _) => self.stage,
            (_, PushReplyView::Failed(error)) => BulkStageView::Finished(Err(error)),
            (BulkStageView::Head, PushReplyView::Sha(parent)) => self.staged(parent, seq![]),
            (BulkStageView::Blobs { parent, entries }, PushReplyView::Sha(sha)) => self.staged(
                parent,
                entries.push(EntryView { path: self.files[entries.len() as int].path, sha }),
            ),
            (BulkStageView::Tree { parent, .. }, PushReplyView::Sha(tree)) => {
                BulkStageView::Commit { parent, tree }
            },
            (BulkStageView::Commit { .. }, PushReplyView::Sha(commit)) => {
                BulkStageView::Reference { commit }
            },
            (BulkStageView::Reference { commit }, PushReplyView::Done) => BulkStageView::Finished(
                Ok(commit),
            ),
            _ => self.stage,
        }
    }

    /// After an answer.
    pub open spec fn step(self, reply: PushReplyView) -> BulkView {
        BulkView { stage: self.next(reply), ..self }
    }

    /// The files can be sent, and a blob is only made where a file is left.
    pub open spec fn well_formed(self) -> bool {
        &&& sendable(self.files)
        &&& self.stage matches BulkStageView::Blobs { entries, .. } ==> entries.len()
            < self.files.len()
    }
}

impl<'a> BulkCommit<'a> {
    /// The commit is in order.
    #[verifier::type_invariant]
    pub open spec fn well_formed(self) -> bool {
        self@.well_formed()
    }

    /// What the commit waits for; nothing when it is finished.
    pub fn call(&self) -> (call: Option<PushCall<'a>>)
        ensures
            match call {
                Some(c) => self@.call() == Some(c@),
                None => self@.call() is None,
            },
    {
        proof {
            use_type_invariant(self);
        }
        match &self.stage {
            BulkStage::Head => Some(PushCall::Send(self.client.get_branch_head_sha(self.branch))),
            BulkStage::Blobs { entries, .. } => {
                let file = &self.files[entries.len()];
                assert(file@ == self@.files[entries@.len() as int]);
                Some(PushCall::Send(self.client.create_blob(file.content.as_slice())))
            },
            BulkStage::Tree { entries, .. } => Some(
                PushCall::Send(self.client.create_tree(entries.as_slice(), None)),
            ),
            BulkStage::Commit { parent, tree } => Some(
                PushCall::Send(
                    self.client.create_commit(self.message, tree.as_str(), parent.as_str()),
                ),
            ),
            BulkStage::Reference { commit } => Some(
                PushCall::Send(self.client.update_branch_ref(self.branch, commit.as_str())),
            ),
            BulkStage::Finished(_) => None,
        }
    }

    /// Goes on with the answer to what the commit waits for.
    pub fn advance(self, reply: PushReply) -> (next: BulkCommit<'a>)
        requires
            self@.call() matches Some(call) && answers(reply@, call),
        ensures
            next@ == self@.step(reply@),
    {
        proof {
            use_type_invariant(&self);
        }
        let ghost before = self@;
        let ghost handed = reply@;
        let count: usize = self.files.len();
        let stage = match (self.stage, reply) {
            (BulkStage::Finished(result), _) => BulkStage::Finished(result),
            (_, PushReply::Failed(error)) => BulkStage::Finished(Err(error)),
            (BulkStage::Head, PushReply::Sha(parent)) => {
                let entries: Vec<(String, String)> = Vec::new();
                assert(github_api::entry_views(entries@) =~= Seq::<EntryView>::empty());
                if count > 0 {
                    BulkStage::Blobs { parent, entries }
                } else {
                    BulkStage::Tree { parent, entries }
                }
            },
            (BulkStage::Blobs { parent, entries }, PushReply::Sha(sha)) => {
                let mut entries = entries;
                let ghost held = entries@;
                let file = &self.files[entries.len()];
                assert(file@ == before.files[held.len() as int]);
                let entry = (file.relative_path.clone(), sha);
                entries.push(entry);
                assert(github_api::entry_views(entries@) =~= github_api::entry_views(held).push(
                    EntryView { path: file@.path, sha: sha@ },
                ));
                if entries.len() < count {
                    BulkStage::Blobs { parent, entries }
                } else {
                    BulkStage::Tree { parent, entries }
                }
            },
            (BulkStage::Tree { parent, .. }, PushReply::Sha(tree)) => BulkStage::Commit {
                parent,
                tree,
            },
            (BulkStage::Commit { .. }, PushReply::Sha(commit)) => BulkStage::Reference { commit },
            (BulkStage::Reference { commit }, PushReply::Done) => BulkStage::Finished(Ok(commit)),
            (stage, _) => stage,
        };
        assert(stage@ == before.next(handed));
        BulkCommit {
            client: self.client,
            branch: self.branch,
            files: self.files,
            message: self.message,
            stage,
        }
    }

    /// The commit, or why there is none, when it is finished; else the commit
    /// under way.
    pub fn finish(self) -> (result: Result<GhResult<String>, BulkCommit<'a>>)
        ensures
            match result {
                Ok(Ok(commit)) => self@.stage == BulkStageView::Finished(Ok(commit@)),
                Ok(Err(error)) => self@.stage == BulkStageView::Finished(Err(error@)),
                Err(push) => push@ == self@ && !(self@.stage is Finished),
            },
    {
        proof {
            use_type_invariant(&self);
        }
        match self.stage {
            BulkStage::Finished(result) => Ok(result),
            stage => Err(
                BulkCommit {
                    client: self.client,
                    branch: self.branch,
                    files: self.files,
                    message: self.message,
                    stage,
                },
            ),
        }
    }
}

impl GitHubClient {
    /// Commits all files at once: each becomes a blob, one tree holds their full
    /// relative paths, one commit holds the tree, and the branch is moved once.
    /// The tree is made without a base tree.
    pub fn bulk_commit<'a>(
        &'a self,
        branch: &'a str,
        files: &'a [StagedFile],
        commit_message: &'a str,
    ) -> (push: BulkCommit<'a>)
        requires
            sendable(file_views(files@)),
        ensures
            push@ == (BulkView {
                client: self@,
                branch: branch@,
                files: file_views(files@),
                message: commit_message@,
                stage: BulkStageView::Head,
            }),
    {
        BulkCommit { client: self, branch, files, message: commit_message, stage: BulkStage::Head }
    }
}

// ---- One commit per file -------------------------------------------------

/// Where a series of commits stands. The file at hand is the one behind those
/// that have commits.
enum MultiStage {
    Head,
    Blob { parent: String, base: Option<String>, commits: Vec<String> },
    Tree { parent: String, base: Option<String>, commits: Vec<String>, blob: String },
    Compose { parent: String, commits: Vec<String>, tree: String },
    Commit { parent: String, commits: Vec<String>, tree: String, message: String },
    Reference { commits: Vec<String>, tree: String, commit: String },
    Finished(GhResult<Vec<String>>),
}

/// The model of a stage of a series of commits.
pub enum MultiStageView {
    /// Asking for the commit that the branch points to.
    Head,
    /// Making the blob of the file.
    Blob { parent: Seq<char>, base: Option<Seq<char>>, commits: Seq<Seq<char>> },
    /// Making a tree with the file, on top of that of the commit before.
    Tree {
        parent: Seq<char>,
        base: Option<Seq<char>>,
        commits: Seq<Seq<char>>,
        blob: Seq<char>,
    },
    /// Waiting for the commit message.
    Compose { parent: Seq<char>, commits: Seq<Seq<char>>, tree: Seq<char> },
    /// Making the commit.
    Commit {
        parent: Seq<char>,
        commits: Seq<Seq<char>>,
        tree: Seq<char>,
        message: Seq<char>,
    },
    /// Moving the branch.
    Reference { commits: Seq<Seq<char>>, tree: Seq<char>, commit: Seq<char> },
    /// The commits, or why they were not all made.
    Finished(Result<Seq<Seq<char>>, GitHubErrorView>),
}

impl View for MultiStage {
    type V = MultiStageView;

    closed spec fn view(&self) -> MultiStageView {
        match self {
            MultiStage::Head => MultiStageView::Head,
            MultiStage::Blob { parent, base, commits } => MultiStageView::Blob {
                parent: parent@,
                base: github_api::option_view(*base),
                commits: text::text_views(commits@),
            },
            MultiStage::Tree { parent, base, commits, blob } => MultiStageView::Tree {
                parent: parent@,
                base: github_api::option_view(*base),
                commits: text::text_views(commits@),
                blob: blob@,
            },
            MultiStage::Compose { parent, commits, tree } => MultiStageView::Compose {
                parent: parent@,
                commits: text::text_views(commits@),
                tree: tree@,
            },
            MultiStage::Commit { parent, commits, tree, message } => MultiStageView::Commit {
                parent: parent@,
                commits: text::text_views(commits@),
                tree: tree@,
                message: message@,
            },
            MultiStage::Reference { commits, tree, commit } => MultiStageView::Reference {
                commits: text::text_views(commits@),
                tree: tree@,
                commit: commit@,
            },
            MultiStage::Finished(Ok(commits)) => MultiStageView::Finished(
                Ok(text::text_views(commits@)),
            ),
            MultiStage::Finished(Err(error)) => MultiStageView::Finished(Err(error@)),
        }
    }
}

/// A series of commits that is under way.
pub struct MultiCommit<'a> {
    client: &'a GitHubClient,
    branch: &'a str,
    files: &'a [StagedFile],
    stage: MultiStage,
}

/// The model of a series of commits.
pub struct MultiView {
    pub client: ClientView,
    pub branch: Seq<char>,
    pub files: Seq<FileView>,
    pub stage: MultiStageView,
}

impl<'a> View for MultiCommit<'a> {
    type V = MultiView;

    closed spec fn view(&self) -> MultiView {
        MultiView {
            client: self.client@,
            branch: self.branch@,
            files: file_views(self.files@),
            stage: self.stage@,
        }
    }
}

impl MultiView {
    /// The entry of a file in its tree.
    pub open spec fn entry(self, i: nat, blob: Seq<char>) -> EntryView {
        EntryView { path: self.files[i as int].path, sha: blob }
    }

    /// What the series waits for.
    pub open spec fn call(self) -> Option<PushCallView> {
        match self.stage {
            MultiStageView::Head => Some(
                PushCallView::Send(github_api::head_request(self.client, self.branch)),
            ),
            MultiStageView::Blob { commits, .. } => Some(
                PushCallView::Send(
                    github_api::new_blob_request(
                        self.client,
                        self.files[commits.len() as int].content,
                    ),
                ),
            ),
            MultiStageView::Tree { base, commits, blob, .. } => Some(
                PushCallView::Send(
                    github_api::new_tree_request(
                        self.client,
                        seq![self.entry(commits.len(), blob)],
                        base,
                    ),
                ),
            ),
            MultiStageView::Compose { commits, .. } => Some(
                PushCallView::Compose(self.files[commits.len() as int]),
            ),
            MultiStageView::Commit { parent, tree, message, .. } => Some(
                PushCallView::Send(
                    github_api::new_commit_request(self.client, message, tree, parent),
                ),
            ),
            MultiStageView::Reference { commit, .. } => Some(
                PushCallView::Send(github_api::update_request(self.client, self.branch, commit)),
            ),
            MultiStageView::Finished(_) => None,
        }
    }

    /// Goes on with the next file, where one is left.
    pub open spec fn next_file(
        self,
        parent: Seq<char>,
        base: Option<Seq<char>>,
        commits: Seq<Seq<char>>,
    ) -> MultiStageView {
        if commits.len() < self.files.len() {
            MultiStageView::Blob { parent, base, commits }
        } else {
            MultiStageView::Finished(Ok(commits))
        }
    }

    /// The stage after an answer.
    pub open spec fn next(self, reply: PushReplyView) -> MultiStageView {
        match (self.stage, reply) {
            (MultiStageView::Finished(_), _) => self.stage,
            (_, PushReplyView::Failed(error)) => MultiStageView::Finished(Err(error)),
            (MultiStageView::Head, PushReplyView::Sha(parent)) => self.next_file(
                parent,
                None,
                seq![],
            ),
            (MultiStageView::Blob { parent, base, commits }, PushReplyView::Sha(blob)) => {
                MultiStageView::Tree { parent, base, commits, blob }
            },
            (MultiStageView::Tree { parent, commits, .. }, PushReplyView::Sha(tree)) => {
                MultiStageView::Compose { parent, commits, tree }
            },
            (
                MultiStageView::Compose { parent, commits, tree },
                PushReplyView::Message(message),
            ) => MultiStageView::Commit { parent, commits, tree, message },
            (MultiStageView::Commit { commits, tree, .. }, PushReplyView::Sha(commit)) => {
                MultiStageView::Reference { commits, tree, commit }
            },
            (MultiStageView::Reference { commits, tree, commit }, PushReplyView::Done) => {
                self.next_file(commit, Some(tree), commits.push(commit))
            },
            _ => self.stage,
        }
    }

    /// After an answer.
    pub open spec fn step(self, reply: PushReplyView) -> MultiView {
        MultiView { stage: self.next(reply), ..self }
    }

    /// The commits that are made.
    pub open spec fn commits(self) -> Seq<Seq<char>> {
        match self.stage {
            MultiStageView::Head => seq![],
            MultiStageView::Blob { commits, .. } => commits,
            MultiStageView::Tree { commits, .. } => commits,
            MultiStageView::Compose { commits, .. } => commits,
            MultiStageView::Commit { commits, .. } => commits,
            MultiStageView::Reference { commits, .. } => commits,
            MultiStageView::Finished(Ok(commits)) => commits,
            MultiStageView::Finished(Err(_)) => seq![],
        }
    }

    /// The files can be sent, and a file is at hand but at the start and the end.
    pub open spec fn well_formed(self) -> bool {
        &&& sendable(self.files)
        &&& self.stage is Head || self.stage is Finished || self.commits().len() < self.files.len()
    }
}

impl<'a> MultiCommit<'a> {
    /// The series is in order.
    #[verifier::type_invariant]
    pub open spec fn well_formed(self) -> bool {
        self@.well_formed()
    }

    /// What the series waits for; nothing when it is finished.
    pub fn call(&self) -> (call: Option<PushCall<'a>>)
        ensures
            match call {
                Some(c) => self@.call() == Some(c@),
                None => self@.call() is None,
            },
    {
        proof {
            use_type_invariant(self);
        }
        match &self.stage {
            MultiStage::Head => Some(PushCall::Send(self.client.get_branch_head_sha(self.branch))),
            MultiStage::Blob { commits, .. } => {
                let file = &self.files[commits.len()];
                assert(file@ == self@.files[commits@.len() as int]);
                Some(PushCall::Send(self.client.create_blob(file.content.as_slice())))
            },
            MultiStage::Tree { base, commits, blob, .. } => {
                let file = &self.files[commits.len()];
                assert(file@ == self@.files[commits@.len() as int]);
                let mut entries: Vec<(String, String)> = Vec::new();
                entries.push((file.relative_path.clone(), blob.clone()));
                assert(github_api::entry_views(entries@) =~= seq![
                    self@.entry(commits@.len(), blob@),
                ]);
                let base_tree = match base {
                    Some(sha) => Some(sha.as_str()),
                    None => None,
                };
                Some(PushCall::Send(self.client.create_tree(entries.as_slice(), base_tree)))
            },
            MultiStage::Compose { commits, .. } => {
                let file = &self.files[commits.len()];
                assert(file@ == self@.files[commits@.len() as int]);
                Some(PushCall::Compose(file))
            },
            MultiStage::Commit { parent, tree, message, .. } => Some(
                PushCall::Send(
                    self.client.create_commit(message.as_str(), tree.as_str(), parent.as_str()),
                ),
            ),
            MultiStage::Reference { commit, .. } => Some(
                PushCall::Send(self.client.update_branch_ref(self.branch, commit.as_str())),
            ),
            MultiStage::Finished(_) => None,
        }
    }

    /// Goes on with the answer to what the series waits for.
    pub fn advance(self, reply: PushReply) -> (next: MultiCommit<'a>)
        requires
            self@.call() matches Some(call) && answers(reply@, call),
        ensures
            next@ == self@.step(reply@),
    {
        proof {
            use_type_invariant(&self);
        }
        let ghost before = self@;
        let ghost handed = reply@;
        let count: usize = self.files.len();
        let stage = match (self.stage, reply) {
            (MultiStage::Finished(result), _) => MultiStage::Finished(result),
            (_, PushReply::Failed(error)) => MultiStage::Finished(Err(error)),
            (MultiStage::Head, PushReply::Sha(parent)) => {
                let commits: Vec<String> = Vec::new();
                assert(text::text_views(commits@) =~= Seq::<Seq<char>>::empty());
                if count > 0 {
                    MultiStage::Blob { parent, base: None, commits }
                } else {
                    MultiStage::Finished(Ok(commits))
                }
            },
            (MultiStage::Blob { parent, base, commits }, PushReply::Sha(blob)) => {
                MultiStage::Tree { parent, base, commits, blob }
            },
            (MultiStage::Tree { parent, commits, .. }, PushReply::Sha(tree)) => {
                MultiStage::Compose { parent, commits, tree }
            },
            (MultiStage::Compose { parent, commits, tree }, PushReply::Message(message)) => {
                MultiStage::Commit { parent, commits, tree, message }
            },
            (MultiStage::Commit { commits, tree, .. }, PushReply::Sha(commit)) => {
                MultiStage::Reference { commits, tree, commit }
            },
            (MultiStage::Reference { commits, tree, commit }, PushReply::Done) => {
                let mut commits = commits;
                let ghost held = commits@;
                let made = commit.clone();
                commits.push(made);
                assert(text::text_views(commits@) =~= text::text_views(held).push(
                    commit@,
                ));
                if commits.len() < count {
                    MultiStage::Blob { parent: commit, base: Some(tree), commits }
                } else {
                    MultiStage::Finished(Ok(commits))
                }
            },
            (stage, _) => stage,
        };
        assert(stage@ == before.next(handed));
        MultiCommit { client: self.client, branch: self.branch, files: self.files, stage }
    }

    /// The commits, or why they were not all made, when the series is finished;
    /// else the series under way.
    pub fn finish(self) -> (result: Result<GhResult<Vec<String>>, MultiCommit<'a>>)
        ensures
            match result {
                Ok(Ok(commits)) => self@.stage == MultiStageView::Finished(
                    Ok(text::text_views(commits@)),
                ),
                Ok(Err(error)) => self@.stage == MultiStageView::Finished(Err(error@)),
                Err(push) => push@ == self@ && !(self@.stage is Finished),
            },
    {
        proof {
            use_type_invariant(&self);
        }
        match self.stage {
            MultiStage::Finished(result) => Ok(result),
            stage => Err(
                MultiCommit {
                    client: self.client,
                    branch: self.branch,
                    files: self.files,
                    stage,
                },
            ),
        }
    }
}

impl GitHubClient {
    /// Commits the files one by one, each commit on top of the one before: its
    /// parent is the commit before, and its tree extends that commit's tree. The
    /// first has the head of the branch as its parent, and a tree of its own.
    /// Slower, but with a history of each file.
    pub fn multi_commit<'a>(&'a self, branch: &'a str, files: &'a [StagedFile]) -> (push:
        MultiCommit<'a>)
        requires
            sendable(file_views(files@)),
        ensures
            push@ == (MultiView {
                client: self@,
                branch: branch@,
                files: file_views(files@),
                stage: MultiStageView::Head,
            }),
    {
        MultiCommit { client: self, branch, files, stage: MultiStage::Head }
    }
}

} // verus!
