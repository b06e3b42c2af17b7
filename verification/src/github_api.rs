//! The GitHub API as this program uses it: the Git Data API (blob, tree, commit,
//! reference), in which the entries of a tree carry full relative paths, so that
//! a whole project is pushed with its folders in one atomic commit.
//!
//! Nothing here talks to the network. The client builds requests; whoever sends
//! them hands the parsed answers back.

use crate::blob_content;
use crate::blob_content::BlobContent;
use crate::text;
use crate::text::{push_decimal, text_is};
use vstd::prelude::*;

pub use crate::blob_sha::compute_git_blob_sha;

verus! {

// ---- Errors --------------------------------------------------------------

/// Why a request came to nothing.
#[derive(Debug)]
pub enum GitHubError {
    /// The request could not be made.
    Http(String),
    /// The response could not be read.
    Io(String),
    /// GitHub refused the request.
    Api { status: u16, message: String },
    /// The response is not what was expected.
    Json(String),
}

pub type GhResult<T> = Result<T, GitHubError>;

/// The model of an error.
pub enum GitHubErrorView {
    Http(Seq<char>),
    Io(Seq<char>),
    Api { status: u16, message: Seq<char> },
    Json(Seq<char>),
}

impl View for GitHubError {
    type V = GitHubErrorView;

    open spec fn view(&self) -> GitHubErrorView {
        match self {
            GitHubError::Http(message) => GitHubErrorView::Http(message@),
            GitHubError::Io(message) => GitHubErrorView::Io(message@),
            GitHubError::Api { status, message } => GitHubErrorView::Api {
                status: *status,
                message: message@,
            },
            GitHubError::Json(message) => GitHubErrorView::Json(message@),
        }
    }
}

/// What an error says.
pub open spec fn error_message(error: GitHubErrorView) -> Seq<char> {
    match error {
        GitHubErrorView::Http(message) => "http error: "@ + message,
        GitHubErrorView::Io(message) => "io error reading response: "@ + message,
        GitHubErrorView::Api { status, message } => "github api error ("@ + text::decimal(
            status as nat,
        ) + "): "@ + message,
        GitHubErrorView::Json(message) => "json error: "@ + message,
    }
}

/// What became of a request that failed.
#[derive(Debug)]
pub enum HttpFailure {
    /// The server answered with an error status; the body, where it could be read.
    Status(u16, Option<String>),
    /// There was no answer; what the transport says.
    Transport(String),
}

/// The error that a failed request gives.
pub open spec fn failure_error(failure: HttpFailure) -> GitHubErrorView {
    match failure {
        HttpFailure::Status(status, Some(body)) => GitHubErrorView::Api { status, message: body@ },
        HttpFailure::Status(status, None) => GitHubErrorView::Api { status, message: seq![] },
        HttpFailure::Transport(message) => GitHubErrorView::Http(message@),
    }
}

impl GitHubError {
    /// The error that a failed request gives: an error status is an error of the
    /// API, with the body as its message, or no message where there is no body.
    pub fn from_failure(failure: HttpFailure) -> (error: GitHubError)
        ensures
            error@ == failure_error(failure),
    {
        match failure {
            HttpFailure::Status(status, Some(message)) => GitHubError::Api { status, message },
            HttpFailure::Status(status, None) => {
                let message = String::new();
                assert(message@ =~= seq![]);
                GitHubError::Api { status, message }
            },
            HttpFailure::Transport(message) => GitHubError::Http(message),
        }
    }

    /// What the error says.
    pub fn message(&self) -> (message: String)
        ensures
            message@ == error_message(self@),
    {
        match self {
            GitHubError::Http(cause) => {
                let mut message = "http error: ".to_owned();
                message.append(cause.as_str());
                message
            },
            GitHubError::Io(cause) => {
                let mut message = "io error reading response: ".to_owned();
                message.append(cause.as_str());
                message
            },
            GitHubError::Api { status, message: cause } => {
                let mut message = "github api error (".to_owned();
                push_decimal(&mut message, *status as u64);
                message.append("): ");
                message.append(cause.as_str());
                message
            },
            GitHubError::Json(cause) => {
                let mut message = "json error: ".to_owned();
                message.append(cause.as_str());
                message
            },
        }
    }
}

// ---- Requests ------------------------------------------------------------

/// The method of a request.
#[derive(Debug, Clone, Copy, PartialEq, Eq, Structural)]
pub enum Method {
    Get,
    Post,
    Patch,
}

/// A header of a request.
#[derive(Debug)]
pub struct Header {
    pub name: String,
    pub value: String,
}

/// The model of a header.
pub struct HeaderView {
    pub name: Seq<char>,
    pub value: Seq<char>,
}

impl View for Header {
    type V = HeaderView;

    open spec fn view(&self) -> HeaderView {
        HeaderView { name: self.name@, value: self.value@ }
    }
}

/// An entry of a tree to be made.
#[derive(Debug)]
pub struct NewTreeEntry {
    pub path: String,
    pub mode: String,
    pub entry_type: String,
    pub sha: String,
}

/// The model of an entry of a tree to be made.
pub struct NewTreeEntryView {
    pub path: Seq<char>,
    pub mode: Seq<char>,
    pub entry_type: Seq<char>,
    pub sha: Seq<char>,
}

impl View for NewTreeEntry {
    type V = NewTreeEntryView;

    open spec fn view(&self) -> NewTreeEntryView {
        NewTreeEntryView {
            path: self.path@,
            mode: self.mode@,
            entry_type: self.entry_type@,
            sha: self.sha@,
        }
    }
}

/// What a request carries.
#[derive(Debug)]
pub enum Body {
    Empty,
    Blob(BlobContent),
    Tree { entries: Vec<NewTreeEntry>, base_tree: Option<String> },
    Commit { message: String, tree: String, parents: Vec<String> },
    Reference { sha: String, force: bool },
}

/// The model of what a request carries.
pub enum BodyView {
    Empty,
    Blob { content: Seq<char>, encoding: Seq<char> },
    Tree { entries: Seq<NewTreeEntryView>, base_tree: Option<Seq<char>> },
    Commit { message: Seq<char>, tree: Seq<char>, parents: Seq<Seq<char>> },
    Reference { sha: Seq<char>, force: bool },
}

/// The model of an optional text.
pub open spec fn option_view(text: Option<String>) -> Option<Seq<char>> {
    match text {
        Some(t) => Some(t@),
        None => None,
    }
}

impl View for Body {
    type V = BodyView;

    open spec fn view(&self) -> BodyView {
        match self {
            Body::Empty => BodyView::Empty,
            Body::Blob(blob) => BodyView::Blob {
                content: blob.content@,
                encoding: blob.encoding@,
            },
            Body::Tree { entries, base_tree } => BodyView::Tree {
                entries: entries@.map_values(|e: NewTreeEntry| e@),
                base_tree: option_view(*base_tree),
            },
            Body::Commit { message, tree, parents } => BodyView::Commit {
                message: message@,
                tree: tree@,
                parents: text::text_views(parents@),
            },
            Body::Reference { sha, force } => BodyView::Reference { sha: sha@, force: *force },
        }
    }
}

/// A request to the API.
#[derive(Debug)]
pub struct ApiRequest {
    pub method: Method,
    pub url: String,
    pub headers: Vec<Header>,
    pub body: Body,
}

/// The model of a request.
pub struct RequestView {
    pub method: Method,
    pub url: Seq<char>,
    pub headers: Seq<HeaderView>,
    pub body: BodyView,
}

impl View for ApiRequest {
    type V = RequestView;

    open spec fn view(&self) -> RequestView {
        RequestView {
            method: self.method,
            url: self.url@,
            headers: self.headers@.map_values(|h: Header| h@),
            body: self.body@,
        }
    }
}

/// A client for one repository. Without a token only what is public can be read;
/// to write takes a token with write access.
pub struct GitHubClient {
    owner: String,
    repo: String,
    token: Option<String>,
}

/// The model of a client.
pub struct ClientView {
    pub owner: Seq<char>,
    pub repo: Seq<char>,
    pub token: Option<Seq<char>>,
}

impl View for GitHubClient {
    type V = ClientView;

    closed spec fn view(&self) -> ClientView {
        ClientView { owner: self.owner@, repo: self.repo@, token: option_view(self.token) }
    }
}

/// The address of something in the repository.
pub open spec fn repo_url(client: ClientView, path: Seq<char>) -> Seq<char> {
    "https://api.github.com/repos/"@ + client.owner + "/"@ + client.repo + path
}

/// The headers of every request; only a client with a token sends it.
pub open spec fn headers(client: ClientView) -> Seq<HeaderView> {
    let always = seq![
        HeaderView { name: "Accept"@, value: "application/vnd.github+json"@ },
        HeaderView { name: "User-Agent"@, value: "CodeForge"@ },
    ];
    match client.token {
        Some(token) => always.push(
            HeaderView { name: "Authorization"@, value: "Bearer "@ + token },
        ),
        None => always,
    }
}

/// A request for something in the repository.
pub open spec fn request(
    client: ClientView,
    method: Method,
    path: Seq<char>,
    body: BodyView,
) -> RequestView {
    RequestView { method, url: repo_url(client, path), headers: headers(client), body }
}

/// The request for the commit that a branch points to.
pub open spec fn head_request(client: ClientView, branch: Seq<char>) -> RequestView {
    request(client, Method::Get, "/git/ref/heads/"@ + branch, BodyView::Empty)
}

/// The request for all entries of a tree, at any depth.
pub open spec fn tree_request(client: ClientView, tree_sha: Seq<char>) -> RequestView {
    request(
        client,
        Method::Get,
        "/git/trees/"@ + tree_sha + "?recursive=1"@,
        BodyView::Empty,
    )
}

/// The request for the content of a blob.
pub open spec fn blob_request(client: ClientView, blob_sha: Seq<char>) -> RequestView {
    request(client, Method::Get, "/git/blobs/"@ + blob_sha, BodyView::Empty)
}

/// The request that makes a blob.
pub open spec fn new_blob_request(client: ClientView, content: Seq<u8>) -> RequestView {
    request(
        client,
        Method::Post,
        "/git/blobs"@,
        BodyView::Blob { content: blob_content::base64(content), encoding: "base64"@ },
    )
}

/// A path and the SHA of the blob that stands there.
pub struct EntryView {
    pub path: Seq<char>,
    pub sha: Seq<char>,
}

/// The models of pairs of a path and a SHA.
pub open spec fn entry_views(entries: Seq<(String, String)>) -> Seq<EntryView> {
    entries.map_values(|e: (String, String)| EntryView { path: e.0@, sha: e.1@ })
}

/// The entry of a tree for a regular file.
pub open spec fn file_entry(entry: EntryView) -> NewTreeEntryView {
    NewTreeEntryView { path: entry.path, mode: "100644"@, entry_type: "blob"@, sha: entry.sha }
}

/// The request that makes a tree of regular files, on top of another tree where
/// one is given.
pub open spec fn new_tree_request(
    client: ClientView,
    entries: Seq<EntryView>,
    base_tree: Option<Seq<char>>,
) -> RequestView {
    request(
        client,
        Method::Post,
        "/git/trees"@,
        BodyView::Tree { entries: entries.map_values(|e: EntryView| file_entry(e)), base_tree },
    )
}

/// The request that makes a commit with one parent.
pub open spec fn new_commit_request(
    client: ClientView,
    message: Seq<char>,
    tree_sha: Seq<char>,
    parent_sha: Seq<char>,
) -> RequestView {
    request(
        client,
        Method::Post,
        "/git/commits"@,
        BodyView::Commit { message, tree: tree_sha, parents: seq![parent_sha] },
    )
}

/// The request that moves a branch to a commit, without force.
pub open spec fn update_request(
    client: ClientView,
    branch: Seq<char>,
    commit_sha: Seq<char>,
) -> RequestView {
    request(
        client,
        Method::Patch,
        "/git/refs/heads/"@ + branch,
        BodyView::Reference { sha: commit_sha, force: false },
    )
}

impl GitHubClient {
    /// A client for a repository.
    pub fn new(owner: &str, repo: &str, token: Option<&str>) -> (client: GhResult<GitHubClient>)
        ensures
            client matches Ok(c) && c@ == (ClientView {
                owner: owner@,
                repo: repo@,
                token: match token {
                    Some(t) => Some(t@),
                    None => None,
                },
            }),
    {
        let token = match token {
            Some(t) => Some(t.to_owned()),
            None => None,
        };
        Ok(GitHubClient { owner: owner.to_owned(), repo: repo.to_owned(), token })
    }

    fn headers(&self) -> (list: Vec<Header>)
        ensures
            list@.map_values(|h: Header| h@) == headers(self@),
    {
        let mut list: Vec<Header> = Vec::new();
        list.push(
            Header {
                name: "Accept".to_owned(),
                value: "application/vnd.github+json".to_owned(),
            },
        );
        list.push(Header { name: "User-Agent".to_owned(), value: "CodeForge".to_owned() });
        if let Some(token) = &self.token {
            let mut value = "Bearer ".to_owned();
            value.append(token.as_str());
            list.push(Header { name: "Authorization".to_owned(), value });
        }
        assert(list@.map_values(|h: Header| h@) =~= headers(self@));
        list
    }

    fn request(&self, method: Method, path: &str, rest: &str, body: Body) -> (made: ApiRequest)
        ensures
            made@ == request(self@, method, path@ + rest@, body@),
    {
        let mut url = "https://api.github.com/repos/".to_owned();
        url.append(self.owner.as_str());
        url.append("/");
        url.append(self.repo.as_str());
        url.append(path);
        url.append(rest);
        assert(url@ =~= repo_url(self@, path@ + rest@));
        ApiRequest { method, url, headers: self.headers(), body }
    }

    /// Asks for the commit that `branch` points to.
    pub fn get_branch_head_sha(&self, branch: &str) -> (made: ApiRequest)
        ensures
            made@ == head_request(self@, branch@),
            made@.method == Method::Get,
            made@.url == "https://api.github.com/repos/"@ + self@.owner + "/"@ + self@.repo + (
            "/git/ref/heads/"@ + branch@),
            made@.body == BodyView::Empty,
    {
        self.request(Method::Get, "/git/ref/heads/", branch, Body::Empty)
    }

    /// Asks for all entries of a tree, at any depth: each comes with its full
    /// relative path.
    pub fn fetch_tree_recursive(&self, tree_sha: &str) -> (made: ApiRequest)
        ensures
            made@ == tree_request(self@, tree_sha@),
            made@.method == Method::Get,
            made@.url == "https://api.github.com/repos/"@ + self@.owner + "/"@ + self@.repo + (
            "/git/trees/"@ + tree_sha@ + "?recursive=1"@),
            made@.body == BodyView::Empty,
    {
        let mut path = "/git/trees/".to_owned();
        path.append(tree_sha);
        self.request(Method::Get, path.as_str(), "?recursive=1", Body::Empty)
    }

    /// Asks for the content of a blob.
    pub fn fetch_blob_content(&self, blob_sha: &str) -> (made: ApiRequest)
        ensures
            made@ == blob_request(self@, blob_sha@),
            made@.method == Method::Get,
            made@.url == "https://api.github.com/repos/"@ + self@.owner + "/"@ + self@.repo + (
            "/git/blobs/"@ + blob_sha@),
            made@.body == BodyView::Empty,
    {
        self.request(Method::Get, "/git/blobs/", blob_sha, Body::Empty)
    }

    /// Makes a blob of the content.
    pub fn create_blob(&self, content: &[u8]) -> (made: ApiRequest)
        requires
            blob_content::encodable(content@),
        ensures
            made@ == new_blob_request(self@, content@),
            made@.body matches BodyView::Blob { content: sent, encoding }
                && blob_content::blob_bytes(sent, encoding) == content@,
    {
        let made = self.request(
            Method::Post,
            "/git/blobs",
            "",
            Body::Blob(BlobContent::new(content)),
        );
        proof {
            reveal_strlit("");
            assert("/git/blobs"@ + ""@ =~= "/git/blobs"@);
            blob_content::law_sent_blob_reads_back(content@);
        }
        made
    }

    /// Makes one tree from pairs of a path and a blob, on top of `base_tree` where
    /// it is given.
    pub fn create_tree(
        &self,
        entries: &[(String, String)],
        base_tree: Option<&str>,
    ) -> (made: ApiRequest)
        ensures
            made@ == new_tree_request(
                self@,
                entry_views(entries@),
                match base_tree {
                    Some(sha) => Some(sha@),
                    None => None,
                },
            ),
    {
        let mut tree: Vec<NewTreeEntry> = Vec::new();
        let ghost all = entry_views(entries@).map_values(|e: EntryView| file_entry(e));
        assert(tree@.map_values(|e: NewTreeEntry| e@) =~= all.take(0));
        for i in 0..entries.len()
            invariant
                all == entry_views(entries@).map_values(|e: EntryView| file_entry(e)),
                tree@.map_values(|e: NewTreeEntry| e@) == all.take(i as int),
        {
            let ghost before = tree@;
            let entry = NewTreeEntry {
                path: entries[i].0.clone(),
                mode: "100644".to_owned(),
                entry_type: "blob".to_owned(),
                sha: entries[i].1.clone(),
            };
            assert(entry@ == all[i as int]);
            tree.push(entry);
            assert(tree@.map_values(|e: NewTreeEntry| e@) =~= before.map_values(
                |e: NewTreeEntry| e@,
            ).push(entry@));
            assert(tree@.map_values(|e: NewTreeEntry| e@) =~= all.take(i + 1));
        }
        assert(all.take(all.len() as int) =~= all);
        let base_tree = match base_tree {
            Some(sha) => Some(sha.to_owned()),
            None => None,
        };
        let body = Body::Tree { entries: tree, base_tree };
        let made = self.request(Method::Post, "/git/trees", "", body);
        proof {
            reveal_strlit("");
            assert("/git/trees"@ + ""@ =~= "/git/trees"@);
        }
        made
    }

    /// Makes a commit with one parent.
    pub fn create_commit(&self, message: &str, tree_sha: &str, parent_sha: &str) -> (made:
        ApiRequest)
        ensures
            made@ == new_commit_request(self@, message@, tree_sha@, parent_sha@),
            made@.method == Method::Post,
            made@.url == "https://api.github.com/repos/"@ + self@.owner + "/"@ + self@.repo
                + "/git/commits"@,
            made@.body == (BodyView::Commit {
                message: message@,
                tree: tree_sha@,
                parents: seq![parent_sha@],
            }),
    {
        let mut parents: Vec<String> = Vec::new();
        parents.push(parent_sha.to_owned());
        assert(text::text_views(parents@) =~= seq![parent_sha@]);
        let body = Body::Commit { message: message.to_owned(), tree: tree_sha.to_owned(), parents };
        let made = self.request(Method::Post, "/git/commits", "", body);
        proof {
            reveal_strlit("");
            assert("/git/commits"@ + ""@ =~= "/git/commits"@);
        }
        made
    }

    /// Moves a branch to a commit, without force.
    pub fn update_branch_ref(&self, branch: &str, commit_sha: &str) -> (made: ApiRequest)
        ensures
            made@ == update_request(self@, branch@, commit_sha@),
            made@.method == Method::Patch,
            made@.url == "https://api.github.com/repos/"@ + self@.owner + "/"@ + self@.repo + (
            "/git/refs/heads/"@ + branch@),
            made@.body == (BodyView::Reference { sha: commit_sha@, force: false }),
    {
        let body = Body::Reference { sha: commit_sha.to_owned(), force: false };
        self.request(Method::Patch, "/git/refs/heads/", branch, body)
    }
}

// ---- Trees ---------------------------------------------------------------

/// An entry of a tree.
#[derive(Debug, Clone)]
pub struct TreeEntry {
    pub path: String,
    pub mode: String,
    pub entry_type: String,
    pub sha: String,
    pub size: Option<u64>,
}

/// The entries of a tree, as GitHub sends them. `truncated` tells that there are
/// more.
#[derive(Debug)]
pub struct TreeResponse {
    pub sha: String,
    pub tree: Vec<TreeEntry>,
    pub truncated: bool,
}

/// The entry is a file. (Directories stand in the paths of the files.)
pub open spec fn is_blob(entry: TreeEntry) -> bool {
    entry.entry_type@ == "blob"@
}

impl TreeResponse {
    /// The files of the tree, in order, and whether there are more.
    pub fn files(self) -> (listing: (Vec<TreeEntry>, bool))
        ensures
            listing.0@ == self.tree@.filter(|e: TreeEntry| is_blob(e)),
            listing.1 == self.truncated,
    {
        let mut files: Vec<TreeEntry> = Vec::new();
        let truncated = self.truncated;
        let ghost all = self.tree@;
        let ghost blob = |e: TreeEntry| is_blob(e);
        proof {
            reveal(Seq::filter);
            assert(files@ =~= all.take(0).filter(blob));
        }
        for entry in it: self.tree
            invariant
                it.seq() == all,
                blob == (|e: TreeEntry| is_blob(e)),
                files@ == all.take(it.index() as int).filter(blob),
        {
            proof {
                reveal(Seq::filter);
                let i = it.index() as int;
                assert(all.take(i + 1).drop_last() =~= all.take(i));
            }
            if text_is(&entry.entry_type, "blob") {
                files.push(entry);
            }
        }
        assert(all.take(all.len() as int) =~= all);
        (files, truncated)
    }
}

/// The path of a file of a tree, for the file system: the same for import and for
/// export, as both go by the relative path. Which components it has is for the
/// platform to say.
pub fn relative_path_for_import(entry: &TreeEntry) -> (path: &str)
    ensures
        path@ == entry.path@,
{
    entry.path.as_str()
}

} // verus!
