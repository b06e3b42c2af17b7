//! The sandbox: every operation on the files of a project goes through here,
//! and none of them names a file outside the sandbox root, whatever path was
//! requested.
//!
//! An operation is a state machine. It names the next call on the file system
//! (`Operation::call`), whoever runs it performs the call and hands the answer
//! back (`Operation::advance`), until it is finished. Before an operation
//! touches a path it resolves it: the nearest ancestor that exists is
//! canonicalised, which follows `..` and symbolic links, and has to lie in the
//! root. A link among the names behind it that leads to nothing yet is resolved in
//! the same way, and has to lead into the root too. (The entries below a directory
//! that is listed are named as they stand there, links among them.)

use crate::fs_path;
use crate::fs_path::{FileName, FsPath, Part};
use crate::text;
use crate::text::text_of_bytes;
use vstd::prelude::*;

verus! {

// ---- Results -------------------------------------------------------------

/// Why an operation was refused or failed.
#[derive(Debug)]
pub enum SandboxError {
    /// The path leads out of the sandbox root; the path that it leads to.
    PathEscape(FsPath),
    /// A call on the file system failed.
    Io(String),
    /// Nothing of the path exists that could be canonicalised.
    NotYetCreated(FsPath),
}

pub type SandboxResult<T> = Result<T, SandboxError>;

/// The model of an error.
pub enum ErrorView {
    PathEscape(Seq<Part>),
    Io(Seq<char>),
    NotYetCreated(Seq<Part>),
}

impl View for SandboxError {
    type V = ErrorView;

    open spec fn view(&self) -> ErrorView {
        match self {
            SandboxError::PathEscape(path) => ErrorView::PathEscape(path@),
            SandboxError::Io(message) => ErrorView::Io(message@),
            SandboxError::NotYetCreated(path) => ErrorView::NotYetCreated(path@),
        }
    }
}

/// What an error says, with paths written with that separator.
pub open spec fn error_message(error: ErrorView, separator: u8) -> Seq<char> {
    match error {
        ErrorView::PathEscape(path) => "path escapes sandbox root: "@ + text::lossy_text(
            fs_path::written(path, separator),
        ),
        ErrorView::Io(message) => "io error: "@ + message,
        ErrorView::NotYetCreated(path) => "path does not exist yet, cannot canonicalize: "@
            + text::lossy_text(fs_path::written(path, separator)),
    }
}

impl SandboxError {
    /// What the error says, with paths written with the separator of the platform.
    pub fn message(&self, separator: u8) -> (message: String)
        ensures
            message@ == error_message(self@, separator),
    {
        match self {
            SandboxError::PathEscape(path) => {
                let mut message = "path escapes sandbox root: ".to_owned();
                message.append(text_of_bytes(path.written(separator).as_slice()).as_str());
                message
            },
            SandboxError::Io(failure) => {
                let mut message = "io error: ".to_owned();
                message.append(failure.as_str());
                message
            },
            SandboxError::NotYetCreated(path) => {
                let mut message = "path does not exist yet, cannot canonicalize: ".to_owned();
                message.append(text_of_bytes(path.written(separator).as_slice()).as_str());
                message
            },
        }
    }
}

/// What an operation gives.
#[derive(Debug)]
pub enum Outcome {
    /// A path in the sandbox.
    Path(FsPath),
    /// The content of a file.
    Contents(Vec<u8>),
    /// Nothing but that it was done.
    Done,
    /// Paths of files, from the sandbox root.
    Files(Vec<FsPath>),
}

/// The model of an outcome.
pub enum OutcomeView {
    Path(Seq<Part>),
    Contents(Seq<u8>),
    Done,
    Files(Seq<Seq<Part>>),
}

/// The model of an optional path.
pub open spec fn path_view(path: Option<FsPath>) -> Option<Seq<Part>> {
    match path {
        Some(p) => Some(p@),
        None => None,
    }
}

/// The models of a sequence of paths.
pub open spec fn path_views(paths: Seq<FsPath>) -> Seq<Seq<Part>> {
    paths.map_values(|p: FsPath| p@)
}

impl View for Outcome {
    type V = OutcomeView;

    open spec fn view(&self) -> OutcomeView {
        match self {
            Outcome::Path(path) => OutcomeView::Path(path@),
            Outcome::Contents(bytes) => OutcomeView::Contents(bytes@),
            Outcome::Done => OutcomeView::Done,
            Outcome::Files(paths) => OutcomeView::Files(path_views(paths@)),
        }
    }
}

/// The model of a result.
pub open spec fn result_view(result: SandboxResult<Outcome>) -> Result<OutcomeView, ErrorView> {
    match result {
        Ok(outcome) => Ok(outcome@),
        Err(error) => Err(error@),
    }
}

// ---- Calls and answers ---------------------------------------------------

/// A call on the file system.
#[derive(Debug)]
pub enum FsCall<'a> {
    /// Is there anything at the path? (Symbolic links are followed.)
    Exists(FsPath),
    /// The absolute path without `..` and symbolic links.
    Canonicalize(FsPath),
    /// Where the symbolic link at the path points to, if there is one there. (The
    /// link itself is not followed.)
    ReadLink(FsPath),
    /// Is there a directory at the path?
    IsDir(FsPath),
    /// The content of the file.
    Read(FsPath),
    /// Set the content of the file to the bytes.
    Write(FsPath, &'a Vec<u8>),
    /// Make the directory and those above it.
    CreateDirAll(FsPath),
    /// Remove the directory and all in it.
    RemoveDirAll(FsPath),
    /// Remove the file.
    RemoveFile(FsPath),
    /// Give the first path the name of the second.
    Rename(FsPath, FsPath),
    /// The names of the entries of the directory.
    ReadDir(FsPath),
}

/// The model of a call.
pub enum CallView {
    Exists(Seq<Part>),
    Canonicalize(Seq<Part>),
    ReadLink(Seq<Part>),
    IsDir(Seq<Part>),
    Read(Seq<Part>),
    Write(Seq<Part>, Seq<u8>),
    CreateDirAll(Seq<Part>),
    RemoveDirAll(Seq<Part>),
    RemoveFile(Seq<Part>),
    Rename(Seq<Part>, Seq<Part>),
    ReadDir(Seq<Part>),
}

impl<'a> View for FsCall<'a> {
    type V = CallView;

    open spec fn view(&self) -> CallView {
        match self {
            FsCall::Exists(p) => CallView::Exists(p@),
            FsCall::Canonicalize(p) => CallView::Canonicalize(p@),
            FsCall::ReadLink(p) => CallView::ReadLink(p@),
            FsCall::IsDir(p) => CallView::IsDir(p@),
            FsCall::Read(p) => CallView::Read(p@),
            FsCall::Write(p, bytes) => CallView::Write(p@, bytes@),
            FsCall::CreateDirAll(p) => CallView::CreateDirAll(p@),
            FsCall::RemoveDirAll(p) => CallView::RemoveDirAll(p@),
            FsCall::RemoveFile(p) => CallView::RemoveFile(p@),
            FsCall::Rename(p, q) => CallView::Rename(p@, q@),
            FsCall::ReadDir(p) => CallView::ReadDir(p@),
        }
    }
}

/// The models of names.
pub open spec fn name_views(names: Seq<FileName>) -> Seq<Seq<u8>> {
    names.map_values(|n: FileName| n@)
}

/// The answer to a call.
#[derive(Debug)]
pub enum FsReply {
    Flag(bool),
    Path(FsPath),
    /// The target of a link; none where there is no link.
    Link(Option<FsPath>),
    Bytes(Vec<u8>),
    Names(Vec<FileName>),
    Done,
    /// The call failed; what the system says.
    Failed(String),
}

/// The model of an answer.
pub enum ReplyView {
    Flag(bool),
    Path(Seq<Part>),
    Link(Option<Seq<Part>>),
    Bytes(Seq<u8>),
    Names(Seq<Seq<u8>>),
    Done,
    Failed(Seq<char>),
}

impl View for FsReply {
    type V = ReplyView;

    open spec fn view(&self) -> ReplyView {
        match self {
            FsReply::Flag(flag) => ReplyView::Flag(*flag),
            FsReply::Path(path) => ReplyView::Path(path@),
            FsReply::Link(target) => ReplyView::Link(path_view(*target)),
            FsReply::Bytes(bytes) => ReplyView::Bytes(bytes@),
            FsReply::Names(names) => ReplyView::Names(name_views(names@)),
            FsReply::Done => ReplyView::Done,
            FsReply::Failed(message) => ReplyView::Failed(message@),
        }
    }
}

/// The answer is one to the call. A question is always answered with yes or no;
/// any other call may fail.
pub open spec fn answers(reply: ReplyView, call: CallView) -> bool {
    match call {
        CallView::Exists(_) => reply is Flag,
        CallView::IsDir(_) => reply is Flag,
        CallView::Canonicalize(_) => reply is Path || reply is Failed,
        CallView::ReadLink(_) => reply is Link || reply is Failed,
        CallView::Read(_) => reply is Bytes || reply is Failed,
        CallView::ReadDir(_) => reply is Names || reply is Failed,
        _ => reply is Done || reply is Failed,
    }
}

// ---- The state of an operation -------------------------------------------

/// What the path being resolved is for.
enum Goal {
    Resolve,
    Read,
    /// The bytes to write.
    Write(Vec<u8>),
    CreateDir,
    Delete,
    List,
    /// The path to rename; what it is to be renamed to, as requested.
    RenameFrom(FsPath),
    /// The new name of the path.
    RenameTo(FsPath),
}

/// The model of a goal.
pub enum GoalView {
    Resolve,
    Read,
    Write(Seq<u8>),
    CreateDir,
    Delete,
    List,
    RenameFrom(Seq<Part>),
    RenameTo(Seq<Part>),
}

impl View for Goal {
    type V = GoalView;

    closed spec fn view(&self) -> GoalView {
        match self {
            Goal::Resolve => GoalView::Resolve,
            Goal::Read => GoalView::Read,
            Goal::Write(bytes) => GoalView::Write(bytes@),
            Goal::CreateDir => GoalView::CreateDir,
            Goal::Delete => GoalView::Delete,
            Goal::List => GoalView::List,
            Goal::RenameFrom(to) => GoalView::RenameFrom(to@),
            Goal::RenameTo(from) => GoalView::RenameTo(from@),
        }
    }
}

/// How many links to nothing are looked into before a path is refused.
pub const MAX_LINKS: usize = 40;

/// What is said of a path with more links.
pub open spec fn too_many_links() -> Seq<char> {
    "too many levels of symbolic links"@
}

/// The resolution of a path.
struct Search {
    safe: Option<FsPath>,
    candidate: FsPath,
    targets: Vec<FsPath>,
    links: usize,
}

/// The model of a resolution.
pub struct SearchView {
    /// Where the path leads, once that is known.
    pub safe: Option<Seq<Part>>,
    /// The path that is being looked into: the path itself, then the targets.
    pub candidate: Seq<Part>,
    /// The targets of links to nothing, which are still to be looked into.
    pub targets: Seq<Seq<Part>>,
    /// How many such links were met.
    pub links: nat,
}

impl View for Search {
    type V = SearchView;

    closed spec fn view(&self) -> SearchView {
        SearchView {
            safe: path_view(self.safe),
            candidate: self.candidate@,
            targets: path_views(self.targets@),
            links: self.links as nat,
        }
    }
}

/// The paths of a stack, the next one first.
spec fn stack_views(stack: Seq<FsPath>) -> Seq<Seq<Part>> {
    path_views(stack.reverse())
}

/// Where an operation stands.
enum Stage {
    Probe { goal: Goal, search: Search, depth: usize },
    Peek { goal: Goal, search: Search, depth: usize },
    Settle { goal: Goal, search: Search, depth: usize },
    Reading(FsPath),
    MakingParent(FsPath, Vec<u8>),
    Writing(FsPath, Vec<u8>),
    MakingDir(FsPath),
    Inspecting(FsPath),
    RemovingDir(FsPath),
    RemovingFile(FsPath),
    Renaming(FsPath, FsPath),
    Listing { found: Vec<FsPath>, dir: FsPath, stack: Vec<FsPath> },
    Visiting { found: Vec<FsPath>, path: FsPath, stack: Vec<FsPath> },
    Finished(SandboxResult<Outcome>),
}

/// The model of a stage.
pub enum StageView {
    /// Asking whether the first `depth` components of the candidate exist.
    Probe { goal: GoalView, search: SearchView, depth: nat },
    /// They do not; asking whether the last of them is a link.
    Peek { goal: GoalView, search: SearchView, depth: nat },
    /// They do, and are being canonicalised.
    Settle { goal: GoalView, search: SearchView, depth: nat },
    Reading(Seq<Part>),
    /// Making the parent of a file to be written.
    MakingParent(Seq<Part>, Seq<u8>),
    Writing(Seq<Part>, Seq<u8>),
    MakingDir(Seq<Part>),
    /// Asking whether what is to be removed is a directory.
    Inspecting(Seq<Part>),
    RemovingDir(Seq<Part>),
    RemovingFile(Seq<Part>),
    Renaming(Seq<Part>, Seq<Part>),
    /// Listing a directory: the files found, the directory, and what is to be
    /// visited behind it.
    Listing { found: Seq<Seq<Part>>, dir: Seq<Part>, rest: Seq<Seq<Part>> },
    /// Asking whether a path is a directory that is to be listed too.
    Visiting { found: Seq<Seq<Part>>, path: Seq<Part>, rest: Seq<Seq<Part>> },
    Finished(Result<OutcomeView, ErrorView>),
}

impl View for Stage {
    type V = StageView;

    closed spec fn view(&self) -> StageView {
        match self {
            Stage::Probe { goal, search, depth } => StageView::Probe {
                goal: goal@,
                search: search@,
                depth: *depth as nat,
            },
            Stage::Peek { goal, search, depth } => StageView::Peek {
                goal: goal@,
                search: search@,
                depth: *depth as nat,
            },
            Stage::Settle { goal, search, depth } => StageView::Settle {
                goal: goal@,
                search: search@,
                depth: *depth as nat,
            },
            Stage::Reading(p) => StageView::Reading(p@),
            Stage::MakingParent(p, bytes) => StageView::MakingParent(p@, bytes@),
            Stage::Writing(p, bytes) => StageView::Writing(p@, bytes@),
            Stage::MakingDir(p) => StageView::MakingDir(p@),
            Stage::Inspecting(p) => StageView::Inspecting(p@),
            Stage::RemovingDir(p) => StageView::RemovingDir(p@),
            Stage::RemovingFile(p) => StageView::RemovingFile(p@),
            Stage::Renaming(p, q) => StageView::Renaming(p@, q@),
            Stage::Listing { found, dir, stack } => StageView::Listing {
                found: path_views(found@),
                dir: dir@,
                rest: stack_views(stack@),
            },
            Stage::Visiting { found, path, stack } => StageView::Visiting {
                found: path_views(found@),
                path: path@,
                rest: stack_views(stack@),
            },
            Stage::Finished(result) => StageView::Finished(result_view(*result)),
        }
    }
}

/// The path lies in the root (or is the root).
pub open spec fn inside(root: Seq<Part>, path: Seq<Part>) -> bool {
    root.is_prefix_of(path)
}

/// All the paths lie in the root.
pub open spec fn all_inside(root: Seq<Part>, paths: Seq<Seq<Part>>) -> bool {
    forall|i: int| 0 <= i < paths.len() ==> inside(root, #[trigger] paths[i])
}

/// The path that a request asks for: a relative one is seen from the root.
pub open spec fn requested_path(root: Seq<Part>, requested: Seq<Part>) -> Seq<Part> {
    fs_path::joined(root, requested)
}

/// The start of the resolution of a path.
pub open spec fn start_of(root: Seq<Part>, goal: GoalView, requested: Seq<Part>) -> StageView {
    let candidate = requested_path(root, requested);
    StageView::Probe { goal, search: search_for(candidate), depth: candidate.len() }
}

/// The start of the search for where a path leads.
pub open spec fn search_for(candidate: Seq<Part>) -> SearchView {
    SearchView { safe: None, candidate, targets: seq![], links: 0 }
}

impl SearchView {
    /// With one more link, at the end of the first `depth` components, to look
    /// into. A relative target is seen from where the link stands.
    pub open spec fn with_link(self, depth: nat, target: Seq<Part>) -> SearchView {
        let place = fs_path::seen_from(self.candidate.take(depth - 1), target);
        SearchView { targets: self.targets.push(place), links: self.links + 1, ..self }
    }

    /// Where the path leads, once the candidate is known to lead to `path`.
    pub open spec fn leading_to(self, path: Seq<Part>) -> Seq<Part> {
        match self.safe {
            Some(known) => known,
            None => path,
        }
    }

    /// The search goes on with the next target.
    pub open spec fn next(self, safe: Seq<Part>) -> SearchView {
        SearchView {
            safe: Some(safe),
            candidate: self.targets.last(),
            targets: self.targets.drop_last(),
            links: self.links,
        }
    }
}

/// How an operation goes on once a candidate is known to lead to a path in the
/// root: the next target is looked into, and after the last the path is resolved.
pub open spec fn settled(
    root: Seq<Part>,
    goal: GoalView,
    search: SearchView,
    path: Seq<Part>,
) -> StageView {
    let safe = search.leading_to(path);
    if search.targets.len() == 0 {
        resolved_stage(root, goal, safe)
    } else {
        let next = search.next(safe);
        StageView::Probe { goal, search: next, depth: next.candidate.len() }
    }
}

/// How an operation goes on once its path is resolved.
pub open spec fn resolved_stage(root: Seq<Part>, goal: GoalView, safe: Seq<Part>) -> StageView {
    match goal {
        GoalView::Resolve => StageView::Finished(Ok(OutcomeView::Path(safe))),
        GoalView::Read => StageView::Reading(safe),
        GoalView::Write(bytes) => if fs_path::parent(safe) is Some {
            StageView::MakingParent(safe, bytes)
        } else {
            StageView::Writing(safe, bytes)
        },
        GoalView::CreateDir => StageView::MakingDir(safe),
        GoalView::Delete => StageView::Inspecting(safe),
        GoalView::List => StageView::Listing { found: seq![], dir: safe, rest: seq![] },
        GoalView::RenameFrom(to) => start_of(root, GoalView::RenameTo(safe), to),
        GoalView::RenameTo(from) => StageView::Renaming(from, safe),
    }
}

/// The paths of the entries of a directory.
pub open spec fn children(dir: Seq<Part>, names: Seq<Seq<u8>>) -> Seq<Seq<Part>> {
    names.map_values(|n: Seq<u8>| dir.push(Part::Name(n)))
}

/// How a listing goes on: the next path is visited, and at the end the files are
/// given by their paths from the root.
pub open spec fn visit_next(
    root: Seq<Part>,
    found: Seq<Seq<Part>>,
    pending: Seq<Seq<Part>>,
) -> StageView {
    if pending.len() == 0 {
        StageView::Finished(
            Ok(
                OutcomeView::Files(
                    found.map_values(|p: Seq<Part>| fs_path::relative_to(root, p)),
                ),
            ),
        )
    } else {
        StageView::Visiting { found, path: pending[0], rest: pending.skip(1) }
    }
}

/// The model of an operation.
pub struct OperationView {
    pub root: Seq<Part>,
    pub stage: StageView,
}

impl StageView {
    /// The call that the stage waits for.
    pub open spec fn call(self) -> Option<CallView> {
        match self {
            StageView::Probe { search, depth, .. } => Some(
                CallView::Exists(search.candidate.take(depth as int)),
            ),
            StageView::Peek { search, depth, .. } => Some(
                CallView::ReadLink(search.candidate.take(depth as int)),
            ),
            StageView::Settle { search, depth, .. } => Some(
                CallView::Canonicalize(search.candidate.take(depth as int)),
            ),
            StageView::Reading(p) => Some(CallView::Read(p)),
            StageView::MakingParent(p, _) => Some(CallView::CreateDirAll(fs_path::parent(p)->0)),
            StageView::Writing(p, bytes) => Some(CallView::Write(p, bytes)),
            StageView::MakingDir(p) => Some(CallView::CreateDirAll(p)),
            StageView::Inspecting(p) => Some(CallView::IsDir(p)),
            StageView::RemovingDir(p) => Some(CallView::RemoveDirAll(p)),
            StageView::RemovingFile(p) => Some(CallView::RemoveFile(p)),
            StageView::Renaming(p, q) => Some(CallView::Rename(p, q)),
            StageView::Listing { dir, .. } => Some(CallView::ReadDir(dir)),
            StageView::Visiting { path, .. } => Some(CallView::IsDir(path)),
            StageView::Finished(_) => None,
        }
    }

    /// The stage that follows upon an answer.
    pub open spec fn next(self, root: Seq<Part>, reply: ReplyView) -> StageView {
        match (self, reply) {
            (StageView::Finished(_), _) => self,
            (_, ReplyView::Failed(message)) => StageView::Finished(Err(ErrorView::Io(message))),
            (StageView::Probe { goal, search, depth }, ReplyView::Flag(exists)) => {
                if exists {
                    StageView::Settle { goal, search, depth }
                } else if depth > 0 && search.candidate[depth - 1] is Name {
                    StageView::Peek { goal, search, depth }
                } else {
                    StageView::Finished(Err(ErrorView::NotYetCreated(search.candidate)))
                }
            },
            (StageView::Peek { goal, search, depth }, ReplyView::Link(target)) => {
                let above = (depth - 1) as nat;
                match target {
                    None => StageView::Probe { goal, search, depth: above },
                    Some(t) => if search.links < MAX_LINKS {
                        StageView::Probe {
                            goal,
                            search: search.with_link(depth, t),
                            depth: above,
                        }
                    } else {
                        StageView::Finished(Err(ErrorView::Io(too_many_links())))
                    },
                }
            },
            (StageView::Settle { goal, search, depth }, ReplyView::Path(canonical)) => {
                if inside(root, canonical) {
                    settled(root, goal, search, canonical + search.candidate.skip(depth as int))
                } else {
                    StageView::Finished(Err(ErrorView::PathEscape(canonical)))
                }
            },
            (StageView::Reading(_), ReplyView::Bytes(bytes)) => StageView::Finished(
                Ok(OutcomeView::Contents(bytes)),
            ),
            (StageView::MakingParent(p, bytes), ReplyView::Done) => StageView::Writing(p, bytes),
            (StageView::Inspecting(p), ReplyView::Flag(is_dir)) => if is_dir {
                StageView::RemovingDir(p)
            } else {
                StageView::RemovingFile(p)
            },
            (StageView::Listing { found, dir, rest }, ReplyView::Names(names)) => visit_next(
                root,
                found,
                children(dir, names) + rest,
            ),
            (StageView::Visiting { found, path, rest }, ReplyView::Flag(is_dir)) => if is_dir {
                StageView::Listing { found, dir: path, rest }
            } else {
                visit_next(root, found.push(path), rest)
            },
            _ => StageView::Finished(Ok(OutcomeView::Done)),
        }
    }

    /// The stage keeps to the root: every path it acts on lies in the root, and
    /// of a path being resolved only names are left behind what is asked about.
    pub open spec fn well_formed(self, root: Seq<Part>) -> bool {
        match self {
            StageView::Probe { goal, search, depth } => resolving(root, goal, search, depth),
            StageView::Peek { goal, search, depth } => {
                &&& resolving(root, goal, search, depth)
                &&& depth > 0
                &&& search.candidate[depth - 1] is Name
            },
            StageView::Settle { goal, search, depth } => resolving(root, goal, search, depth),
            StageView::Reading(p) => inside(root, p),
            StageView::MakingParent(p, _) => inside(root, p) && fs_path::parent(p) is Some,
            StageView::Writing(p, _) => inside(root, p),
            StageView::MakingDir(p) => inside(root, p),
            StageView::Inspecting(p) => inside(root, p),
            StageView::RemovingDir(p) => inside(root, p),
            StageView::RemovingFile(p) => inside(root, p),
            StageView::Renaming(p, q) => inside(root, p) && inside(root, q),
            StageView::Listing { found, dir, rest } => inside(root, dir) && all_inside(root, found)
                && all_inside(root, rest),
            StageView::Visiting { found, path, rest } => inside(root, path) && all_inside(
                root,
                found,
            ) && all_inside(root, rest),
            StageView::Finished(Ok(OutcomeView::Path(p))) => inside(root, p),
            StageView::Finished(_) => true,
        }
    }
}

/// A resolution keeps to the root.
pub open spec fn resolving(
    root: Seq<Part>,
    goal: GoalView,
    search: SearchView,
    depth: nat,
) -> bool {
    let candidate = search.candidate;
    &&& depth <= candidate.len()
    &&& forall|i: int| depth <= i < candidate.len() ==> (#[trigger] candidate[i]) is Name
    &&& goal matches GoalView::RenameTo(from) ==> inside(root, from)
    &&& search.safe matches Some(safe) ==> inside(root, safe)
    &&& search.links <= MAX_LINKS
}

impl OperationView {
    /// After an answer.
    pub open spec fn step(self, reply: ReplyView) -> OperationView {
        OperationView { root: self.root, stage: self.stage.next(self.root, reply) }
    }

    /// The operation keeps to the root.
    pub open spec fn well_formed(self) -> bool {
        self.stage.well_formed(self.root)
    }
}

/// A prefix of a path is one of a longer path.
pub proof fn lemma_inside_longer(root: Seq<Part>, path: Seq<Part>, more: Seq<Part>)
    requires
        inside(root, path),
    ensures
        inside(root, path + more),
{
    assert(root =~= (path + more).take(root.len() as int)) by {
        assert forall|i: int| 0 <= i < root.len() implies root[i] == (path + more)[i] by {
            assert(root[i] == path.take(root.len() as int)[i]);
        }
    }
}

/// Whatever the file system answers, an operation that keeps to the root goes
/// on keeping to it.
pub proof fn law_operations_stay_inside(op: OperationView, reply: ReplyView)
    requires
        op.well_formed(),
        op.stage.call() matches Some(call) && answers(reply, call),
    ensures
        op.step(reply).well_formed(),
{
    let root = op.root;
    match (op.stage, reply) {
        (StageView::Settle { search, depth, .. }, ReplyView::Path(canonical)) => {
            if inside(root, canonical) {
                lemma_inside_longer(root, canonical, search.candidate.skip(depth as int));
            }
        },
        (StageView::Listing { found, dir, rest }, ReplyView::Names(names)) => {
            let pending = children(dir, names) + rest;
            assert forall|i: int| 0 <= i < pending.len() implies inside(
                root,
                #[trigger] pending[i],
            ) by {
                if i < names.len() {
                    let name = Part::Name(names[i]);
                    assert(pending[i] == dir.push(name));
                    assert(dir.push(name) =~= dir + seq![name]);
                    lemma_inside_longer(root, dir, seq![name]);
                } else {
                    assert(pending[i] == rest[i - names.len()]);
                }
            }
        },
        _ => {},
    }
}

// ---- Operations ----------------------------------------------------------

/// An operation on the sandbox that is under way.
pub struct Operation {
    root: FsPath,
    stage: Stage,
}

impl View for Operation {
    type V = OperationView;

    closed spec fn view(&self) -> OperationView {
        OperationView { root: self.root@, stage: self.stage@ }
    }
}

impl Operation {
    /// The operation keeps to the root.
    #[verifier::type_invariant]
    pub open spec fn well_formed(self) -> bool {
        self@.well_formed()
    }
}

/// Starts to resolve a path.
fn start(root: &FsPath, goal: Goal, requested: &FsPath) -> (stage: Stage)
    ensures
        stage@ == start_of(root@, goal@, requested@),
{
    let candidate = root.join(requested);
    let depth: usize = candidate.depth();
    let targets: Vec<FsPath> = Vec::new();
    assert(path_views(targets@) =~= Seq::<Seq<Part>>::empty());
    let search = Search { safe: None, candidate, targets, links: 0 };
    Stage::Probe { goal, search, depth }
}

/// Notes down a link to nothing that is to be looked into.
fn follow(search: Search, depth: usize, target: &FsPath) -> (longer: Search)
    requires
        0 < depth <= search@.candidate.len(),
        search@.links < MAX_LINKS,
    ensures
        longer@ == search@.with_link(depth as nat, target@),
{
    let mut search = search;
    let ghost before = search@;
    let ghost held = search.targets@;
    let place = target.seen_from(&search.candidate.prefix(depth - 1));
    search.targets.push(place);
    search.links = search.links + 1;
    proof {
        assert(path_views(held.push(place)) =~= path_views(held).push(place@));
        assert(search@.targets =~= before.with_link(depth as nat, target@).targets);
    }
    search
}

/// Goes on once a candidate is known to lead to a path in the root.
fn settle(root: &FsPath, goal: Goal, search: Search, path: FsPath) -> (stage: Stage)
    ensures
        stage@ == settled(root@, goal@, search@, path@),
{
    let safe = match search.safe {
        Some(known) => known,
        None => path,
    };
    let mut targets = search.targets;
    let ghost held = targets@;
    match targets.pop() {
        None => go_on(root, goal, safe),
        Some(candidate) => {
            proof {
                assert(path_views(held).last() == candidate@);
                assert(path_views(targets@) =~= path_views(held).drop_last());
            }
            let depth: usize = candidate.depth();
            let next = Search { safe: Some(safe), candidate, targets, links: search.links };
            Stage::Probe { goal, search: next, depth }
        },
    }
}

/// Goes on with an operation once its path is resolved.
fn go_on(root: &FsPath, goal: Goal, safe: FsPath) -> (stage: Stage)
    ensures
        stage@ == resolved_stage(root@, goal@, safe@),
{
    match goal {
        Goal::Resolve => Stage::Finished(Ok(Outcome::Path(safe))),
        Goal::Read => Stage::Reading(safe),
        Goal::Write(bytes) => {
            if safe.parent().is_some() {
                Stage::MakingParent(safe, bytes)
            } else {
                Stage::Writing(safe, bytes)
            }
        },
        Goal::CreateDir => Stage::MakingDir(safe),
        Goal::Delete => Stage::Inspecting(safe),
        Goal::List => {
            let found: Vec<FsPath> = Vec::new();
            let stack: Vec<FsPath> = Vec::new();
            proof {
                assert(path_views(found@) =~= Seq::<Seq<Part>>::empty());
                assert(stack_views(stack@) =~= Seq::<Seq<Part>>::empty());
            }
            Stage::Listing { found, dir: safe, stack }
        },
        Goal::RenameFrom(to) => start(root, Goal::RenameTo(safe), &to),
        Goal::RenameTo(from) => Stage::Renaming(from, safe),
    }
}

/// Goes on with a listing.
fn visit(root: &FsPath, found: Vec<FsPath>, stack: Vec<FsPath>) -> (stage: Stage)
    ensures
        stage@ == visit_next(root@, path_views(found@), stack_views(stack@)),
{
    let mut stack = stack;
    let ghost pending = stack@;
    match stack.pop() {
        Some(path) => {
            proof {
                let views = stack_views(pending);
                assert(views[0] == path@);
                assert(stack_views(stack@) =~= views.skip(1));
            }
            Stage::Visiting { found, path, stack }
        },
        None => {
            let mut files: Vec<FsPath> = Vec::new();
            let ghost relative = |p: Seq<Part>| fs_path::relative_to(root@, p);
            for i in 0..found.len()
                invariant
                    relative == (|p: Seq<Part>| fs_path::relative_to(root@, p)),
                    path_views(files@) == path_views(found@).take(i as int).map_values(relative),
            {
                let ghost before = files@;
                let file = found[i].relative_to(root);
                files.push(file);
                proof {
                    let views = path_views(found@);
                    assert(views[i as int] == found@[i as int]@);
                    assert(path_views(files@) =~= path_views(before).push(file@));
                    assert(views.take(i + 1).map_values(relative) =~= views.take(
                        i as int,
                    ).map_values(relative).push(relative(views[i as int])));
                }
            }
            proof {
                let views = path_views(found@);
                assert(views.take(views.len() as int) =~= views);
            }
            Stage::Finished(Ok(Outcome::Files(files)))
        },
    }
}

/// Puts the entries of a directory on the stack, so that the first comes next.
fn push_children(dir: &FsPath, names: &Vec<FileName>, stack: &mut Vec<FsPath>)
    ensures
        stack_views(final(stack)@) == children(dir@, name_views(names@)) + stack_views(old(stack)@),
{
    let ghost all = children(dir@, name_views(names@));
    let ghost below = stack_views(stack@);
    let mut left: usize = names.len();
    assert(stack_views(stack@) =~= all.skip(left as int) + below);
    while left > 0
        invariant
            left <= names@.len(),
            all == children(dir@, name_views(names@)),
            stack_views(stack@) == all.skip(left as int) + below,
        decreases left,
    {
        let ghost before = stack@;
        let path = dir.child(&names[left - 1]);
        stack.push(path);
        left = left - 1;
        proof {
            assert(path@ == all[left as int]);
            assert(stack_views(stack@) =~= seq![path@] + stack_views(before));
            assert(all.skip(left as int) =~= seq![all[left as int]] + all.skip(left + 1));
            assert(stack_views(stack@) =~= all.skip(left as int) + below);
        }
    }
    assert(all.skip(0) =~= all);
}

impl Operation {
    /// The call on the file system that the operation waits for; none when it is
    /// finished.
    pub fn call(&self) -> (call: Option<FsCall<'_>>)
        ensures
            self@.well_formed(),
            match call {
                Some(c) => self@.stage.call() == Some(c@),
                None => self@.stage.call() is None,
            },
    {
        proof {
            use_type_invariant(self);
        }
        match &self.stage {
            Stage::Probe { search, depth, .. } => Some(
                FsCall::Exists(search.candidate.prefix(*depth)),
            ),
            Stage::Peek { search, depth, .. } => Some(
                FsCall::ReadLink(search.candidate.prefix(*depth)),
            ),
            Stage::Settle { search, depth, .. } => Some(
                FsCall::Canonicalize(search.candidate.prefix(*depth)),
            ),
            Stage::Reading(p) => Some(FsCall::Read(p.copy())),
            Stage::MakingParent(p, bytes) => match p.parent() {
                Some(parent) => Some(FsCall::CreateDirAll(parent)),
                None => Some(FsCall::Write(p.copy(), bytes)),
            },
            Stage::Writing(p, bytes) => Some(FsCall::Write(p.copy(), bytes)),
            Stage::MakingDir(p) => Some(FsCall::CreateDirAll(p.copy())),
            Stage::Inspecting(p) => Some(FsCall::IsDir(p.copy())),
            Stage::RemovingDir(p) => Some(FsCall::RemoveDirAll(p.copy())),
            Stage::RemovingFile(p) => Some(FsCall::RemoveFile(p.copy())),
            Stage::Renaming(p, q) => Some(FsCall::Rename(p.copy(), q.copy())),
            Stage::Listing { dir, .. } => Some(FsCall::ReadDir(dir.copy())),
            Stage::Visiting { path, .. } => Some(FsCall::IsDir(path.copy())),
            Stage::Finished(_) => None,
        }
    }

    /// Goes on with the answer to the call that the operation waits for.
    pub fn advance(self, reply: FsReply) -> (next: Operation)
        requires
            self@.stage.call() matches Some(call) && answers(reply@, call),
        ensures
            next@ == self@.step(reply@),
    {
        proof {
            use_type_invariant(&self);
            law_operations_stay_inside(self@, reply@);
        }
        let Operation { root, stage } = self;
        let ghost stage_view = stage@;
        let ghost reply_view = reply@;
        let next_stage = match (stage, reply) {
            (Stage::Finished(result), _) => Stage::Finished(result),
            (_, FsReply::Failed(message)) => Stage::Finished(Err(SandboxError::Io(message))),
            (Stage::Probe { goal, search, depth }, FsReply::Flag(exists)) => {
                if exists {
                    Stage::Settle { goal, search, depth }
                } else if depth > 0 && search.candidate.is_name_at(depth - 1) {
                    Stage::Peek { goal, search, depth }
                } else {
                    Stage::Finished(Err(SandboxError::NotYetCreated(search.candidate)))
                }
            },
            (Stage::Peek { goal, search, depth }, FsReply::Link(target)) => {
                match target {
                    None => Stage::Probe { goal, search, depth: depth - 1 },
                    Some(t) => {
                        if search.links < MAX_LINKS {
                            let search = follow(search, depth, &t);
                            Stage::Probe { goal, search, depth: depth - 1 }
                        } else {
                            let message = "too many levels of symbolic links".to_owned();
                            Stage::Finished(Err(SandboxError::Io(message)))
                        }
                    },
                }
            },
            (Stage::Settle { goal, search, depth }, FsReply::Path(canonical)) => {
                if canonical.starts_with(&root) {
                    let path = canonical.with_names(&search.candidate, depth);
                    settle(&root, goal, search, path)
                } else {
                    Stage::Finished(Err(SandboxError::PathEscape(canonical)))
                }
            },
            (Stage::Reading(_), FsReply::Bytes(bytes)) => Stage::Finished(
                Ok(Outcome::Contents(bytes)),
            ),
            (Stage::MakingParent(p, bytes), FsReply::Done) => Stage::Writing(p, bytes),
            (Stage::Inspecting(p), FsReply::Flag(is_dir)) => {
                if is_dir {
                    Stage::RemovingDir(p)
                } else {
                    Stage::RemovingFile(p)
                }
            },
            (Stage::Listing { found, dir, stack }, FsReply::Names(names)) => {
                let mut stack = stack;
                push_children(&dir, &names, &mut stack);
                visit(&root, found, stack)
            },
            (Stage::Visiting { found, path, stack }, FsReply::Flag(is_dir)) => {
                if is_dir {
                    Stage::Listing { found, dir: path, stack }
                } else {
                    let mut found = found;
                    let ghost before = found@;
                    found.push(path);
                    assert(path_views(found@) =~= path_views(before).push(path@));
                    visit(&root, found, stack)
                }
            },
            _ => Stage::Finished(Ok(Outcome::Done)),
        };
        assert(next_stage@ == stage_view.next(root@, reply_view));
        Operation { root, stage: next_stage }
    }

    /// What the operation gave, when it is finished; else the operation.
    pub fn finish(self) -> (result: Result<SandboxResult<Outcome>, Operation>)
        ensures
            match result {
                Ok(given) => self@.stage == StageView::Finished(result_view(given)),
                Err(op) => op@ == self@ && !(self@.stage is Finished),
            },
    {
        proof {
            use_type_invariant(&self);
        }
        let Operation { root, stage } = self;
        match stage {
            Stage::Finished(result) => Ok(result),
            stage => Err(Operation { root, stage }),
        }
    }
}

// ---- The sandbox ---------------------------------------------------------

/// The root of a sandbox, as an absolute path without `..` and symbolic links.
#[derive(Debug)]
pub struct SandboxRoot {
    canonical_root: FsPath,
}

impl View for SandboxRoot {
    type V = Seq<Part>;

    closed spec fn view(&self) -> Seq<Part> {
        self.canonical_root@
    }
}

impl Clone for SandboxRoot {
    fn clone(&self) -> (sandbox: SandboxRoot)
        ensures
            sandbox@ == self@,
    {
        SandboxRoot { canonical_root: self.canonical_root.copy() }
    }
}

impl SandboxRoot {
    /// Opens the sandbox at a path, making the directory where there is none.
    pub fn new(root: FsPath) -> (opening: Opening)
        ensures
            opening@ == OpeningView::Asking(root@),
    {
        Opening { stage: OpeningStage::Asking(root) }
    }

    /// The path of the root.
    pub fn root_path(&self) -> (path: &FsPath)
        ensures
            path@ == self@,
    {
        &self.canonical_root
    }

    fn begin(&self, goal: Goal, requested: &FsPath) -> (op: Operation)
        requires
            !(goal is RenameTo),
        ensures
            op@ == started(self@, goal@, requested@),
    {
        let root = self.canonical_root.copy();
        let stage = start(&root, goal, requested);
        Operation { root, stage }
    }

    /// Resolves a path, relative or absolute, to the path in the sandbox that it
    /// leads to.
    pub fn resolve(&self, requested: &FsPath) -> (op: Operation)
        ensures
            op@ == started(self@, GoalView::Resolve, requested@),
    {
        self.begin(Goal::Resolve, requested)
    }

    /// Reads a file.
    pub fn read_file(&self, requested: &FsPath) -> (op: Operation)
        ensures
            op@ == started(self@, GoalView::Read, requested@),
    {
        self.begin(Goal::Read, requested)
    }

    /// Writes a file, with the directories above it.
    pub fn write_file(&self, requested: &FsPath, contents: Vec<u8>) -> (op: Operation)
        ensures
            op@ == started(self@, GoalView::Write(contents@), requested@),
    {
        self.begin(Goal::Write(contents), requested)
    }

    /// Makes a directory, with those above it.
    pub fn create_dir(&self, requested: &FsPath) -> (op: Operation)
        ensures
            op@ == started(self@, GoalView::CreateDir, requested@),
    {
        self.begin(Goal::CreateDir, requested)
    }

    /// Removes a file, or a directory with all in it.
    pub fn delete(&self, requested: &FsPath) -> (op: Operation)
        ensures
            op@ == started(self@, GoalView::Delete, requested@),
    {
        self.begin(Goal::Delete, requested)
    }

    /// Renames a file or a directory.
    pub fn rename(&self, from: &FsPath, to: &FsPath) -> (op: Operation)
        ensures
            op@ == started(self@, GoalView::RenameFrom(to@), from@),
    {
        self.begin(Goal::RenameFrom(to.copy()), from)
    }

    /// Lists all files below a directory, with their paths from the sandbox root
    /// (e.g. `projectname/src/index.js`).
    pub fn list_files_recursive(&self, requested: &FsPath) -> (op: Operation)
        ensures
            op@ == started(self@, GoalView::List, requested@),
    {
        self.begin(Goal::List, requested)
    }
}

/// The start of an operation on a path.
pub open spec fn started(root: Seq<Part>, goal: GoalView, requested: Seq<Part>) -> OperationView {
    OperationView { root, stage: start_of(root, goal, requested) }
}

// ---- Opening a sandbox ---------------------------------------------------

enum OpeningStage {
    Asking(FsPath),
    Making(FsPath),
    Settling(FsPath),
    Finished(SandboxResult<SandboxRoot>),
}

/// The opening of a sandbox that is under way.
pub struct Opening {
    stage: OpeningStage,
}

/// The model of an opening.
pub enum OpeningView {
    /// Asking whether there is anything at the path.
    Asking(Seq<Part>),
    /// Making the directory.
    Making(Seq<Part>),
    /// Canonicalising the path.
    Settling(Seq<Part>),
    /// The root, or why there is none.
    Finished(Result<Seq<Part>, ErrorView>),
}

impl View for Opening {
    type V = OpeningView;

    closed spec fn view(&self) -> OpeningView {
        match self.stage {
            OpeningStage::Asking(p) => OpeningView::Asking(p@),
            OpeningStage::Making(p) => OpeningView::Making(p@),
            OpeningStage::Settling(p) => OpeningView::Settling(p@),
            OpeningStage::Finished(Ok(sandbox)) => OpeningView::Finished(Ok(sandbox@)),
            OpeningStage::Finished(Err(error)) => OpeningView::Finished(Err(error@)),
        }
    }
}

impl OpeningView {
    /// The call that the opening waits for.
    pub open spec fn call(self) -> Option<CallView> {
        match self {
            OpeningView::Asking(p) => Some(CallView::Exists(p)),
            OpeningView::Making(p) => Some(CallView::CreateDirAll(p)),
            OpeningView::Settling(p) => Some(CallView::Canonicalize(p)),
            OpeningView::Finished(_) => None,
        }
    }

    /// After an answer.
    pub open spec fn step(self, reply: ReplyView) -> OpeningView {
        match (self, reply) {
            (OpeningView::Finished(_), _) => self,
            (_, ReplyView::Failed(message)) => OpeningView::Finished(Err(ErrorView::Io(message))),
            (OpeningView::Asking(p), ReplyView::Flag(exists)) => if exists {
                OpeningView::Settling(p)
            } else {
                OpeningView::Making(p)
            },
            (OpeningView::Making(p), ReplyView::Done) => OpeningView::Settling(p),
            (OpeningView::Settling(_), ReplyView::Path(canonical)) => OpeningView::Finished(
                Ok(canonical),
            ),
            _ => self,
        }
    }
}

impl Opening {
    /// The call on the file system that the opening waits for; none when it is
    /// finished.
    pub fn call(&self) -> (call: Option<FsCall<'_>>)
        ensures
            match call {
                Some(c) => self@.call() == Some(c@),
                None => self@.call() is None,
            },
    {
        match &self.stage {
            OpeningStage::Asking(p) => Some(FsCall::Exists(p.copy())),
            OpeningStage::Making(p) => Some(FsCall::CreateDirAll(p.copy())),
            OpeningStage::Settling(p) => Some(FsCall::Canonicalize(p.copy())),
            OpeningStage::Finished(_) => None,
        }
    }

    /// Goes on with the answer to the call that the opening waits for.
    pub fn advance(self, reply: FsReply) -> (next: Opening)
        requires
            self@.call() matches Some(call) && answers(reply@, call),
        ensures
            next@ == self@.step(reply@),
    {
        let stage = match (self.stage, reply) {
            (OpeningStage::Finished(result), _) => OpeningStage::Finished(result),
            (_, FsReply::Failed(message)) => OpeningStage::Finished(Err(SandboxError::Io(message))),
            (OpeningStage::Asking(p), FsReply::Flag(exists)) => {
                if exists {
                    OpeningStage::Settling(p)
                } else {
                    OpeningStage::Making(p)
                }
            },
            (OpeningStage::Making(p), FsReply::Done) => OpeningStage::Settling(p),
            (OpeningStage::Settling(_), FsReply::Path(canonical)) => OpeningStage::Finished(
                Ok(SandboxRoot { canonical_root: canonical }),
            ),
            (stage, _) => stage,
        };
        Opening { stage }
    }

    /// The sandbox, or why there is none, when the opening is finished; else the
    /// opening.
    pub fn finish(self) -> (result: Result<SandboxResult<SandboxRoot>, Opening>)
        ensures
            match result {
                Ok(Ok(sandbox)) => self@ == OpeningView::Finished(Ok(sandbox@)),
                Ok(Err(error)) => self@ == OpeningView::Finished(Err(error@)),
                Err(opening) => opening@ == self@ && !(self@ is Finished),
            },
    {
        match self.stage {
            OpeningStage::Finished(result) => Ok(result),
            stage => Err(Opening { stage }),
        }
    }
}

} // verus!
