//! Where a requested path leads, told by what the file system answers about it.

use crate::fs_path;
use crate::fs_path::Part;
use crate::fs_sandbox;
use crate::fs_sandbox::{
    CallView, ErrorView, GoalView, OperationView, OutcomeView, ReplyView, SearchView, StageView,
};
use crate::path_laws;
use crate::sandbox_laws;
use crate::sandbox_laws::{Answers, Climb};
use crate::text;
use vstd::prelude::*;

verus! {

/// The path has all components of the root, in order, at its start.
pub open spec fn lies_in(root: Seq<Part>, path: Seq<Part>) -> bool {
    &&& root.len() <= path.len()
    &&& forall|i: int| 0 <= i < root.len() ==> #[trigger] root[i] == path[i]
}

/// Behind its first `at` components the path has only names; nothing exists with any
/// of them, and none is a link.
pub open spec fn only_new_names(path: Seq<Part>, at: int, fs: Answers) -> bool {
    &&& 0 <= at <= path.len()
    &&& forall|i: int|
        at < i <= path.len() ==> {
            &&& fs(CallView::Exists(#[trigger] path.take(i))) == ReplyView::Flag(false)
            &&& fs(CallView::ReadLink(path.take(i))) == ReplyView::Link(None)
            &&& path[i - 1] is Name
        }
}

/// Over new names the way up goes on.
proof fn lemma_climb_over_names(search: SearchView, depth: nat, at: nat, fs: Answers)
    requires
        only_new_names(search.candidate, at as int, fs),
        at <= depth <= search.candidate.len(),
    ensures
        sandbox_laws::climb(search, depth, fs) == sandbox_laws::climb(search, at, fs),
    decreases depth,
{
    if at < depth {
        let here = search.candidate.take(depth as int);
        assert(fs(CallView::Exists(here)) == ReplyView::Flag(false));
        assert(fs(CallView::ReadLink(here)) == ReplyView::Link(None));
        assert(search.candidate[depth - 1] is Name);
        lemma_climb_over_names(search, (depth - 1) as nat, at, fs);
    }
}

/// A path of which the first `at` components exist, with only new names behind, leads
/// to what these are canonicalised to, with the names put back. Where that is not in
/// the root the path is refused with it, and where it cannot be canonicalised, with
/// what the system says.
pub proof fn law_nearest_path_decides(
    root: Seq<Part>,
    requested: Seq<Part>,
    at: nat,
    fs: Answers,
)
    requires
        sandbox_laws::answering(fs),
        only_new_names(fs_path::joined(root, requested), at as int, fs),
        fs(CallView::Exists(fs_path::joined(root, requested).take(at as int))) == ReplyView::Flag(
            true,
        ),
    ensures
        ({
            let path = fs_path::joined(root, requested);
            let resolved = match fs(CallView::Canonicalize(path.take(at as int))) {
                ReplyView::Path(canonical) => if lies_in(root, canonical) {
                    Ok(canonical + path.skip(at as int))
                } else {
                    Err(ErrorView::PathEscape(canonical))
                },
                reply => Err(ErrorView::Io(reply->Failed_0)),
            };
            &&& sandbox_laws::leads_to(root, requested, fs) == resolved
            &&& sandbox_laws::ends(
                fs_sandbox::started(root, GoalView::Resolve, requested),
                fs,
                seq![],
                match resolved {
                    Ok(safe) => Ok(OutcomeView::Path(safe)),
                    Err(error) => Err(error),
                },
            )
        }),
{
    let path = fs_path::joined(root, requested);
    let search = fs_sandbox::search_for(path);
    lemma_climb_over_names(search, path.len(), at, fs);
    assert(sandbox_laws::climb(search, at, fs) == (Climb::At { search, depth: at }));
    let call = CallView::Canonicalize(path.take(at as int));
    assert(fs_sandbox::answers(fs(call), call));
    if let ReplyView::Path(canonical) = fs(call) {
        path_laws::law_inside_is_told_by_components(root, canonical);
    }
    sandbox_laws::law_resolve(root, requested, fs);
}

/// A path of which nothing exists, up to a component that is no name, is refused as
/// not there yet, whatever was to be done with it.
pub proof fn law_path_without_start_is_refused(
    root: Seq<Part>,
    goal: GoalView,
    requested: Seq<Part>,
    stop: nat,
    fs: Answers,
)
    requires
        sandbox_laws::answering(fs),
        ({
            let path = fs_path::joined(root, requested);
            &&& only_new_names(path, stop as int, fs)
            &&& fs(CallView::Exists(path.take(stop as int))) == ReplyView::Flag(false)
            &&& stop == 0 || !(path[stop - 1] is Name)
        }),
    ensures
        sandbox_laws::ends(
            fs_sandbox::started(root, goal, requested),
            fs,
            seq![],
            Err(ErrorView::NotYetCreated(fs_path::joined(root, requested))),
        ),
{
    let path = fs_path::joined(root, requested);
    lemma_climb_over_names(fs_sandbox::search_for(path), path.len(), stop, fs);
    sandbox_laws::law_path_is_resolved_first(root, goal, requested, fs);
}

/// Where it cannot be told whether a name that leads to nothing is a link, the path
/// is refused with what the system says.
pub proof fn law_unreadable_link_is_refused(
    root: Seq<Part>,
    goal: GoalView,
    requested: Seq<Part>,
    at: nat,
    message: Seq<char>,
    fs: Answers,
)
    requires
        sandbox_laws::answering(fs),
        at > 0,
        ({
            let path = fs_path::joined(root, requested);
            &&& only_new_names(path, at as int, fs)
            &&& path[at - 1] is Name
            &&& fs(CallView::Exists(path.take(at as int))) == ReplyView::Flag(false)
            &&& fs(CallView::ReadLink(path.take(at as int))) == ReplyView::Failed(message)
        }),
    ensures
        sandbox_laws::ends(
            fs_sandbox::started(root, goal, requested),
            fs,
            seq![],
            Err(ErrorView::Io(message)),
        ),
{
    let path = fs_path::joined(root, requested);
    lemma_climb_over_names(fs_sandbox::search_for(path), path.len(), at, fs);
    sandbox_laws::law_path_is_resolved_first(root, goal, requested, fs);
}

/// A link in the root to a path that does not exist is looked into: where the nearest
/// path to its target that exists lies in the root, the path of the link is accepted
/// as it is; where it lies outside, the path is refused with it.
pub proof fn law_link_to_nothing_is_looked_into(
    root: Seq<Part>,
    name: Seq<u8>,
    target: Seq<Part>,
    at: nat,
    canonical: Seq<Part>,
    fs: Answers,
)
    requires
        sandbox_laws::answering(fs),
        root.len() > 0,
        fs(CallView::Exists(root)) == ReplyView::Flag(true),
        fs(CallView::Canonicalize(root)) == ReplyView::Path(root),
        ({
            let link = root.push(Part::Name(name));
            let place = fs_path::seen_from(root, target);
            &&& fs(CallView::Exists(link)) == ReplyView::Flag(false)
            &&& fs(CallView::ReadLink(link)) == ReplyView::Link(Some(target))
            &&& only_new_names(place, at as int, fs)
            &&& fs(CallView::Exists(place.take(at as int))) == ReplyView::Flag(true)
            &&& fs(CallView::Canonicalize(place.take(at as int))) == ReplyView::Path(canonical)
        }),
    ensures
        sandbox_laws::ends(
            fs_sandbox::started(root, GoalView::Resolve, seq![Part::Name(name)]),
            fs,
            seq![],
            if lies_in(root, canonical) {
                Ok(OutcomeView::Path(root.push(Part::Name(name))))
            } else {
                Err(ErrorView::PathEscape(canonical))
            },
        ),
{
    let requested = seq![Part::Name(name)];
    let path = fs_path::joined(root, requested);
    let link = root.push(Part::Name(name));
    let place = fs_path::seen_from(root, target);
    fs_path::lemma_cleaned_names(root, requested);
    assert(path =~= link);
    let n = root.len();
    let search = fs_sandbox::search_for(path);
    assert(path.take((n + 1) as int) =~= link);
    assert(path.take(n as int) =~= root);
    let longer = search.with_link(n + 1, target);
    assert(longer.targets =~= seq![place]);
    reveal_with_fuel(sandbox_laws::climb, 2);
    assert(sandbox_laws::climb(search, n + 1, fs) == (Climb::At { search: longer, depth: n }));
    path_laws::law_inside_is_told_by_components(root, root);
    path_laws::law_inside_is_told_by_components(root, canonical);
    assert(root + path.skip(n as int) =~= link);
    let next = longer.next(link);
    assert(next.targets =~= seq![]);
    lemma_climb_over_names(next, place.len(), at, fs);
    assert(sandbox_laws::climb(next, at, fs) == (Climb::At { search: next, depth: at }));
    reveal_with_fuel(sandbox_laws::examine, 3);
    sandbox_laws::law_resolve(root, requested, fs);
}

/// Of links that lead to nothing forty are looked into, each at the place that it
/// points to from where it stands; with one more the path is refused.
pub proof fn law_forty_links_are_looked_into(
    root: Seq<Part>,
    goal: GoalView,
    search: SearchView,
    depth: nat,
    target: Seq<Part>,
)
    requires
        0 < depth <= search.candidate.len(),
    ensures
        (StageView::Peek { goal, search, depth }).next(root, ReplyView::Link(Some(target)))
            == if search.links < 40 {
            StageView::Probe {
                goal,
                search: SearchView {
                    safe: search.safe,
                    candidate: search.candidate,
                    targets: search.targets.push(
                        fs_path::seen_from(search.candidate.take(depth - 1), target),
                    ),
                    links: search.links + 1,
                },
                depth: (depth - 1) as nat,
            }
        } else {
            StageView::Finished(Err(ErrorView::Io("too many levels of symbolic links"@)))
        },
{
}

/// A call that fails ends the operation, wherever it stands, with what the system
/// says.
pub proof fn law_failed_call_ends_the_operation(op: OperationView, message: Seq<char>)
    requires
        !(op.stage is Finished),
    ensures
        op.stage.call() is Some,
        op.step(ReplyView::Failed(message)).stage == StageView::Finished(
            Err(ErrorView::Io(message)),
        ),
{
}

/// Which answers fit which calls: whether there is something, and whether it is a
/// directory, is always told; any other call may fail, and otherwise gives what it
/// asks for.
pub proof fn law_answers_fit_their_calls(
    path: Seq<Part>,
    other: Seq<Part>,
    bytes: Seq<u8>,
    reply: ReplyView,
)
    ensures
        fs_sandbox::answers(reply, CallView::Exists(path)) <==> reply is Flag,
        fs_sandbox::answers(reply, CallView::IsDir(path)) <==> reply is Flag,
        fs_sandbox::answers(reply, CallView::Canonicalize(path)) <==> reply is Path
            || reply is Failed,
        fs_sandbox::answers(reply, CallView::ReadLink(path)) <==> reply is Link || reply is Failed,
        fs_sandbox::answers(reply, CallView::Read(path)) <==> reply is Bytes || reply is Failed,
        fs_sandbox::answers(reply, CallView::ReadDir(path)) <==> reply is Names || reply is Failed,
        fs_sandbox::answers(reply, CallView::Write(path, bytes)) <==> reply is Done
            || reply is Failed,
        fs_sandbox::answers(reply, CallView::CreateDirAll(path)) <==> reply is Done
            || reply is Failed,
        fs_sandbox::answers(reply, CallView::RemoveDirAll(path)) <==> reply is Done
            || reply is Failed,
        fs_sandbox::answers(reply, CallView::RemoveFile(path)) <==> reply is Done
            || reply is Failed,
        fs_sandbox::answers(reply, CallView::Rename(path, other)) <==> reply is Done
            || reply is Failed,
{
}

/// What an error says: its cause, with the path as it is written on the platform, or
/// the words of the system.
pub proof fn law_sandbox_errors_say_their_cause(
    path: Seq<Part>,
    words: Seq<char>,
    separator: u8,
)
    ensures
        fs_sandbox::error_message(ErrorView::PathEscape(path), separator)
            == "path escapes sandbox root: "@ + text::lossy_text(
            fs_path::written(path, separator),
        ),
        fs_sandbox::error_message(ErrorView::Io(words), separator) == "io error: "@ + words,
        fs_sandbox::error_message(ErrorView::NotYetCreated(path), separator)
            == "path does not exist yet, cannot canonicalize: "@ + text::lossy_text(
            fs_path::written(path, separator),
        ),
{
}

} // verus!
