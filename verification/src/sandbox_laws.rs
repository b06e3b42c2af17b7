//! What an operation on the sandbox comes to, as a whole, for any answers that
//! the file system may give.

use crate::fs_path;
use crate::fs_path::Part;
use crate::fs_sandbox;
use crate::fs_sandbox::{
    CallView, ErrorView, GoalView, OpeningView, OperationView, OutcomeView, ReplyView, SearchView,
    StageView,
};
use vstd::prelude::*;

verus! {

/// The answers that a file system gives to calls.
pub type Answers = spec_fn(CallView) -> ReplyView;

/// Every answer is one to its call.
pub open spec fn answering(fs: Answers) -> bool {
    forall|call: CallView| fs_sandbox::answers(#[trigger] fs(call), call)
}

/// The operation after `n` calls.
pub open spec fn after(op: OperationView, fs: Answers, n: nat) -> OperationView
    decreases n,
{
    if n == 0 {
        op
    } else {
        match op.stage.call() {
            None => op,
            Some(call) => after(op.step(fs(call)), fs, (n - 1) as nat),
        }
    }
}

/// The call changes the file system.
pub open spec fn is_change(call: CallView) -> bool {
    match call {
        CallView::Write(_, _) => true,
        CallView::CreateDirAll(_) => true,
        CallView::RemoveDirAll(_) => true,
        CallView::RemoveFile(_) => true,
        CallView::Rename(_, _) => true,
        _ => false,
    }
}

/// The calls among the first `n` that change the file system.
pub open spec fn changes(op: OperationView, fs: Answers, n: nat) -> Seq<CallView>
    decreases n,
{
    if n == 0 {
        seq![]
    } else {
        match op.stage.call() {
            None => seq![],
            Some(call) => {
                let others = changes(op.step(fs(call)), fs, (n - 1) as nat);
                if is_change(call) {
                    seq![call] + others
                } else {
                    others
                }
            },
        }
    }
}

/// The operation comes to a stage, having made those changes.
pub open spec fn comes_to(
    op: OperationView,
    fs: Answers,
    made: Seq<CallView>,
    stage: StageView,
) -> bool {
    exists|n: nat| #[trigger]
        after(op, fs, n) == (OperationView { root: op.root, stage }) && changes(op, fs, n) == made
}

proof fn lemma_here(op: OperationView, fs: Answers)
    ensures
        comes_to(op, fs, seq![], op.stage),
{
    assert(after(op, fs, 0) == op);
    assert(changes(op, fs, 0) =~= seq![]);
}

/// One call.
proof fn lemma_one_call(op: OperationView, fs: Answers)
    requires
        op.stage.call() is Some,
    ensures
        ({
            let call = op.stage.call()->0;
            comes_to(
                op,
                fs,
                if is_change(call) {
                    seq![call]
                } else {
                    seq![]
                },
                op.stage.next(op.root, fs(call)),
            )
        }),
{
    reveal_with_fuel(after, 2);
    reveal_with_fuel(changes, 2);
    let call = op.stage.call()->0;
    assert(after(op, fs, 1) == op.step(fs(call)));
    assert(changes(op, fs, 1) =~= if is_change(call) {
        seq![call]
    } else {
        seq![]
    });
}

proof fn lemma_split(op: OperationView, fs: Answers, n: nat, m: nat)
    ensures
        after(op, fs, n + m) == after(after(op, fs, n), fs, m),
        changes(op, fs, n + m) == changes(op, fs, n) + changes(after(op, fs, n), fs, m),
    decreases n,
{
    if n == 0 {
        assert(changes(op, fs, n + m) =~= changes(op, fs, n) + changes(after(op, fs, n), fs, m));
    } else {
        match op.stage.call() {
            None => {
                assert(changes(op, fs, m) =~= seq![]);
                assert(after(op, fs, m) == op);
            },
            Some(call) => {
                lemma_split(op.step(fs(call)), fs, (n - 1) as nat, m);
                assert((n + m - 1) as nat == (n - 1) as nat + m);
                assert(changes(op, fs, n + m) =~= changes(op, fs, n) + changes(
                    after(op, fs, n),
                    fs,
                    m,
                ));
            },
        }
    }
}

/// One run behind another.
proof fn lemma_then(
    op: OperationView,
    fs: Answers,
    made: Seq<CallView>,
    stage: StageView,
    more: Seq<CallView>,
    last: StageView,
)
    requires
        comes_to(op, fs, made, stage),
        comes_to(OperationView { root: op.root, stage }, fs, more, last),
    ensures
        comes_to(op, fs, made + more, last),
{
    let mid = OperationView { root: op.root, stage };
    let n = choose|n: nat| #[trigger] after(op, fs, n) == mid && changes(op, fs, n) == made;
    let m = choose|m: nat| #[trigger]
        after(mid, fs, m) == (OperationView { root: op.root, stage: last }) && changes(mid, fs, m)
            == more;
    lemma_split(op, fs, n, m);
    assert(after(op, fs, n + m) == (OperationView { root: op.root, stage: last }));
}

// ---- Resolution ----------------------------------------------------------

/// How many components of the candidate make the nearest path that exists, going
/// up from the first `depth` over names only.
pub open spec fn nearest_existing(candidate: Seq<Part>, depth: nat, fs: Answers) -> Option<nat>
    decreases depth,
{
    if fs(CallView::Exists(candidate.take(depth as int))) == ReplyView::Flag(true) {
        Some(depth)
    } else if depth > 0 && candidate[depth - 1] is Name {
        nearest_existing(candidate, (depth - 1) as nat, fs)
    } else {
        None
    }
}

/// How the way up from a path ends.
pub enum Climb {
    /// At a path that exists, with the links met on the way noted down.
    At { search: SearchView, depth: nat },
    /// With an error.
    Stopped(ErrorView),
}

/// The way up from the first `depth` components of the candidate to the nearest
/// path that exists: every name that leads to nothing is asked for being a link.
pub open spec fn climb(search: SearchView, depth: nat, fs: Answers) -> Climb
    decreases depth,
{
    let here = search.candidate.take(depth as int);
    if fs(CallView::Exists(here)) == ReplyView::Flag(true) {
        Climb::At { search, depth }
    } else if depth > 0 && search.candidate[depth - 1] is Name {
        let above = (depth - 1) as nat;
        match fs(CallView::ReadLink(here)) {
            ReplyView::Failed(message) => Climb::Stopped(ErrorView::Io(message)),
            ReplyView::Link(Some(target)) => if search.links < fs_sandbox::MAX_LINKS {
                climb(search.with_link(depth, target), above, fs)
            } else {
                Climb::Stopped(ErrorView::Io(fs_sandbox::too_many_links()))
            },
            _ => climb(search, above, fs),
        }
    } else {
        Climb::Stopped(ErrorView::NotYetCreated(search.candidate))
    }
}

/// How many paths a search may still look into.
pub open spec fn room(search: SearchView) -> nat {
    search.targets.len() + if search.links < fs_sandbox::MAX_LINKS {
        (fs_sandbox::MAX_LINKS - search.links) as nat
    } else {
        0
    }
}

/// On the way up only targets are added, as many as links are met.
pub proof fn lemma_climb(search: SearchView, depth: nat, fs: Answers)
    ensures
        climb(search, depth, fs) matches Climb::At { search: found, depth: at } ==> {
            &&& at <= depth
            &&& found.safe == search.safe
            &&& found.candidate == search.candidate
            &&& found.targets.len() - search.targets.len() == found.links - search.links
            &&& found.links >= search.links
            &&& search.targets.is_prefix_of(found.targets)
            &&& room(found) == room(search)
            &&& nearest_existing(search.candidate, depth, fs) == Some(at)
            &&& found.links > search.links ==> found.links <= fs_sandbox::MAX_LINKS
        },
    decreases depth,
{
    let here = search.candidate.take(depth as int);
    if fs(CallView::Exists(here)) == ReplyView::Flag(true) {
        assert(search.targets =~= search.targets.take(search.targets.len() as int));
    } else if depth > 0 && search.candidate[depth - 1] is Name {
        let above = (depth - 1) as nat;
        match fs(CallView::ReadLink(here)) {
            ReplyView::Link(Some(target)) => {
                let longer = search.with_link(depth, target);
                lemma_climb(longer, above, fs);
                if let Climb::At { search: found, .. } = climb(longer, above, fs) {
                    assert(search.targets =~= found.targets.take(search.targets.len() as int)) by {
                        let n = longer.targets.len() as int;
                        assert forall|i: int| 0 <= i < search.targets.len() implies search.targets[i]
                            == found.targets[i] by {
                            assert(longer.targets[i] == found.targets.take(n)[i]);
                        }
                    }
                }
            },
            _ => {
                lemma_climb(search, above, fs);
            },
        }
    }
}

/// Where a path leads, or why it is refused: the nearest path that exists is
/// canonicalised and has to lie in the root, and so has each target of a link
/// among the names behind it, with the links among the names behind that.
pub open spec fn examine(root: Seq<Part>, search: SearchView, fs: Answers) -> Result<
    Seq<Part>,
    ErrorView,
>
    decreases room(search),
{
    proof {
        lemma_climb(search, search.candidate.len(), fs);
    }
    match climb(search, search.candidate.len(), fs) {
        Climb::Stopped(error) => Err(error),
        Climb::At { search: found, depth } => match fs(
            CallView::Canonicalize(found.candidate.take(depth as int)),
        ) {
            ReplyView::Path(canonical) => if fs_sandbox::inside(root, canonical) {
                let safe = found.leading_to(canonical + found.candidate.skip(depth as int));
                if found.targets.len() == 0 {
                    Ok(safe)
                } else {
                    examine(root, found.next(safe), fs)
                }
            } else {
                Err(ErrorView::PathEscape(canonical))
            },
            ReplyView::Failed(message) => Err(ErrorView::Io(message)),
            _ => Err(ErrorView::Io(seq![])),
        },
    }
}

/// The path in the sandbox that a requested path leads to, or why there is none.
pub open spec fn leads_to(root: Seq<Part>, requested: Seq<Part>, fs: Answers) -> Result<
    Seq<Part>,
    ErrorView,
> {
    let candidate = fs_sandbox::requested_path(root, requested);
    examine(root, fs_sandbox::search_for(candidate), fs)
}

/// The stage behind a resolution.
pub open spec fn concluded(
    root: Seq<Part>,
    goal: GoalView,
    resolved: Result<Seq<Part>, ErrorView>,
) -> StageView {
    match resolved {
        Ok(safe) => fs_sandbox::resolved_stage(root, goal, safe),
        Err(error) => StageView::Finished(Err(error)),
    }
}

/// The stage at the end of a way up.
spec fn climbed(goal: GoalView, end: Climb) -> StageView {
    match end {
        Climb::Stopped(error) => StageView::Finished(Err(error)),
        Climb::At { search, depth } => StageView::Settle { goal, search, depth },
    }
}

proof fn lemma_probe(
    root: Seq<Part>,
    goal: GoalView,
    search: SearchView,
    depth: nat,
    fs: Answers,
)
    requires
        answering(fs),
    ensures
        comes_to(
            OperationView { root, stage: StageView::Probe { goal, search, depth } },
            fs,
            seq![],
            climbed(goal, climb(search, depth, fs)),
        ),
    decreases depth,
{
    let op = OperationView { root, stage: StageView::Probe { goal, search, depth } };
    let here = search.candidate.take(depth as int);
    let ask = CallView::Exists(here);
    assert(op.stage.call() == Some(ask));
    assert(fs_sandbox::answers(fs(ask), ask));
    lemma_one_call(op, fs);
    if fs(ask) != ReplyView::Flag(true) && depth > 0 && search.candidate[depth - 1] is Name {
        let peek = OperationView { root, stage: StageView::Peek { goal, search, depth } };
        let look = CallView::ReadLink(here);
        assert(peek.stage.call() == Some(look));
        assert(fs_sandbox::answers(fs(look), look));
        lemma_one_call(peek, fs);
        assert(Seq::<CallView>::empty() + Seq::<CallView>::empty() =~= seq![]);
        let last = climbed(goal, climb(search, depth, fs));
        let next = peek.stage.next(root, fs(look));
        if let StageView::Probe { goal: _, search: longer, depth: above } = next {
            lemma_probe(root, goal, longer, above, fs);
            lemma_then(peek, fs, seq![], next, seq![], last);
        }
        lemma_then(op, fs, seq![], peek.stage, seq![], last);
    }
}

proof fn lemma_examine(root: Seq<Part>, goal: GoalView, search: SearchView, fs: Answers)
    requires
        answering(fs),
    ensures
        comes_to(
            OperationView {
                root,
                stage: StageView::Probe { goal, search, depth: search.candidate.len() },
            },
            fs,
            seq![],
            concluded(root, goal, examine(root, search, fs)),
        ),
    decreases room(search),
{
    let depth = search.candidate.len();
    let op = OperationView { root, stage: StageView::Probe { goal, search, depth } };
    lemma_probe(root, goal, search, depth, fs);
    lemma_climb(search, depth, fs);
    assert(Seq::<CallView>::empty() + Seq::<CallView>::empty() =~= seq![]);
    if let Climb::At { search: found, depth: at } = climb(search, depth, fs) {
        let stage = StageView::Settle { goal, search: found, depth: at };
        let settle = OperationView { root, stage };
        let call = CallView::Canonicalize(found.candidate.take(at as int));
        assert(settle.stage.call() == Some(call));
        assert(fs_sandbox::answers(fs(call), call));
        lemma_one_call(settle, fs);
        let last = concluded(root, goal, examine(root, search, fs));
        let next = settle.stage.next(root, fs(call));
        if let ReplyView::Path(canonical) = fs(call) {
            if fs_sandbox::inside(root, canonical) && found.targets.len() > 0 {
                let safe = found.leading_to(canonical + found.candidate.skip(at as int));
                lemma_examine(root, goal, found.next(safe), fs);
                lemma_then(settle, fs, seq![], next, seq![], last);
            }
        }
        lemma_then(op, fs, seq![], settle.stage, seq![], last);
    }
}

/// Before an operation does anything with a path, it resolves it (see `examine`);
/// where the path is refused, the operation ends with the error. Either way
/// nothing has been changed until then.
pub proof fn law_path_is_resolved_first(
    root: Seq<Part>,
    goal: GoalView,
    requested: Seq<Part>,
    fs: Answers,
)
    requires
        answering(fs),
    ensures
        comes_to(
            fs_sandbox::started(root, goal, requested),
            fs,
            seq![],
            concluded(root, goal, leads_to(root, requested, fs)),
        ),
{
    let candidate = fs_sandbox::requested_path(root, requested);
    lemma_examine(root, goal, fs_sandbox::search_for(candidate), fs);
}

/// A search that knows where the path leads keeps to it, and one that does not
/// learns it from its candidate.
proof fn lemma_examined(root: Seq<Part>, search: SearchView, fs: Answers)
    requires
        examine(root, search, fs) is Ok,
    ensures
        match search.safe {
            Some(known) => examine(root, search, fs)->Ok_0 == known,
            None => examine(root, search, fs)->Ok_0 == own_place(search.candidate, fs),
        },
        nearest_existing(search.candidate, search.candidate.len(), fs) is Some,
        fs(nearest_call(search.candidate, fs)) matches ReplyView::Path(canonical)
            && fs_sandbox::inside(root, canonical),
    decreases room(search),
{
    lemma_climb(search, search.candidate.len(), fs);
    if let Climb::At { search: found, depth } = climb(search, search.candidate.len(), fs) {
        if found.targets.len() > 0 {
            let canonical = fs(
                CallView::Canonicalize(found.candidate.take(depth as int)),
            )->Path_0;
            let safe = found.leading_to(canonical + found.candidate.skip(depth as int));
            lemma_examined(root, found.next(safe), fs);
        }
    }
}

/// The call that canonicalises the nearest existing path.
pub open spec fn nearest_call(candidate: Seq<Part>, fs: Answers) -> CallView {
    let depth = nearest_existing(candidate, candidate.len(), fs)->0;
    CallView::Canonicalize(candidate.take(depth as int))
}

/// The canonical path of the nearest existing path, with the names behind it.
pub open spec fn own_place(candidate: Seq<Part>, fs: Answers) -> Seq<Part> {
    let depth = nearest_existing(candidate, candidate.len(), fs)->0;
    fs(nearest_call(candidate, fs))->Path_0 + candidate.skip(depth as int)
}

/// A resolved path is the canonical path of the nearest path that exists, with
/// the names behind it put back.
pub proof fn law_names_are_put_back(root: Seq<Part>, requested: Seq<Part>, fs: Answers)
    requires
        leads_to(root, requested, fs) is Ok,
    ensures
        leads_to(root, requested, fs)->Ok_0 == own_place(
            fs_sandbox::requested_path(root, requested),
            fs,
        ),
        ({
            let candidate = fs_sandbox::requested_path(root, requested);
            &&& nearest_existing(candidate, candidate.len(), fs) is Some
            &&& fs(nearest_call(candidate, fs)) is Path
        }),
{
    let candidate = fs_sandbox::requested_path(root, requested);
    lemma_examined(root, fs_sandbox::search_for(candidate), fs);
}

/// A path that is resolved lies in the root.
pub proof fn law_resolved_path_lies_in_root(root: Seq<Part>, requested: Seq<Part>, fs: Answers)
    requires
        leads_to(root, requested, fs) is Ok,
    ensures
        fs_sandbox::inside(root, leads_to(root, requested, fs)->Ok_0),
{
    let candidate = fs_sandbox::requested_path(root, requested);
    lemma_examined(root, fs_sandbox::search_for(candidate), fs);
    let depth = nearest_existing(candidate, candidate.len(), fs)->0;
    let canonical = fs(nearest_call(candidate, fs))->Path_0;
    fs_sandbox::lemma_inside_longer(root, canonical, candidate.skip(depth as int));
}

// ---- Links to nothing ----------------------------------------------------

/// The nearest existing path lies in the root once links are followed, and every
/// link among the names behind it leads to a path of which the same holds.
/// `fuel` bounds how many links are followed one after the other.
pub open spec fn stays_inside(
    root: Seq<Part>,
    candidate: Seq<Part>,
    fs: Answers,
    fuel: nat,
) -> bool
    decreases fuel,
{
    &&& fuel > 0
    &&& nearest_existing(candidate, candidate.len(), fs) is Some
    &&& fs(nearest_call(candidate, fs)) matches ReplyView::Path(canonical)
    &&& fs_sandbox::inside(root, canonical)
    &&& forall|i: int|
        nearest_existing(candidate, candidate.len(), fs)->0 < i <= candidate.len() ==> {
            fs(CallView::ReadLink(#[trigger] candidate.take(i))) matches ReplyView::Link(
                Some(target),
            ) ==> stays_inside(
                root,
                fs_path::seen_from(candidate.take(i - 1), target),
                fs,
                (fuel - 1) as nat,
            )
        }
}

proof fn lemma_more_fuel(root: Seq<Part>, candidate: Seq<Part>, fs: Answers, less: nat, more: nat)
    requires
        stays_inside(root, candidate, fs, less),
        less <= more,
    ensures
        stays_inside(root, candidate, fs, more),
    decreases less,
{
    let depth = nearest_existing(candidate, candidate.len(), fs)->0;
    assert forall|i: int| depth < i <= candidate.len() implies {
        fs(CallView::ReadLink(#[trigger] candidate.take(i))) matches ReplyView::Link(Some(target))
            ==> stays_inside(
            root,
            fs_path::seen_from(candidate.take(i - 1), target),
            fs,
            (more - 1) as nat,
        )
    } by {
        if let ReplyView::Link(Some(target)) = fs(CallView::ReadLink(candidate.take(i))) {
            lemma_more_fuel(
                root,
                fs_path::seen_from(candidate.take(i - 1), target),
                fs,
                (less - 1) as nat,
                (more - 1) as nat,
            );
        }
    }
}

/// Every link on the way up is noted down with its target.
proof fn lemma_links_noted(search: SearchView, depth: nat, fs: Answers, i: int, target: Seq<Part>)
    requires
        depth <= search.candidate.len(),
        climb(search, depth, fs) is At,
        climb(search, depth, fs)->depth < i <= depth,
        fs(CallView::ReadLink(search.candidate.take(i))) == ReplyView::Link(Some(target)),
    ensures
        climb(search, depth, fs)->search.links > search.links,
        climb(search, depth, fs)->search.targets.contains(
            fs_path::seen_from(search.candidate.take(i - 1), target),
        ),
    decreases depth,
{
    let here = search.candidate.take(depth as int);
    let place = fs_path::seen_from(search.candidate.take(i - 1), target);
    let above = (depth - 1) as nat;
    let longer = match fs(CallView::ReadLink(here)) {
        ReplyView::Link(Some(t)) => search.with_link(depth, t),
        _ => search,
    };
    lemma_climb(longer, above, fs);
    let found = climb(longer, above, fs)->search;
    if i == depth {
        let n = longer.targets.len() as int;
        assert(longer.targets[n - 1] == place);
        assert(found.targets.take(n)[n - 1] == place);
        assert(found.targets[n - 1] == place);
    } else {
        lemma_links_noted(longer, above, fs, i, target);
    }
}

proof fn lemma_examined_stays_inside(root: Seq<Part>, search: SearchView, fs: Answers)
    requires
        examine(root, search, fs) is Ok,
        search.links <= fs_sandbox::MAX_LINKS,
    ensures
        ({
            let fuel = (fs_sandbox::MAX_LINKS - search.links + 1) as nat;
            &&& stays_inside(root, search.candidate, fs, fuel)
            &&& forall|k: int|
                0 <= k < search.targets.len() ==> stays_inside(
                    root,
                    #[trigger] search.targets[k],
                    fs,
                    fuel,
                )
        }),
    decreases room(search),
{
    let candidate = search.candidate;
    let fuel = (fs_sandbox::MAX_LINKS - search.links + 1) as nat;
    lemma_examined(root, search, fs);
    lemma_climb(search, candidate.len(), fs);
    let end = climb(search, candidate.len(), fs);
    let found = end->search;
    let depth = end->depth;
    let later = (fs_sandbox::MAX_LINKS - found.links + 1) as nat;
    if found.targets.len() > 0 {
        let canonical = fs(CallView::Canonicalize(found.candidate.take(depth as int)))->Path_0;
        let safe = found.leading_to(canonical + found.candidate.skip(depth as int));
        let next = found.next(safe);
        lemma_examined_stays_inside(root, next, fs);
        assert forall|k: int| 0 <= k < found.targets.len() implies stays_inside(
            root,
            #[trigger] found.targets[k],
            fs,
            later,
        ) by {
            if k < next.targets.len() {
                assert(next.targets[k] == found.targets[k]);
            } else {
                assert(next.candidate == found.targets[k]);
            }
        }
    }
    assert forall|i: int| depth < i <= candidate.len() implies {
        fs(CallView::ReadLink(#[trigger] candidate.take(i))) matches ReplyView::Link(Some(target))
            ==> stays_inside(
            root,
            fs_path::seen_from(candidate.take(i - 1), target),
            fs,
            (fuel - 1) as nat,
        )
    } by {
        if let ReplyView::Link(Some(target)) = fs(CallView::ReadLink(candidate.take(i))) {
            lemma_links_noted(search, candidate.len(), fs, i, target);
            let place = fs_path::seen_from(candidate.take(i - 1), target);
            let k = choose|k: int| 0 <= k < found.targets.len() && found.targets[k] == place;
            assert(stays_inside(root, found.targets[k], fs, later));
            lemma_more_fuel(root, place, fs, later, (fuel - 1) as nat);
        }
    }
    assert forall|k: int| 0 <= k < search.targets.len() implies stays_inside(
        root,
        #[trigger] search.targets[k],
        fs,
        fuel,
    ) by {
        assert(search.targets[k] == found.targets.take(search.targets.len() as int)[k]);
        assert(stays_inside(root, found.targets[k], fs, later));
        lemma_more_fuel(root, found.targets[k], fs, later, fuel);
    }
}

/// Where a path is resolved, no link leads out of the root: neither the links up
/// to the nearest path that exists, nor a link to nothing among the names that
/// are put back behind it, nor a link that such a link leads to.
pub proof fn law_no_link_leads_outside(root: Seq<Part>, requested: Seq<Part>, fs: Answers)
    requires
        leads_to(root, requested, fs) is Ok,
    ensures
        stays_inside(
            root,
            fs_sandbox::requested_path(root, requested),
            fs,
            (fs_sandbox::MAX_LINKS + 1) as nat,
        ),
{
    let candidate = fs_sandbox::requested_path(root, requested);
    lemma_examined_stays_inside(root, fs_sandbox::search_for(candidate), fs);
}

/// Whatever was to be done with it, a path that does not stay inside is refused,
/// and nothing is changed.
pub proof fn law_path_that_leads_outside_is_refused(
    root: Seq<Part>,
    goal: GoalView,
    requested: Seq<Part>,
    fs: Answers,
)
    requires
        answering(fs),
        !stays_inside(
            root,
            fs_sandbox::requested_path(root, requested),
            fs,
            (fs_sandbox::MAX_LINKS + 1) as nat,
        ),
    ensures
        exists|error: ErrorView| #[trigger]
            ends(fs_sandbox::started(root, goal, requested), fs, seq![], Err(error)),
{
    law_path_is_resolved_first(root, goal, requested, fs);
    if leads_to(root, requested, fs) is Ok {
        law_no_link_leads_outside(root, requested, fs);
    }
    let error = leads_to(root, requested, fs)->Err_0;
    assert(ends(fs_sandbox::started(root, goal, requested), fs, seq![], Err(error)));
}

/// Where none of the names behind the nearest existing path is a link, the way up
/// adds nothing.
proof fn lemma_climb_without_links(search: SearchView, depth: nat, at: nat, fs: Answers)
    requires
        nearest_existing(search.candidate, depth, fs) == Some(at),
        forall|i: int|
            at < i <= depth ==> fs(CallView::ReadLink(#[trigger] search.candidate.take(i)))
                == ReplyView::Link(None),
    ensures
        climb(search, depth, fs) == (Climb::At { search, depth: at }),
    decreases depth,
{
    if fs(CallView::Exists(search.candidate.take(depth as int))) != ReplyView::Flag(true) {
        lemma_nearest_is_above(search.candidate, (depth - 1) as nat, fs);
        assert(fs(CallView::ReadLink(search.candidate.take(depth as int))) == ReplyView::Link(
            None,
        ));
        lemma_climb_without_links(search, (depth - 1) as nat, at, fs);
    }
}

proof fn lemma_nearest_is_above(candidate: Seq<Part>, depth: nat, fs: Answers)
    ensures
        nearest_existing(candidate, depth, fs) matches Some(at) ==> at <= depth,
    decreases depth,
{
    if depth > 0 {
        lemma_nearest_is_above(candidate, (depth - 1) as nat, fs);
    }
}

/// A link in the root to a path outside that does not exist is an escape, with
/// what the nearest path to its target that exists leads to.
pub proof fn law_link_to_nothing_outside_is_an_escape(
    root: Seq<Part>,
    goal: GoalView,
    name: Seq<u8>,
    target: Seq<Part>,
    at: nat,
    canonical: Seq<Part>,
    fs: Answers,
)
    requires
        answering(fs),
        root.len() > 0,
        fs(CallView::Exists(root)) == ReplyView::Flag(true),
        fs(CallView::Canonicalize(root)) == ReplyView::Path(root),
        ({
            let link = root.push(Part::Name(name));
            let place = fs_path::seen_from(root, target);
            &&& fs(CallView::Exists(link)) == ReplyView::Flag(false)
            &&& fs(CallView::ReadLink(link)) == ReplyView::Link(Some(target))
            &&& nearest_existing(place, place.len(), fs) == Some(at)
            &&& forall|i: int|
                at < i <= place.len() ==> fs(CallView::ReadLink(#[trigger] place.take(i)))
                    == ReplyView::Link(None)
            &&& fs(CallView::Canonicalize(place.take(at as int))) == ReplyView::Path(canonical)
        }),
        !fs_sandbox::inside(root, canonical),
    ensures
        ends(
            fs_sandbox::started(root, goal, seq![Part::Name(name)]),
            fs,
            seq![],
            Err(ErrorView::PathEscape(canonical)),
        ),
{
    let requested = seq![Part::Name(name)];
    let candidate = fs_sandbox::requested_path(root, requested);
    let link = root.push(Part::Name(name));
    let place = fs_path::seen_from(root, target);
    fs_path::lemma_cleaned_names(root, requested);
    assert(candidate =~= link);
    let n = root.len();
    let search = fs_sandbox::search_for(candidate);
    assert(candidate.take((n + 1) as int) =~= link);
    assert(candidate.take(n as int) =~= root);
    let longer = search.with_link(n + 1, target);
    assert(longer.targets =~= seq![place]);
    reveal_with_fuel(climb, 2);
    assert(climb(search, n + 1, fs) == (Climb::At { search: longer, depth: n }));
    assert(root.take(root.len() as int) =~= root);
    let safe = longer.leading_to(root + candidate.skip(n as int));
    let next = longer.next(safe);
    lemma_climb_without_links(next, place.len(), at, fs);
    reveal_with_fuel(examine, 3);
    law_path_is_resolved_first(root, goal, requested, fs);
}

// ---- What is known of resolved paths -------------------------------------

/// Nothing exists from the first `stop` components of the candidate to the first
/// `depth`, and what stands before is no name that could be put back.
pub open spec fn is_dead_end(candidate: Seq<Part>, depth: nat, stop: int, fs: Answers) -> bool {
    &&& 0 <= stop <= depth
    &&& stop > 0 ==> !(candidate[stop - 1] is Name)
    &&& forall|i: int| stop <= i < depth ==> (#[trigger] candidate[i]) is Name
    &&& forall|i: int|
        stop <= i <= depth ==> fs(CallView::Exists(#[trigger] candidate.take(i)))
            != ReplyView::Flag(true)
}

/// The nearest existing path exists, and behind it stand only names, with which
/// nothing exists; where there is none, the way up ends at something else than a
/// name.
pub proof fn law_nearest_existing(candidate: Seq<Part>, depth: nat, fs: Answers)
    requires
        depth <= candidate.len(),
    ensures
        match nearest_existing(candidate, depth, fs) {
            Some(found) => {
                &&& found <= depth
                &&& fs(CallView::Exists(candidate.take(found as int))) == ReplyView::Flag(true)
                &&& forall|i: int| found <= i < depth ==> (#[trigger] candidate[i]) is Name
                &&& forall|i: int|
                    found < i <= depth ==> fs(CallView::Exists(#[trigger] candidate.take(i)))
                        != ReplyView::Flag(true)
            },
            None => exists|stop: int| #[trigger] is_dead_end(candidate, depth, stop, fs),
        },
    decreases depth,
{
    let here = fs(CallView::Exists(candidate.take(depth as int))) == ReplyView::Flag(true);
    if !here {
        if depth > 0 && candidate[depth - 1] is Name {
            law_nearest_existing(candidate, (depth - 1) as nat, fs);
            if nearest_existing(candidate, depth, fs) is None {
                let stop = choose|stop: int| #[trigger]
                    is_dead_end(candidate, (depth - 1) as nat, stop, fs);
                assert(is_dead_end(candidate, depth, stop, fs));
            }
        } else {
            assert(is_dead_end(candidate, depth, depth as int, fs));
        }
    }
}

/// A path has no `..`.
pub open spec fn is_straight(path: Seq<Part>) -> bool {
    forall|i: int| 0 <= i < path.len() ==> (#[trigger] path[i]) != Part::Up
}

/// Where canonical paths have no `..`, no resolved path has one, whatever was
/// requested.
pub proof fn law_resolved_path_has_no_dotdot(root: Seq<Part>, requested: Seq<Part>, fs: Answers)
    requires
        forall|path: Seq<Part>, canonical: Seq<Part>|
            fs(CallView::Canonicalize(path)) == ReplyView::Path(canonical) ==> is_straight(
                canonical,
            ),
        leads_to(root, requested, fs) is Ok,
    ensures
        is_straight(leads_to(root, requested, fs)->Ok_0),
{
    let candidate = fs_sandbox::requested_path(root, requested);
    law_nearest_existing(candidate, candidate.len(), fs);
    law_names_are_put_back(root, requested, fs);
    lemma_examined(root, fs_sandbox::search_for(candidate), fs);
    let depth = nearest_existing(candidate, candidate.len(), fs)->0;
    let canonical = fs(CallView::Canonicalize(candidate.take(depth as int)))->Path_0;
    assert(fs(CallView::Canonicalize(candidate.take(depth as int))) == ReplyView::Path(canonical));
    assert(is_straight(canonical));
    let safe = canonical + candidate.skip(depth as int);
    assert forall|i: int| 0 <= i < safe.len() implies (#[trigger] safe[i]) != Part::Up by {
        if i < canonical.len() {
            assert(safe[i] == canonical[i]);
        } else {
            assert(safe[i] == candidate[i - canonical.len() + depth]);
        }
    }
}

/// A relative path of names leads to itself, seen from the root, where the root
/// exists and no symbolic link is met.
pub proof fn law_ordinary_path_leads_to_itself(
    root: Seq<Part>,
    requested: Seq<Part>,
    fs: Answers,
)
    requires
        root.len() > 0,
        forall|i: int| 0 <= i < requested.len() ==> (#[trigger] requested[i]) is Name,
        fs(CallView::Exists(root)) == ReplyView::Flag(true),
        forall|n: int|
            root.len() <= n <= root.len() + requested.len() && fs(
                CallView::Exists(#[trigger] (root + requested).take(n)),
            ) == ReplyView::Flag(true) ==> fs(CallView::Canonicalize((root + requested).take(n)))
                == ReplyView::Path((root + requested).take(n)),
        forall|n: int|
            root.len() < n <= root.len() + requested.len() ==> fs(
                CallView::ReadLink(#[trigger] (root + requested).take(n)),
            ) == ReplyView::Link(None),
    ensures
        leads_to(root, requested, fs) == Ok::<Seq<Part>, ErrorView>(root + requested),
{
    let candidate = fs_sandbox::requested_path(root, requested);
    assert(candidate =~= root + requested) by {
        if requested.len() > 0 {
            assert(requested[0] is Name);
        }
        fs_path::lemma_cleaned_names(root, requested);
    }
    lemma_nearest_below(root, requested, candidate.len(), fs);
    let depth = nearest_existing(candidate, candidate.len(), fs)->0 as int;
    let search = fs_sandbox::search_for(candidate);
    lemma_climb_without_links(search, candidate.len(), depth as nat, fs);
    assert(fs_sandbox::inside(root, candidate.take(depth))) by {
        assert(candidate.take(depth).take(root.len() as int) =~= root);
    }
    assert(candidate.take(depth) + candidate.skip(depth) =~= candidate);
}

proof fn lemma_nearest_below(root: Seq<Part>, requested: Seq<Part>, depth: nat, fs: Answers)
    requires
        root.len() <= depth <= root.len() + requested.len(),
        forall|i: int| 0 <= i < requested.len() ==> (#[trigger] requested[i]) is Name,
        fs(CallView::Exists(root)) == ReplyView::Flag(true),
    ensures
        nearest_existing(root + requested, depth, fs) matches Some(found) && root.len() <= found
            <= depth && fs(CallView::Exists((root + requested).take(found as int)))
            == ReplyView::Flag(true),
    decreases depth,
{
    let candidate = root + requested;
    if depth == root.len() {
        assert(candidate.take(depth as int) =~= root);
    } else {
        assert(candidate[depth - 1] == requested[depth - 1 - root.len()]);
        lemma_nearest_below(root, requested, (depth - 1) as nat, fs);
    }
}

// ---- Resolving again -----------------------------------------------------

/// The parts go on from a path: names and `..`.
pub open spec fn is_onward(parts: Seq<Part>) -> bool {
    forall|i: int| 0 <= i < parts.len() ==> (#[trigger] parts[i]) is Name || parts[i] is Up
}

/// `canonical` is the canonical path of `path`.
pub open spec fn is_canonical(fs: Answers, path: Seq<Part>, canonical: Seq<Part>) -> bool {
    fs(CallView::Canonicalize(path)) == ReplyView::Path(canonical)
}

/// The link at `path` points to `target`.
pub open spec fn points_to(fs: Answers, path: Seq<Part>, target: Seq<Part>) -> bool {
    fs(CallView::ReadLink(path)) == ReplyView::Link(Some(target))
}

/// The file system does not tell two paths apart: whatever goes on from the one
/// is found from the other too.
pub open spec fn same_place(fs: Answers, a: Seq<Part>, b: Seq<Part>) -> bool {
    forall|w: Seq<Part>| #[trigger]
        is_onward(w) ==> {
            &&& fs(CallView::Exists(a + w)) == fs(CallView::Exists(b + w))
            &&& fs(CallView::Canonicalize(a + w)) == fs(CallView::Canonicalize(b + w))
            &&& w.len() > 0 ==> fs(CallView::ReadLink(a + w)) == fs(CallView::ReadLink(b + w))
        }
}

/// Canonical paths stand for the paths that they are the canonical paths of, and
/// links point to paths, which name their drive or share where there are any.
pub open spec fn is_coherent(fs: Answers) -> bool {
    &&& forall|path: Seq<Part>, canonical: Seq<Part>| #[trigger]
        is_canonical(fs, path, canonical) ==> fs_path::is_whole(canonical) && same_place(
            fs,
            path,
            canonical,
        )
    &&& forall|path: Seq<Part>, target: Seq<Part>| #[trigger]
        points_to(fs, path, target) ==> {
            &&& fs_path::is_path(target)
            &&& fs_path::has_root(target) && fs_path::has_prefix(path) ==> fs_path::has_prefix(
                target,
            )
        }
}

/// The paths are the same, or go on in the same way from `q` and from `c`.
spec fn alike(q: Seq<Part>, c: Seq<Part>, a: Seq<Part>, b: Seq<Part>) -> bool {
    a == b || exists|w: Seq<Part>| #[trigger] is_onward(w) && a == q + w && b == c + w
}

spec fn all_alike(q: Seq<Part>, c: Seq<Part>, a: Seq<Seq<Part>>, b: Seq<Seq<Part>>) -> bool {
    &&& a.len() == b.len()
    &&& forall|k: int| 0 <= k < a.len() ==> alike(q, c, #[trigger] a[k], b[k])
}

/// Two searches that know the same and have like targets.
spec fn searches_alike(q: Seq<Part>, c: Seq<Part>, a: SearchView, b: SearchView) -> bool {
    &&& a.safe == b.safe
    &&& a.links == b.links
    &&& all_alike(q, c, a.targets, b.targets)
}

/// The same candidate is climbed in the same way.
proof fn lemma_climb_same(
    q: Seq<Part>,
    c: Seq<Part>,
    a: SearchView,
    b: SearchView,
    depth: nat,
    fs: Answers,
)
    requires
        a.candidate == b.candidate,
        searches_alike(q, c, a, b),
        climb(a, depth, fs) is At,
    ensures
        climb(b, depth, fs) is At,
        climb(b, depth, fs)->depth == climb(a, depth, fs)->depth,
        searches_alike(q, c, climb(a, depth, fs)->search, climb(b, depth, fs)->search),
    decreases depth,
{
    let here = a.candidate.take(depth as int);
    if fs(CallView::Exists(here)) != ReplyView::Flag(true) {
        let above = (depth - 1) as nat;
        if let ReplyView::Link(Some(t)) = fs(CallView::ReadLink(here)) {
            let (la, lb) = (a.with_link(depth, t), b.with_link(depth, t));
            assert forall|k: int| 0 <= k < la.targets.len() implies alike(
                q,
                c,
                #[trigger] la.targets[k],
                lb.targets[k],
            ) by {
                if k < a.targets.len() {
                    assert(alike(q, c, a.targets[k], b.targets[k]));
                }
            }
            lemma_climb_same(q, c, la, lb, above, fs);
        } else {
            lemma_climb_same(q, c, a, b, above, fs);
        }
    }
}

/// What goes on from a path is climbed as what goes on from its canonical path.
proof fn lemma_climb_onward(
    q: Seq<Part>,
    c: Seq<Part>,
    w: Seq<Part>,
    a: SearchView,
    b: SearchView,
    j: nat,
    fs: Answers,
)
    requires
        is_coherent(fs),
        is_canonical(fs, q, c),
        q.len() > 0,
        fs(CallView::Exists(q)) == ReplyView::Flag(true),
        is_onward(w),
        j <= w.len(),
        a.candidate == q + w,
        b.candidate == c + w,
        searches_alike(q, c, a, b),
        climb(a, q.len() + j, fs) is At,
    ensures
        climb(b, c.len() + j, fs) is At,
        climb(a, q.len() + j, fs)->depth >= q.len(),
        climb(b, c.len() + j, fs)->depth - c.len() == climb(a, q.len() + j, fs)->depth - q.len(),
        searches_alike(q, c, climb(a, q.len() + j, fs)->search, climb(b, c.len() + j, fs)->search),
    decreases j,
{
    let v = w.take(j as int);
    assert forall|i: int| 0 <= i < v.len() implies (#[trigger] v[i]) is Name || v[i] is Up by {
        assert(w[i] is Name || w[i] is Up);
    }
    assert(is_onward(v));
    assert(same_place(fs, q, c));
    let da = q.len() + j;
    let db = c.len() + j;
    assert(a.candidate.take(da as int) =~= q + v);
    assert(b.candidate.take(db as int) =~= c + v);
    if fs(CallView::Exists(q + v)) != ReplyView::Flag(true) {
        if j == 0 {
            assert(q + v =~= q);
        }
        assert(a.candidate[da - 1] == w[j - 1]);
        assert(b.candidate[db - 1] == w[j - 1]);
        assert((da - 1) as nat == q.len() + (j - 1) as nat);
        assert((db - 1) as nat == c.len() + (j - 1) as nat);
        if let ReplyView::Link(Some(t)) = fs(CallView::ReadLink(q + v)) {
            let (la, lb) = (a.with_link(da, t), b.with_link(db, t));
            let u = w.take(j - 1);
            assert(a.candidate.take(da - 1) =~= q + u);
            assert(b.candidate.take(db - 1) =~= c + u);
            assert(points_to(fs, q + v, t));
            assert(points_to(fs, c + v, t));
            lemma_targets_alike(q, c, u, t);
            assert forall|k: int| 0 <= k < la.targets.len() implies alike(
                q,
                c,
                #[trigger] la.targets[k],
                lb.targets[k],
            ) by {
                if k < a.targets.len() {
                    assert(alike(q, c, a.targets[k], b.targets[k]));
                }
            }
            lemma_climb_onward(q, c, w, la, lb, (j - 1) as nat, fs);
        } else {
            lemma_climb_onward(q, c, w, a, b, (j - 1) as nat, fs);
        }
    }
}

proof fn lemma_targets_alike(q: Seq<Part>, c: Seq<Part>, u: Seq<Part>, t: Seq<Part>)
    requires
        q.len() > 0,
        c.len() > 0,
        forall|i: int| 0 <= i < u.len() ==> (#[trigger] u[i]) is Name || u[i] is Up,
        fs_path::is_path(t),
        fs_path::has_root(t) && !fs_path::has_prefix(t) ==> !fs_path::has_prefix(q)
            && !fs_path::has_prefix(c),
    ensures
        alike(q, c, fs_path::seen_from(q + u, t), fs_path::seen_from(c + u, t)),
{
    if !fs_path::has_prefix(t) && fs_path::has_root(t) {
        assert(fs_path::seen_from(q + u, t) =~= t);
        assert(fs_path::seen_from(c + u, t) =~= t);
    } else if !fs_path::has_prefix(t) {
        let tail = if t.len() > 0 && t[0] == Part::Here {
            t.skip(1)
        } else {
            t
        };
        let from = t.len() - tail.len();
        let w = u + tail;
        assert forall|i: int| 0 <= i < w.len() implies (#[trigger] w[i]) is Name || w[i] is Up by {
            if i < u.len() {
                assert(w[i] == u[i]);
            } else {
                let k = i - u.len() + from;
                assert(w[i] == t[k]);
                assert(fs_path::is_part(t[k], k, fs_path::lead(t)));
            }
        }
        assert(is_onward(w));
        assert(fs_path::seen_from(q + u, t) =~= q + w);
        assert(fs_path::seen_from(c + u, t) =~= c + w);
    }
}

proof fn lemma_examine_alike(
    root: Seq<Part>,
    q: Seq<Part>,
    c: Seq<Part>,
    a: SearchView,
    b: SearchView,
    fs: Answers,
)
    requires
        is_coherent(fs),
        is_canonical(fs, q, c),
        q.len() > 0,
        fs(CallView::Exists(q)) == ReplyView::Flag(true),
        alike(q, c, a.candidate, b.candidate),
        searches_alike(q, c, a, b),
        examine(root, a, fs) is Ok,
    ensures
        examine(root, b, fs) == examine(root, a, fs),
    decreases room(a),
{
    let (na, nb) = (a.candidate.len(), b.candidate.len());
    lemma_climb(a, na, fs);
    lemma_climb(b, nb, fs);
    if a.candidate == b.candidate {
        lemma_climb_same(q, c, a, b, na, fs);
    } else {
        let w = choose|w: Seq<Part>| #[trigger]
            is_onward(w) && a.candidate == q + w && b.candidate == c + w;
        lemma_climb_onward(q, c, w, a, b, w.len(), fs);
        let j = climb(a, na, fs)->depth - q.len();
        let v = w.take(j);
        assert forall|i: int| 0 <= i < v.len() implies (#[trigger] v[i]) is Name || v[i] is Up by {
            assert(w[i] is Name || w[i] is Up);
        }
        assert(is_onward(v));
        assert(same_place(fs, q, c));
        assert(a.candidate.take(q.len() + j) =~= q + v);
        assert(b.candidate.take(c.len() + j) =~= c + v);
        assert(a.candidate.skip(q.len() + j) =~= w.skip(j));
        assert(b.candidate.skip(c.len() + j) =~= w.skip(j));
    }
    let (fa, fb) = (climb(a, na, fs)->search, climb(b, nb, fs)->search);
    let (da, db) = (climb(a, na, fs)->depth, climb(b, nb, fs)->depth);
    let canonical = fs(CallView::Canonicalize(fa.candidate.take(da as int)))->Path_0;
    if fa.targets.len() > 0 {
        let safe = fa.leading_to(canonical + fa.candidate.skip(da as int));
        let (xa, xb) = (fa.next(safe), fb.next(safe));
        assert(alike(q, c, fa.targets[fa.targets.len() - 1], fb.targets[fa.targets.len() - 1]));
        assert forall|k: int| 0 <= k < xa.targets.len() implies alike(
            q,
            c,
            #[trigger] xa.targets[k],
            xb.targets[k],
        ) by {
            assert(alike(q, c, fa.targets[k], fb.targets[k]));
        }
        lemma_examine_alike(root, q, c, xa, xb, fs);
    }
}

/// A resolved path resolves to itself, as long as nothing changes.
pub proof fn law_resolved_path_resolves_to_itself(
    root: Seq<Part>,
    requested: Seq<Part>,
    safe: Seq<Part>,
    fs: Answers,
)
    requires
        is_coherent(fs),
        fs_path::is_whole(root),
        leads_to(root, requested, fs) == Ok::<Seq<Part>, ErrorView>(safe),
    ensures
        leads_to(root, safe, fs) == Ok::<Seq<Part>, ErrorView>(safe),
{
    let candidate = fs_sandbox::requested_path(root, requested);
    let search = fs_sandbox::search_for(candidate);
    lemma_examined(root, search, fs);
    law_nearest_existing(candidate, candidate.len(), fs);
    let depth = nearest_existing(candidate, candidate.len(), fs)->0 as int;
    let q = candidate.take(depth);
    let c = fs(nearest_call(candidate, fs))->Path_0;
    let w = candidate.skip(depth);
    assert(is_canonical(fs, q, c));
    assert forall|i: int| 0 <= i < w.len() implies (#[trigger] w[i]) is Name || w[i] is Up by {
        assert(w[i] == candidate[i + depth]);
    }
    assert(is_onward(w));
    assert(candidate =~= q + w);
    assert(safe == c + w);
    assert(safe[0] == c[0]);
    assert(c.take(root.len() as int)[0] == root[0]);
    assert(fs_sandbox::requested_path(root, safe) =~= safe);
    let again = fs_sandbox::search_for(safe);
    assert(alike(q, c, candidate, safe));
    if depth == 0 {
        // The path starts with a prefix or the root, and neither is a name.
        fs_path::lemma_joined_start(root, requested);
        assert(candidate[0] is Name);
    }
    lemma_examine_alike(root, q, c, search, again, fs);
}

/// A relative path and the same path seen from the root lead to the same.
pub proof fn law_request_from_the_root(root: Seq<Part>, requested: Seq<Part>, fs: Answers)
    requires
        fs_path::is_whole(root),
    ensures
        leads_to(root, fs_path::joined(root, requested), fs) == leads_to(root, requested, fs),
{
    let path = fs_path::joined(root, requested);
    fs_path::lemma_joined_start(root, requested);
    assert(fs_path::joined(root, path) =~= path);
}

// ---- The operations ------------------------------------------------------

/// What a call that only has to be done comes to.
pub open spec fn done_result(reply: ReplyView) -> Result<OutcomeView, ErrorView> {
    match reply {
        ReplyView::Failed(message) => Err(ErrorView::Io(message)),
        _ => Ok(OutcomeView::Done),
    }
}

/// The operation ends with a result, having made those changes.
pub open spec fn ends(
    op: OperationView,
    fs: Answers,
    made: Seq<CallView>,
    result: Result<OutcomeView, ErrorView>,
) -> bool {
    comes_to(op, fs, made, StageView::Finished(result))
}

/// A path that does not resolve is refused, whatever was to be done with it, and
/// nothing is changed.
pub proof fn law_unresolved_path_is_refused(
    root: Seq<Part>,
    goal: GoalView,
    requested: Seq<Part>,
    fs: Answers,
)
    requires
        answering(fs),
        leads_to(root, requested, fs) is Err,
    ensures
        ends(
            fs_sandbox::started(root, goal, requested),
            fs,
            seq![],
            Err(leads_to(root, requested, fs)->Err_0),
        ),
{
    law_path_is_resolved_first(root, goal, requested, fs);
}

/// A path that leads out of the root is refused with what it leads to.
pub proof fn law_escape_is_refused(
    root: Seq<Part>,
    goal: GoalView,
    requested: Seq<Part>,
    canonical: Seq<Part>,
    fs: Answers,
)
    requires
        answering(fs),
        ({
            let candidate = fs_sandbox::requested_path(root, requested);
            climb(fs_sandbox::search_for(candidate), candidate.len(), fs) matches Climb::At {
                search,
                depth,
            } && fs(CallView::Canonicalize(candidate.take(depth as int))) == ReplyView::Path(
                canonical,
            )
        }),
        !fs_sandbox::inside(root, canonical),
    ensures
        ends(
            fs_sandbox::started(root, goal, requested),
            fs,
            seq![],
            Err(ErrorView::PathEscape(canonical)),
        ),
{
    let candidate = fs_sandbox::requested_path(root, requested);
    lemma_climb(fs_sandbox::search_for(candidate), candidate.len(), fs);
    law_path_is_resolved_first(root, goal, requested, fs);
}

/// Resolving gives the path in the sandbox, and changes nothing.
pub proof fn law_resolve(root: Seq<Part>, requested: Seq<Part>, fs: Answers)
    requires
        answering(fs),
    ensures
        ends(
            fs_sandbox::started(root, GoalView::Resolve, requested),
            fs,
            seq![],
            match leads_to(root, requested, fs) {
                Ok(safe) => Ok(OutcomeView::Path(safe)),
                Err(error) => Err(error),
            },
        ),
{
    law_path_is_resolved_first(root, GoalView::Resolve, requested, fs);
}

/// One more call behind a resolution.
proof fn lemma_resolve_then(
    root: Seq<Part>,
    goal: GoalView,
    requested: Seq<Part>,
    fs: Answers,
    more: Seq<CallView>,
    last: StageView,
)
    requires
        answering(fs),
        leads_to(root, requested, fs) is Ok,
        comes_to(
            OperationView {
                root,
                stage: fs_sandbox::resolved_stage(root, goal, leads_to(root, requested, fs)->Ok_0),
            },
            fs,
            more,
            last,
        ),
    ensures
        comes_to(fs_sandbox::started(root, goal, requested), fs, more, last),
{
    law_path_is_resolved_first(root, goal, requested, fs);
    let stage = fs_sandbox::resolved_stage(root, goal, leads_to(root, requested, fs)->Ok_0);
    lemma_then(fs_sandbox::started(root, goal, requested), fs, seq![], stage, more, last);
    assert(seq![] + more =~= more);
}

/// Reading gives the content of the file that the path leads to, and changes
/// nothing.
pub proof fn law_read_file(root: Seq<Part>, requested: Seq<Part>, safe: Seq<Part>, fs: Answers)
    requires
        answering(fs),
        leads_to(root, requested, fs) == Ok::<Seq<Part>, ErrorView>(safe),
    ensures
        ends(
            fs_sandbox::started(root, GoalView::Read, requested),
            fs,
            seq![],
            match fs(CallView::Read(safe)) {
                ReplyView::Bytes(bytes) => Ok(OutcomeView::Contents(bytes)),
                reply => done_result(reply),
            },
        ),
{
    let call = CallView::Read(safe);
    let op = OperationView { root, stage: StageView::Reading(safe) };
    assert(op.stage.call() == Some(call));
    assert(fs_sandbox::answers(fs(call), call));
    lemma_one_call(op, fs);
    lemma_resolve_then(
        root,
        GoalView::Read,
        requested,
        fs,
        seq![],
        op.stage.next(root, fs(call)),
    );
}

/// Writing makes the directory above the file that the path leads to and then
/// writes the bytes there; it changes nothing else.
pub proof fn law_write_file(
    root: Seq<Part>,
    requested: Seq<Part>,
    contents: Seq<u8>,
    safe: Seq<Part>,
    fs: Answers,
)
    requires
        answering(fs),
        leads_to(root, requested, fs) == Ok::<Seq<Part>, ErrorView>(safe),
    ensures
        ({
            let op = fs_sandbox::started(root, GoalView::Write(contents), requested);
            let write = CallView::Write(safe, contents);
            match fs_path::parent(safe) {
                None => ends(op, fs, seq![write], done_result(fs(write))),
                Some(parent) => {
                    let make = CallView::CreateDirAll(parent);
                    match fs(make) {
                        ReplyView::Failed(message) => ends(
                            op,
                            fs,
                            seq![make],
                            Err(ErrorView::Io(message)),
                        ),
                        _ => ends(op, fs, seq![make, write], done_result(fs(write))),
                    }
                },
            }
        }),
{
    let goal = GoalView::Write(contents);
    let write = CallView::Write(safe, contents);
    let writing = OperationView { root, stage: StageView::Writing(safe, contents) };
    assert(writing.stage.call() == Some(write));
    assert(fs_sandbox::answers(fs(write), write));
    lemma_one_call(writing, fs);
    let last = StageView::Finished(done_result(fs(write)));
    assert(writing.stage.next(root, fs(write)) == last);
    match fs_path::parent(safe) {
        None => {
            lemma_resolve_then(root, goal, requested, fs, seq![write], last);
        },
        Some(parent) => {
            let make = CallView::CreateDirAll(parent);
            let making = OperationView { root, stage: StageView::MakingParent(safe, contents) };
            assert(making.stage.call() == Some(make));
            assert(fs_sandbox::answers(fs(make), make));
            lemma_one_call(making, fs);
            match fs(make) {
                ReplyView::Failed(message) => {
                    lemma_resolve_then(
                        root,
                        goal,
                        requested,
                        fs,
                        seq![make],
                        StageView::Finished(Err(ErrorView::Io(message))),
                    );
                },
                _ => {
                    lemma_then(making, fs, seq![make], writing.stage, seq![write], last);
                    assert(seq![make] + seq![write] =~= seq![make, write]);
                    lemma_resolve_then(root, goal, requested, fs, seq![make, write], last);
                },
            }
        },
    }
}

/// What was written is read back. `before` answers while the file is written,
/// and no change fails; `later` answers while it is read. By then the requested
/// path exists and leads to the file that the one write call named, and reading
/// that file gives the bytes that the call was given.
pub proof fn law_written_file_reads_back(
    root: Seq<Part>,
    requested: Seq<Part>,
    contents: Seq<u8>,
    safe: Seq<Part>,
    before: Answers,
    later: Answers,
)
    requires
        answering(before),
        answering(later),
        leads_to(root, requested, before) == Ok::<Seq<Part>, ErrorView>(safe),
        forall|call: CallView| is_change(call) ==> !((#[trigger] before(call)) is Failed),
        ({
            let candidate = fs_sandbox::requested_path(root, requested);
            &&& later(CallView::Exists(candidate)) == ReplyView::Flag(true)
            &&& later(CallView::Canonicalize(candidate)) == ReplyView::Path(safe)
        }),
        later(CallView::Read(safe)) == ReplyView::Bytes(contents),
    ensures
        ends(
            fs_sandbox::started(root, GoalView::Write(contents), requested),
            before,
            match fs_path::parent(safe) {
                Some(parent) => seq![
                    CallView::CreateDirAll(parent),
                    CallView::Write(safe, contents),
                ],
                None => seq![CallView::Write(safe, contents)],
            },
            Ok(OutcomeView::Done),
        ),
        ends(
            fs_sandbox::started(root, GoalView::Read, requested),
            later,
            seq![],
            Ok(OutcomeView::Contents(contents)),
        ),
{
    law_write_file(root, requested, contents, safe, before);
    assert(!(before(CallView::Write(safe, contents)) is Failed));
    if fs_path::parent(safe) is Some {
        assert(!(before(CallView::CreateDirAll(fs_path::parent(safe)->0)) is Failed));
    }
    law_resolved_path_lies_in_root(root, requested, before);
    let candidate = fs_sandbox::requested_path(root, requested);
    assert(candidate.take(candidate.len() as int) =~= candidate);
    assert(safe + candidate.skip(candidate.len() as int) =~= safe);
    let search = fs_sandbox::search_for(candidate);
    assert(climb(search, candidate.len(), later) == (Climb::At { search, depth: candidate.len() }));
    law_read_file(root, requested, safe, later);
}

/// Making a directory makes the one that the path leads to; nothing else is
/// changed.
pub proof fn law_create_dir(root: Seq<Part>, requested: Seq<Part>, safe: Seq<Part>, fs: Answers)
    requires
        answering(fs),
        leads_to(root, requested, fs) == Ok::<Seq<Part>, ErrorView>(safe),
    ensures
        ends(
            fs_sandbox::started(root, GoalView::CreateDir, requested),
            fs,
            seq![CallView::CreateDirAll(safe)],
            done_result(fs(CallView::CreateDirAll(safe))),
        ),
{
    let call = CallView::CreateDirAll(safe);
    let op = OperationView { root, stage: StageView::MakingDir(safe) };
    assert(op.stage.call() == Some(call));
    assert(fs_sandbox::answers(fs(call), call));
    lemma_one_call(op, fs);
    lemma_resolve_then(
        root,
        GoalView::CreateDir,
        requested,
        fs,
        seq![call],
        op.stage.next(root, fs(call)),
    );
}

/// Deleting removes what the path leads to: a directory with all in it, anything
/// else as a file. Nothing else is changed.
pub proof fn law_delete(root: Seq<Part>, requested: Seq<Part>, safe: Seq<Part>, fs: Answers)
    requires
        answering(fs),
        leads_to(root, requested, fs) == Ok::<Seq<Part>, ErrorView>(safe),
    ensures
        ({
            let call = if fs(CallView::IsDir(safe)) == ReplyView::Flag(true) {
                CallView::RemoveDirAll(safe)
            } else {
                CallView::RemoveFile(safe)
            };
            ends(
                fs_sandbox::started(root, GoalView::Delete, requested),
                fs,
                seq![call],
                done_result(fs(call)),
            )
        }),
{
    let ask = CallView::IsDir(safe);
    let is_dir = fs(ask) == ReplyView::Flag(true);
    let call = if is_dir {
        CallView::RemoveDirAll(safe)
    } else {
        CallView::RemoveFile(safe)
    };
    let asking = OperationView { root, stage: StageView::Inspecting(safe) };
    assert(asking.stage.call() == Some(ask));
    assert(fs_sandbox::answers(fs(ask), ask));
    lemma_one_call(asking, fs);
    let removing = asking.step(fs(ask));
    assert(removing.stage.call() == Some(call));
    assert(fs_sandbox::answers(fs(call), call));
    lemma_one_call(removing, fs);
    let last = StageView::Finished(done_result(fs(call)));
    assert(removing.stage.next(root, fs(call)) == last);
    lemma_then(asking, fs, seq![], removing.stage, seq![call], last);
    assert(seq![] + seq![call] =~= seq![call]);
    lemma_resolve_then(root, GoalView::Delete, requested, fs, seq![call], last);
}

/// A rename resolves both paths before it changes anything, the old one first;
/// where either is refused, nothing is renamed.
pub proof fn law_rename(root: Seq<Part>, from: Seq<Part>, to: Seq<Part>, fs: Answers)
    requires
        answering(fs),
    ensures
        ({
            let op = fs_sandbox::started(root, GoalView::RenameFrom(to), from);
            match (leads_to(root, from, fs), leads_to(root, to, fs)) {
                (Err(error), _) => ends(op, fs, seq![], Err(error)),
                (Ok(_), Err(error)) => ends(op, fs, seq![], Err(error)),
                (Ok(old_path), Ok(new_path)) => {
                    let call = CallView::Rename(old_path, new_path);
                    ends(op, fs, seq![call], done_result(fs(call)))
                },
            }
        }),
{
    let goal = GoalView::RenameFrom(to);
    law_path_is_resolved_first(root, goal, from, fs);
    if let Ok(old_path) = leads_to(root, from, fs) {
        let second = GoalView::RenameTo(old_path);
        law_path_is_resolved_first(root, second, to, fs);
        match leads_to(root, to, fs) {
            Err(error) => {
                lemma_resolve_then(
                    root,
                    goal,
                    from,
                    fs,
                    seq![],
                    StageView::Finished(Err(error)),
                );
            },
            Ok(new_path) => {
                let call = CallView::Rename(old_path, new_path);
                let op = OperationView { root, stage: StageView::Renaming(old_path, new_path) };
                assert(op.stage.call() == Some(call));
                assert(fs_sandbox::answers(fs(call), call));
                lemma_one_call(op, fs);
                let last = StageView::Finished(done_result(fs(call)));
                assert(op.stage.next(root, fs(call)) == last);
                lemma_resolve_then(root, second, to, fs, seq![call], last);
                lemma_resolve_then(root, goal, from, fs, seq![call], last);
            },
        }
    }
}

// ---- Containment ---------------------------------------------------------

/// The paths that a call names, other than to ask whether and where they lead.
pub open spec fn acts_on(call: CallView) -> Seq<Seq<Part>> {
    match call {
        CallView::Exists(_) => seq![],
        CallView::Canonicalize(_) => seq![],
        CallView::ReadLink(_) => seq![],
        CallView::IsDir(p) => seq![p],
        CallView::Read(p) => seq![p],
        CallView::Write(p, _) => seq![p],
        CallView::CreateDirAll(p) => seq![p],
        CallView::RemoveDirAll(p) => seq![p],
        CallView::RemoveFile(p) => seq![p],
        CallView::Rename(p, q) => seq![p, q],
        CallView::ReadDir(p) => seq![p],
    }
}

/// Every call of an operation names paths in the root alone. The one path that
/// may be named beside them is the parent of the root, as a directory that has
/// to exist, where the root itself is requested as a file to write.
pub proof fn law_calls_stay_inside(op: OperationView, call: CallView)
    requires
        op.well_formed(),
        op.stage.call() == Some(call),
    ensures
        forall|i: int|
            0 <= i < acts_on(call).len() ==> {
                ||| fs_sandbox::inside(op.root, #[trigger] acts_on(call)[i])
                ||| call is CreateDirAll && fs_path::parent(op.root) == Some(acts_on(call)[i])
            },
{
    if let StageView::MakingParent(file, _) = op.stage {
        let root = op.root;
        let parent = fs_path::parent(file)->0;
        assert(parent == file.drop_last());
        if file.len() == root.len() {
            assert(file.take(root.len() as int) =~= file);
            assert(file =~= root);
        } else {
            assert(parent.take(root.len() as int) =~= file.take(root.len() as int));
        }
    }
}

/// However long an operation runs, it keeps to the root.
pub proof fn law_runs_stay_inside(op: OperationView, fs: Answers, n: nat)
    requires
        op.well_formed(),
        answering(fs),
    ensures
        after(op, fs, n).well_formed(),
    decreases n,
{
    if n > 0 {
        if let Some(call) = op.stage.call() {
            assert(fs_sandbox::answers(fs(call), call));
            fs_sandbox::law_operations_stay_inside(op, fs(call));
            law_runs_stay_inside(op.step(fs(call)), fs, (n - 1) as nat);
        }
    }
}

/// An operation keeps to the root from its start.
pub proof fn law_operations_start_inside(root: Seq<Part>, goal: GoalView, requested: Seq<Part>)
    requires
        !(goal is RenameTo),
    ensures
        fs_sandbox::started(root, goal, requested).well_formed(),
{
}

// ---- Listings ------------------------------------------------------------

/// A directory tree.
pub enum Tree {
    File,
    Dir(Seq<Node>),
}

/// An entry of a directory in a tree.
pub struct Node {
    pub name: Seq<u8>,
    pub tree: Tree,
}

/// The names of entries.
pub open spec fn names_of(entries: Seq<Node>) -> Seq<Seq<u8>> {
    entries.map_values(|e: Node| e.name)
}

/// The paths of the files of a tree that stands at `path`, depth first.
pub open spec fn leaves(path: Seq<Part>, tree: Tree) -> Seq<Seq<Part>>
    decreases tree,
{
    match tree {
        Tree::File => seq![path],
        Tree::Dir(entries) => leaves_below(path, entries),
    }
}

/// The paths of the files in the entries of a directory.
pub open spec fn leaves_below(dir: Seq<Part>, entries: Seq<Node>) -> Seq<Seq<Part>>
    decreases entries,
{
    if entries.len() == 0 {
        seq![]
    } else {
        leaves(dir.push(Part::Name(entries[0].name)), entries[0].tree) + leaves_below(
            dir,
            entries.skip(1),
        )
    }
}

/// The file system shows the tree at `path`.
pub open spec fn shows(fs: Answers, path: Seq<Part>, tree: Tree) -> bool
    decreases tree,
{
    match tree {
        Tree::File => fs(CallView::IsDir(path)) == ReplyView::Flag(false),
        Tree::Dir(entries) => {
            &&& fs(CallView::IsDir(path)) == ReplyView::Flag(true)
            &&& fs(CallView::ReadDir(path)) == ReplyView::Names(names_of(entries))
            &&& shows_below(fs, path, entries)
        },
    }
}

/// The file system shows the entries in the directory.
pub open spec fn shows_below(fs: Answers, dir: Seq<Part>, entries: Seq<Node>) -> bool
    decreases entries,
{
    entries.len() > 0 ==> {
        &&& shows(fs, dir.push(Part::Name(entries[0].name)), entries[0].tree)
        &&& shows_below(fs, dir, entries.skip(1))
    }
}

proof fn lemma_visit(
    root: Seq<Part>,
    found: Seq<Seq<Part>>,
    path: Seq<Part>,
    tree: Tree,
    rest: Seq<Seq<Part>>,
    fs: Answers,
)
    requires
        shows(fs, path, tree),
    ensures
        comes_to(
            OperationView { root, stage: StageView::Visiting { found, path, rest } },
            fs,
            seq![],
            fs_sandbox::visit_next(root, found + leaves(path, tree), rest),
        ),
    decreases tree,
{
    let op = OperationView { root, stage: StageView::Visiting { found, path, rest } };
    let ask = CallView::IsDir(path);
    assert(op.stage.call() == Some(ask));
    lemma_one_call(op, fs);
    match tree {
        Tree::File => {
            assert(found.push(path) =~= found + leaves(path, tree));
        },
        Tree::Dir(entries) => {
            let listing = op.step(fs(ask));
            let read = CallView::ReadDir(path);
            assert(listing.stage.call() == Some(read));
            lemma_one_call(listing, fs);
            let going = listing.step(fs(read));
            let last = fs_sandbox::visit_next(root, found + leaves(path, tree), rest);
            lemma_list(root, found, path, entries, rest, fs);
            assert(Seq::<CallView>::empty() + Seq::<CallView>::empty() =~= seq![]);
            lemma_then(listing, fs, seq![], going.stage, seq![], last);
            lemma_then(op, fs, seq![], listing.stage, seq![], last);
        },
    }
}

proof fn lemma_list(
    root: Seq<Part>,
    found: Seq<Seq<Part>>,
    dir: Seq<Part>,
    entries: Seq<Node>,
    rest: Seq<Seq<Part>>,
    fs: Answers,
)
    requires
        shows_below(fs, dir, entries),
    ensures
        comes_to(
            OperationView {
                root,
                stage: fs_sandbox::visit_next(
                    root,
                    found,
                    fs_sandbox::children(dir, names_of(entries)) + rest,
                ),
            },
            fs,
            seq![],
            fs_sandbox::visit_next(root, found + leaves_below(dir, entries), rest),
        ),
    decreases entries,
{
    let pending = fs_sandbox::children(dir, names_of(entries)) + rest;
    let stage = fs_sandbox::visit_next(root, found, pending);
    let op = OperationView { root, stage };
    if entries.len() == 0 {
        assert(pending =~= rest);
        assert(found + leaves_below(dir, entries) =~= found);
        lemma_here(op, fs);
    } else {
        let path = dir.push(Part::Name(entries[0].name));
        let tree = entries[0].tree;
        let others = entries.skip(1);
        let behind = fs_sandbox::children(dir, names_of(others)) + rest;
        assert(pending[0] == path);
        assert(pending.skip(1) =~= behind);
        lemma_visit(root, found, path, tree, behind, fs);
        let more = found + leaves(path, tree);
        lemma_list(root, more, dir, others, rest, fs);
        let next = fs_sandbox::visit_next(root, more, behind);
        let last = fs_sandbox::visit_next(root, more + leaves_below(dir, others), rest);
        lemma_then(op, fs, seq![], next, seq![], last);
        assert(Seq::<CallView>::empty() + Seq::<CallView>::empty() =~= seq![]);
        assert(more + leaves_below(dir, others) =~= found + leaves_below(dir, entries));
    }
}

/// A listing gives every file of the directory tree once, depth first, by its
/// path from the root, and changes nothing.
pub proof fn law_list_files(
    root: Seq<Part>,
    requested: Seq<Part>,
    safe: Seq<Part>,
    entries: Seq<Node>,
    fs: Answers,
)
    requires
        answering(fs),
        leads_to(root, requested, fs) == Ok::<Seq<Part>, ErrorView>(safe),
        fs(CallView::ReadDir(safe)) == ReplyView::Names(names_of(entries)),
        shows_below(fs, safe, entries),
    ensures
        ends(
            fs_sandbox::started(root, GoalView::List, requested),
            fs,
            seq![],
            Ok(
                OutcomeView::Files(
                    leaves_below(safe, entries).map_values(
                        |p: Seq<Part>| fs_path::relative_to(root, p),
                    ),
                ),
            ),
        ),
{
    let none = Seq::<Seq<Part>>::empty();
    let stage = StageView::Listing { found: none, dir: safe, rest: none };
    let op = OperationView { root, stage };
    let read = CallView::ReadDir(safe);
    assert(op.stage.call() == Some(read));
    lemma_one_call(op, fs);
    let going = op.step(fs(read));
    lemma_list(root, none, safe, entries, none, fs);
    assert(none + leaves_below(safe, entries) =~= leaves_below(safe, entries));
    let last = fs_sandbox::visit_next(root, leaves_below(safe, entries), none);
    lemma_then(op, fs, seq![], going.stage, seq![], last);
    assert(Seq::<CallView>::empty() + Seq::<CallView>::empty() =~= seq![]);
    lemma_resolve_then(root, GoalView::List, requested, fs, seq![], last);
}

/// A directory that cannot be read ends the listing with the failure.
pub proof fn law_list_files_fails(
    root: Seq<Part>,
    requested: Seq<Part>,
    safe: Seq<Part>,
    message: Seq<char>,
    fs: Answers,
)
    requires
        answering(fs),
        leads_to(root, requested, fs) == Ok::<Seq<Part>, ErrorView>(safe),
        fs(CallView::ReadDir(safe)) == ReplyView::Failed(message),
    ensures
        ends(
            fs_sandbox::started(root, GoalView::List, requested),
            fs,
            seq![],
            Err(ErrorView::Io(message)),
        ),
{
    let none = Seq::<Seq<Part>>::empty();
    let stage = StageView::Listing { found: none, dir: safe, rest: none };
    let op = OperationView { root, stage };
    let read = CallView::ReadDir(safe);
    assert(op.stage.call() == Some(read));
    lemma_one_call(op, fs);
    lemma_resolve_then(
        root,
        GoalView::List,
        requested,
        fs,
        seq![],
        StageView::Finished(Err(ErrorView::Io(message))),
    );
}

/// Every path of the tree starts with the path that the tree stands at.
proof fn lemma_leaves_lie_below(path: Seq<Part>, tree: Tree)
    ensures
        fs_sandbox::all_inside(path, leaves(path, tree)),
    decreases tree,
{
    match tree {
        Tree::File => {
            assert(path.take(path.len() as int) =~= path);
        },
        Tree::Dir(entries) => lemma_leaves_below(path, entries),
    }
}

proof fn lemma_leaves_below(dir: Seq<Part>, entries: Seq<Node>)
    ensures
        fs_sandbox::all_inside(dir, leaves_below(dir, entries)),
    decreases entries,
{
    if entries.len() > 0 {
        let path = dir.push(Part::Name(entries[0].name));
        let first = leaves(path, entries[0].tree);
        lemma_leaves_lie_below(path, entries[0].tree);
        lemma_leaves_below(dir, entries.skip(1));
        let all = leaves_below(dir, entries);
        assert forall|i: int| 0 <= i < all.len() implies fs_sandbox::inside(
            dir,
            #[trigger] all[i],
        ) by {
            if i < first.len() {
                assert(all[i] == first[i]);
                assert(path.take(dir.len() as int) =~= dir);
                lemma_inside_above(dir, path, first[i]);
            } else {
                assert(all[i] == leaves_below(dir, entries.skip(1))[i - first.len()]);
            }
        }
    }
}

proof fn lemma_inside_above(root: Seq<Part>, dir: Seq<Part>, path: Seq<Part>)
    requires
        fs_sandbox::inside(root, dir),
        fs_sandbox::inside(dir, path),
    ensures
        fs_sandbox::inside(root, path),
{
    assert(path.take(root.len() as int) =~= path.take(dir.len() as int).take(root.len() as int));
}

/// The paths of a listing lead from the root back to the files.
pub proof fn law_listed_paths_lead_back(
    root: Seq<Part>,
    dir: Seq<Part>,
    entries: Seq<Node>,
    i: int,
)
    requires
        fs_sandbox::inside(root, dir),
        0 <= i < leaves_below(dir, entries).len(),
    ensures
        root + fs_path::relative_to(root, leaves_below(dir, entries)[i]) == leaves_below(
            dir,
            entries,
        )[i],
{
    lemma_leaves_below(dir, entries);
    let file = leaves_below(dir, entries)[i];
    lemma_inside_above(root, dir, file);
    assert(root + file.skip(root.len() as int) =~= file);
}

// ---- Opening -------------------------------------------------------------

/// The opening after `n` calls.
pub open spec fn opening_after(opening: OpeningView, fs: Answers, n: nat) -> OpeningView
    decreases n,
{
    if n == 0 {
        opening
    } else {
        match opening.call() {
            None => opening,
            Some(call) => opening_after(opening.step(fs(call)), fs, (n - 1) as nat),
        }
    }
}

/// Opening a sandbox takes at most three calls. The directory is made where
/// there is nothing, and the root is what canonicalising the path gives; a call
/// that fails ends the opening with the failure.
pub proof fn law_opening(root: Seq<Part>, fs: Answers)
    requires
        answering(fs),
    ensures
        opening_after(OpeningView::Asking(root), fs, 3) == OpeningView::Finished(
            match (
                fs(CallView::Exists(root)),
                fs(CallView::CreateDirAll(root)),
                fs(CallView::Canonicalize(root)),
            ) {
                (ReplyView::Flag(false), ReplyView::Failed(message), _) => Err(
                    ErrorView::Io(message),
                ),
                (_, _, ReplyView::Failed(message)) => Err(ErrorView::Io(message)),
                (_, _, reply) => Ok(reply->Path_0),
            },
        ),
{
    reveal_with_fuel(opening_after, 4);
    assert(fs_sandbox::answers(fs(CallView::Exists(root)), CallView::Exists(root)));
    assert(fs_sandbox::answers(fs(CallView::CreateDirAll(root)), CallView::CreateDirAll(root)));
    assert(fs_sandbox::answers(fs(CallView::Canonicalize(root)), CallView::Canonicalize(root)));
}

/// Opening the sandbox at the canonical root again gives the same root and makes
/// no directory, where the root has come to exist and is its own canonical path.
/// `before` answers the first time, `later` the second.
pub proof fn law_opening_again_gives_the_same_root(
    path: Seq<Part>,
    root: Seq<Part>,
    before: Answers,
    later: Answers,
)
    requires
        answering(before),
        opening_after(OpeningView::Asking(path), before, 3) == OpeningView::Finished(Ok(root)),
        forall|p: Seq<Part>, canonical: Seq<Part>|
            #![trigger is_canonical(before, p, canonical)]
            is_canonical(before, p, canonical) ==> {
                &&& fs_path::has_root(canonical)
                &&& later(CallView::Exists(canonical)) == ReplyView::Flag(true)
                &&& later(CallView::Canonicalize(canonical)) == ReplyView::Path(canonical)
            },
    ensures
        is_canonical(before, path, root),
        fs_path::has_root(root),
        opening_after(OpeningView::Asking(root), later, 2) == OpeningView::Finished(Ok(root)),
        opening_after(OpeningView::Asking(root), later, 3) == OpeningView::Finished(Ok(root)),
{
    law_opening(path, before);
    reveal_with_fuel(opening_after, 4);
    assert(fs_sandbox::answers(
        before(CallView::Canonicalize(path)),
        CallView::Canonicalize(path),
    ));
    assert(is_canonical(before, path, root));
}

} // verus!
