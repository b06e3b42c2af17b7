//! What a push comes to, as a whole.

use crate::fs_path;
use crate::fs_path::Part;
use crate::github_api;
use crate::github_api::{EntryView, GitHubErrorView, Method};
use crate::text;
use crate::upload;
use crate::upload::{
    BulkStageView, BulkView, FileView, MultiStageView, MultiView, PushCallView, PushReplyView,
};
use vstd::prelude::*;
use vstd::utf8::*;

verus! {

// ---- One commit for all files --------------------------------------------

/// A bulk commit after a sequence of answers.
pub open spec fn bulk_after(bulk: BulkView, replies: Seq<PushReplyView>) -> BulkView
    decreases replies.len(),
{
    if replies.len() == 0 {
        bulk
    } else {
        bulk_after(bulk, replies.drop_last()).step(replies.last())
    }
}

/// The calls that a sequence of answers is given to.
pub open spec fn bulk_calls(bulk: BulkView, replies: Seq<PushReplyView>) -> Seq<
    Option<PushCallView>,
>
    decreases replies.len(),
{
    if replies.len() == 0 {
        seq![]
    } else {
        bulk_calls(bulk, replies.drop_last()).push(bulk_after(bulk, replies.drop_last()).call())
    }
}

/// The answers to the first requests: the head of the branch, and the blobs of
/// the first `n` files.
pub open spec fn blob_replies(head: Seq<char>, blobs: Seq<Seq<char>>, n: nat) -> Seq<
    PushReplyView,
> {
    Seq::new(
        n + 1,
        |i: int|
            if i == 0 {
                PushReplyView::Sha(head)
            } else {
                PushReplyView::Sha(blobs[i - 1])
            },
    )
}

/// The entries of the tree for the first `n` files: each path as it was staged,
/// with its blob.
pub open spec fn tree_entries(files: Seq<FileView>, blobs: Seq<Seq<char>>, n: nat) -> Seq<
    EntryView,
> {
    Seq::new(n, |i: int| EntryView { path: files[i].path, sha: blobs[i] })
}

/// The first requests: for the head of the branch, and to make the blobs of the
/// first `n` files.
pub open spec fn blob_calls(bulk: BulkView, n: nat) -> Seq<Option<PushCallView>> {
    Seq::new(
        n + 1,
        |i: int|
            if i == 0 {
                Some(PushCallView::Send(github_api::head_request(bulk.client, bulk.branch)))
            } else {
                Some(
                    PushCallView::Send(
                        github_api::new_blob_request(bulk.client, bulk.files[i - 1].content),
                    ),
                )
            },
    )
}

proof fn lemma_blobs(bulk: BulkView, head: Seq<char>, blobs: Seq<Seq<char>>, n: nat)
    requires
        bulk.stage is Head,
        blobs.len() == bulk.files.len(),
        n <= blobs.len(),
    ensures
        bulk_after(bulk, blob_replies(head, blobs, n)) == (BulkView {
            stage: bulk.staged(head, tree_entries(bulk.files, blobs, n)),
            ..bulk
        }),
        bulk_calls(bulk, blob_replies(head, blobs, n)) == blob_calls(bulk, n),
    decreases n,
{
    let replies = blob_replies(head, blobs, n);
    reveal_with_fuel(bulk_after, 2);
    reveal_with_fuel(bulk_calls, 2);
    if n == 0 {
        assert(replies.drop_last() =~= seq![]);
        assert(tree_entries(bulk.files, blobs, 0) =~= seq![]);
        assert(bulk_calls(bulk, replies) =~= blob_calls(bulk, 0));
    } else {
        let less = (n - 1) as nat;
        lemma_blobs(bulk, head, blobs, less);
        assert(replies.drop_last() =~= blob_replies(head, blobs, less));
        let entries = tree_entries(bulk.files, blobs, less);
        assert(entries.push(EntryView { path: bulk.files[n - 1].path, sha: blobs[n - 1] })
            =~= tree_entries(bulk.files, blobs, n));
        assert(bulk_calls(bulk, replies) =~= blob_calls(bulk, n));
    }
}

/// Where every request is answered with a SHA, a bulk commit makes a blob of each
/// file, one tree with the path of each file as it was staged, in order, one
/// commit with that tree, the message, and the head of the branch as its one
/// parent, and then moves the branch to it. It gives the commit.
pub proof fn law_bulk_commit(
    bulk: BulkView,
    head: Seq<char>,
    blobs: Seq<Seq<char>>,
    tree: Seq<char>,
    commit: Seq<char>,
)
    requires
        bulk.stage is Head,
        blobs.len() == bulk.files.len(),
    ensures
        ({
            let n = blobs.len();
            let replies = blob_replies(head, blobs, n) + seq![
                PushReplyView::Sha(tree),
                PushReplyView::Sha(commit),
                PushReplyView::Done,
            ];
            let entries = tree_entries(bulk.files, blobs, n);
            let client = bulk.client;
            let last = seq![
                Some(PushCallView::Send(github_api::new_tree_request(client, entries, None))),
                Some(
                    PushCallView::Send(
                        github_api::new_commit_request(client, bulk.message, tree, head),
                    ),
                ),
                Some(PushCallView::Send(github_api::update_request(client, bulk.branch, commit))),
            ];
            &&& bulk_after(bulk, replies).stage == BulkStageView::Finished(Ok(commit))
            &&& bulk_calls(bulk, replies) == blob_calls(bulk, n) + last
        }),
{
    let n = blobs.len();
    lemma_blobs(bulk, head, blobs, n);
    let first = blob_replies(head, blobs, n);
    let third = PushReplyView::Done;
    let r1 = first.push(PushReplyView::Sha(tree));
    let r2 = r1.push(PushReplyView::Sha(commit));
    let r3 = r2.push(third);
    assert(r1.drop_last() =~= first);
    assert(r2.drop_last() =~= r1);
    assert(r3.drop_last() =~= r2);
    let replies = first + seq![PushReplyView::Sha(tree), PushReplyView::Sha(commit), third];
    assert(replies =~= r3);
    let entries = tree_entries(bulk.files, blobs, n);
    let client = bulk.client;
    let c1 = Some(PushCallView::Send(github_api::new_tree_request(client, entries, None)));
    let c2 = Some(
        PushCallView::Send(github_api::new_commit_request(client, bulk.message, tree, head)),
    );
    let c3 = Some(PushCallView::Send(github_api::update_request(client, bulk.branch, commit)));
    assert(bulk_calls(bulk, r1) == blob_calls(bulk, n).push(c1));
    assert(bulk_calls(bulk, r2) == blob_calls(bulk, n).push(c1).push(c2));
    assert(bulk_calls(bulk, r3) == blob_calls(bulk, n).push(c1).push(c2).push(c3));
    assert(blob_calls(bulk, n).push(c1).push(c2).push(c3) =~= blob_calls(bulk, n) + seq![
        c1,
        c2,
        c3,
    ]);
}

/// A bulk commit moves the branch last: until then nothing on the branch has
/// changed, and after it no request follows.
pub proof fn law_bulk_branch_moves_last(bulk: BulkView, reply: PushReplyView)
    requires
        bulk.call() matches Some(call) && upload::answers(reply, call),
    ensures
        bulk.call() matches Some(PushCallView::Send(request)) && (request.method == Method::Patch
            <==> bulk.stage is Reference),
        bulk.stage is Reference ==> bulk.step(reply).stage is Finished,
{
}

/// A request that fails ends a bulk commit with its error.
pub proof fn law_bulk_failure_ends(bulk: BulkView, error: GitHubErrorView)
    requires
        bulk.call() is Some,
    ensures
        bulk.step(PushReplyView::Failed(error)).stage == BulkStageView::Finished(Err(error)),
{
}

// ---- One commit per file -------------------------------------------------

/// A series of commits after a sequence of answers.
pub open spec fn multi_after(multi: MultiView, replies: Seq<PushReplyView>) -> MultiView
    decreases replies.len(),
{
    if replies.len() == 0 {
        multi
    } else {
        multi_after(multi, replies.drop_last()).step(replies.last())
    }
}

/// The calls that a sequence of answers is given to.
pub open spec fn multi_calls(multi: MultiView, replies: Seq<PushReplyView>) -> Seq<
    Option<PushCallView>,
>
    decreases replies.len(),
{
    if replies.len() == 0 {
        seq![]
    } else {
        multi_calls(multi, replies.drop_last()).push(
            multi_after(multi, replies.drop_last()).call(),
        )
    }
}

/// What is answered for one file.
pub struct Round {
    pub blob: Seq<char>,
    pub tree: Seq<char>,
    pub message: Seq<char>,
    pub commit: Seq<char>,
}

/// The parent of the commit for a file: the commit before.
pub open spec fn parent_of(head: Seq<char>, rounds: Seq<Round>, i: int) -> Seq<char> {
    if i == 0 {
        head
    } else {
        rounds[i - 1].commit
    }
}

/// The tree that the tree for a file extends: that of the commit before.
pub open spec fn base_of(rounds: Seq<Round>, i: int) -> Option<Seq<char>> {
    if i == 0 {
        None
    } else {
        Some(rounds[i - 1].tree)
    }
}

/// The answers for one file.
pub open spec fn round_replies(round: Round) -> Seq<PushReplyView> {
    seq![
        PushReplyView::Sha(round.blob),
        PushReplyView::Sha(round.tree),
        PushReplyView::Message(round.message),
        PushReplyView::Sha(round.commit),
        PushReplyView::Done,
    ]
}

/// The calls for one file: its blob, a tree with it on top of the tree before,
/// its message, a commit on top of the commit before, and the branch moved there.
pub open spec fn round_calls(
    multi: MultiView,
    head: Seq<char>,
    rounds: Seq<Round>,
    i: int,
) -> Seq<Option<PushCallView>> {
    let client = multi.client;
    let file = multi.files[i];
    let round = rounds[i];
    seq![
        Some(PushCallView::Send(github_api::new_blob_request(client, file.content))),
        Some(
            PushCallView::Send(
                github_api::new_tree_request(
                    client,
                    seq![EntryView { path: file.path, sha: round.blob }],
                    base_of(rounds, i),
                ),
            ),
        ),
        Some(PushCallView::Compose(file)),
        Some(
            PushCallView::Send(
                github_api::new_commit_request(
                    client,
                    round.message,
                    round.tree,
                    parent_of(head, rounds, i),
                ),
            ),
        ),
        Some(PushCallView::Send(github_api::update_request(client, multi.branch, round.commit))),
    ]
}

/// The answers for the first `n` files.
pub open spec fn series_replies(head: Seq<char>, rounds: Seq<Round>, n: nat) -> Seq<PushReplyView>
    decreases n,
{
    if n == 0 {
        seq![PushReplyView::Sha(head)]
    } else {
        series_replies(head, rounds, (n - 1) as nat) + round_replies(rounds[n - 1])
    }
}

/// The calls for the first `n` files.
pub open spec fn series_calls(
    multi: MultiView,
    head: Seq<char>,
    rounds: Seq<Round>,
    n: nat,
) -> Seq<Option<PushCallView>>
    decreases n,
{
    if n == 0 {
        seq![Some(PushCallView::Send(github_api::head_request(multi.client, multi.branch)))]
    } else {
        series_calls(multi, head, rounds, (n - 1) as nat) + round_calls(
            multi,
            head,
            rounds,
            n - 1,
        )
    }
}

/// The commits of the first `n` files.
pub open spec fn series_commits(rounds: Seq<Round>, n: nat) -> Seq<Seq<char>> {
    Seq::new(n, |i: int| rounds[i].commit)
}

/// One file.
proof fn lemma_round(
    multi: MultiView,
    before: Seq<PushReplyView>,
    head: Seq<char>,
    rounds: Seq<Round>,
    i: int,
)
    requires
        0 <= i < multi.files.len(),
        rounds.len() == multi.files.len(),
        multi_after(multi, before) == (MultiView {
            stage: MultiStageView::Blob {
                parent: parent_of(head, rounds, i),
                base: base_of(rounds, i),
                commits: series_commits(rounds, i as nat),
            },
            ..multi
        }),
    ensures
        multi_after(multi, before + round_replies(rounds[i])) == (MultiView {
            stage: multi.next_file(
                rounds[i].commit,
                Some(rounds[i].tree),
                series_commits(rounds, (i + 1) as nat),
            ),
            ..multi
        }),
        multi_calls(multi, before + round_replies(rounds[i])) == multi_calls(multi, before)
            + round_calls(multi, head, rounds, i),
{
    let round = rounds[i];
    let r1 = before.push(PushReplyView::Sha(round.blob));
    let r2 = r1.push(PushReplyView::Sha(round.tree));
    let r3 = r2.push(PushReplyView::Message(round.message));
    let r4 = r3.push(PushReplyView::Sha(round.commit));
    let r5 = r4.push(PushReplyView::Done);
    assert(r1.drop_last() =~= before);
    assert(r2.drop_last() =~= r1);
    assert(r3.drop_last() =~= r2);
    assert(r4.drop_last() =~= r3);
    assert(r5.drop_last() =~= r4);
    assert(before + round_replies(round) =~= r5);
    let c = round_calls(multi, head, rounds, i);
    let held = multi_calls(multi, before);
    assert(series_commits(rounds, i as nat).push(round.commit) =~= series_commits(
        rounds,
        (i + 1) as nat,
    ));
    assert(multi_calls(multi, r1) == held.push(c[0]));
    assert(multi_calls(multi, r2) == held.push(c[0]).push(c[1]));
    assert(multi_calls(multi, r3) == held.push(c[0]).push(c[1]).push(c[2]));
    assert(multi_calls(multi, r4) == held.push(c[0]).push(c[1]).push(c[2]).push(c[3]));
    assert(multi_calls(multi, r5) =~= held + c);
}

proof fn lemma_series(multi: MultiView, head: Seq<char>, rounds: Seq<Round>, n: nat)
    requires
        multi.stage is Head,
        rounds.len() == multi.files.len(),
        n <= rounds.len(),
    ensures
        multi_after(multi, series_replies(head, rounds, n)) == (MultiView {
            stage: multi.next_file(
                parent_of(head, rounds, n as int),
                base_of(rounds, n as int),
                series_commits(rounds, n),
            ),
            ..multi
        }),
        multi_calls(multi, series_replies(head, rounds, n)) == series_calls(
            multi,
            head,
            rounds,
            n,
        ),
    decreases n,
{
    if n == 0 {
        let replies = series_replies(head, rounds, 0);
        reveal_with_fuel(multi_after, 2);
        reveal_with_fuel(multi_calls, 2);
        assert(replies.drop_last() =~= seq![]);
        assert(series_commits(rounds, 0) =~= seq![]);
        assert(multi_calls(multi, replies) =~= series_calls(multi, head, rounds, 0));
    } else {
        let less = (n - 1) as nat;
        lemma_series(multi, head, rounds, less);
        lemma_round(multi, series_replies(head, rounds, less), head, rounds, n - 1);
    }
}

/// Where every request is answered with a SHA, a series of commits makes for each
/// file in turn one commit, whose parent is the commit before (the head of the
/// branch for the first) and whose tree extends the tree before by that file,
/// and moves the branch to it. It gives the commits in the order of the files.
pub proof fn law_multi_commit(multi: MultiView, head: Seq<char>, rounds: Seq<Round>)
    requires
        multi.stage is Head,
        rounds.len() == multi.files.len(),
    ensures
        ({
            let n = rounds.len();
            let replies = series_replies(head, rounds, n);
            &&& multi_after(multi, replies).stage == MultiStageView::Finished(
                Ok(series_commits(rounds, n)),
            )
            &&& multi_calls(multi, replies) == series_calls(multi, head, rounds, n)
        }),
{
    lemma_series(multi, head, rounds, rounds.len());
}

/// A request that fails ends a series of commits with its error.
pub proof fn law_multi_failure_ends(multi: MultiView, error: GitHubErrorView)
    requires
        multi.call() is Some,
    ensures
        multi.step(PushReplyView::Failed(error)).stage == MultiStageView::Finished(Err(error)),
{
}

/// The branch is only ever moved to a commit that was just made.
pub proof fn law_multi_branch_moves_to_new_commit(multi: MultiView, commit: Seq<char>)
    requires
        multi.stage is Commit,
    ensures
        multi.step(PushReplyView::Sha(commit)).call() == Some(
            PushCallView::Send(github_api::update_request(multi.client, multi.branch, commit)),
        ),
{
}

// ---- Paths ---------------------------------------------------------------

/// A file comes back at the path it was pushed from: the path of an entry, which
/// is the path for import, reads as the relative path that it was written with.
pub proof fn law_import_undoes_export(parts: Seq<Part>)
    requires
        fs_path::is_path(parts),
        !fs_path::has_prefix(parts),
        valid_utf8(fs_path::path_text(parts)),
    ensures
        fs_path::parse_path(encode_utf8(text::lossy_text(fs_path::path_text(parts)))) == parts,
{
    decode_utf8_encode_utf8(fs_path::path_text(parts));
    fs_path::law_reading_undoes_writing(parts);
}

} // verus!
