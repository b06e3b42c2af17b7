//! Sync comparison: for every file of a project, whether disk and GitHub agree,
//! and if not, why: a real change, or white space and comments alone.
//!
//! A file whose git SHA is that of the tree entry is in sync, and nothing more
//! is done for it. Otherwise, where cosmetic differences are to be told apart,
//! the two contents are compared in normal form.

use crate::blob_sha;
use crate::blob_sha::compute_git_blob_sha;
use crate::comments;
use crate::comments::{comment_style_for, strip_comments, strip_whitespace, CommentStyle};
use crate::path_map::PathMap;
use crate::text;
use crate::text::text_of_bytes;
use vstd::prelude::*;

verus! {

/// How a file stands between disk and GitHub.
#[derive(Debug, Clone, Copy, PartialEq, Eq, Structural)]
pub enum DiffCategory {
    InSync,
    ContentChanged,
    WhitespaceOnly,
    CommentOnly,
    CosmeticMixed,
    LocalOnly,
    RemoteOnly,
}

/// The standing of one file.
#[derive(Debug, Clone)]
pub struct FileSyncStatus {
    pub relative_path: String,
    pub category: DiffCategory,
}

/// Whether differences in white space and comments are told apart from others.
#[derive(Debug, Clone, Copy)]
pub struct CosmeticToggle {
    pub ignore_whitespace_and_comments: bool,
}

// ---- One file ------------------------------------------------------------

/// What two contents differ in that are known to differ, by their texts. Where
/// these are the same without comments and with white space evened out, it is
/// white space, where evening it out is enough; else comments, where leaving them
/// out is enough; else both. Contents that differ in bytes which are no text
/// are changed.
pub open spec fn cosmetic_category(
    local: Seq<char>,
    remote: Seq<char>,
    style: CommentStyle,
) -> DiffCategory {
    let same_words = comments::evened(local) == comments::evened(remote);
    let same_code = comments::uncommented(local, style) == comments::uncommented(remote, style);
    if local == remote || comments::evened(comments::uncommented(local, style))
        != comments::evened(comments::uncommented(remote, style)) {
        DiffCategory::ContentChanged
    } else if same_words {
        DiffCategory::WhitespaceOnly
    } else if same_code {
        DiffCategory::CommentOnly
    } else {
        DiffCategory::CosmeticMixed
    }
}

/// What two contents of a file differ in.
pub open spec fn content_category(
    path: Seq<char>,
    local: Seq<u8>,
    remote: Seq<u8>,
    cosmetic: bool,
) -> DiffCategory {
    if blob_sha::git_blob_sha(local) == blob_sha::git_blob_sha(remote) {
        DiffCategory::InSync
    } else if !cosmetic {
        DiffCategory::ContentChanged
    } else {
        cosmetic_category(
            text::lossy_text(local),
            text::lossy_text(remote),
            comments::style_of_path(path),
        )
    }
}

/// What two contents differ in that are known to differ, by their texts.
pub fn classify_texts(local: &str, remote: &str, style: CommentStyle) -> (category: DiffCategory)
    ensures
        category == cosmetic_category(local@, remote@, style),
{
    if local.to_owned() == remote.to_owned() {
        return DiffCategory::ContentChanged;
    }
    let ws_equal = strip_whitespace(local) == strip_whitespace(remote);
    let local_no_comments = strip_comments(local, style);
    let remote_no_comments = strip_comments(remote, style);
    let comments_equal = local_no_comments == remote_no_comments;
    let fully_equal = strip_whitespace(local_no_comments.as_str()) == strip_whitespace(
        remote_no_comments.as_str(),
    );
    if !fully_equal {
        return DiffCategory::ContentChanged;
    }
    match (ws_equal, comments_equal) {
        (true, _) => DiffCategory::WhitespaceOnly,
        (false, true) => DiffCategory::CommentOnly,
        (false, false) => DiffCategory::CosmeticMixed,
    }
}

/// What the local and the remote content of a file differ in.
pub fn classify_file_with_remote_content(
    relative_path: &str,
    local_content: &[u8],
    remote_content: &[u8],
    toggle: CosmeticToggle,
) -> (category: DiffCategory)
    ensures
        category == content_category(
            relative_path@,
            local_content@,
            remote_content@,
            toggle.ignore_whitespace_and_comments,
        ),
{
    let local_sha = compute_git_blob_sha(local_content);
    let remote_sha = compute_git_blob_sha(remote_content);
    if local_sha == remote_sha {
        return DiffCategory::InSync;
    }
    if !toggle.ignore_whitespace_and_comments {
        return DiffCategory::ContentChanged;
    }
    let local_text = text_of_bytes(local_content);
    let remote_text = text_of_bytes(remote_content);
    let style = comment_style_for(relative_path);
    classify_texts(local_text.as_str(), remote_text.as_str(), style)
}

// ---- A project -----------------------------------------------------------

/// What a file on both sides differs in, once its remote content was asked for:
/// a content that could not be had counts as changed.
pub open spec fn fetched_category(
    path: Seq<char>,
    local: Seq<u8>,
    fetched: Option<Vec<u8>>,
    cosmetic: bool,
) -> DiffCategory {
    match fetched {
        Some(remote) => content_category(path, local, remote@, cosmetic),
        None => DiffCategory::ContentChanged,
    }
}

/// What a file on both sides differs in, given the answer to the request for
/// its remote content.
pub fn classify_fetched(
    relative_path: &str,
    local_content: &[u8],
    fetched: Option<Vec<u8>>,
    toggle: CosmeticToggle,
) -> (category: DiffCategory)
    ensures
        category == fetched_category(
            relative_path@,
            local_content@,
            fetched,
            toggle.ignore_whitespace_and_comments,
        ),
{
    match fetched {
        Some(remote_content) => classify_file_with_remote_content(
            relative_path,
            local_content,
            remote_content.as_slice(),
            toggle,
        ),
        None => DiffCategory::ContentChanged,
    }
}

/// The remote content of a file is needed: the file is on both sides, its git
/// SHA is not the remote one, and cosmetic differences are told apart.
pub open spec fn needs_remote_content(
    local: Map<Seq<char>, Vec<u8>>,
    remote: Map<Seq<char>, String>,
    cosmetic: bool,
    path: Seq<char>,
) -> bool {
    &&& cosmetic
    &&& local.dom().contains(path)
    &&& remote.dom().contains(path)
    &&& blob_sha::git_blob_sha(local[path]@) != remote[path]@
}

/// `category` is a right answer for the file at `path`, given what
/// `fetch` may answer for it.
pub open spec fn is_standing<F: Fn(&str) -> Option<Vec<u8>>>(
    local: Map<Seq<char>, Vec<u8>>,
    remote: Map<Seq<char>, String>,
    fetch: F,
    cosmetic: bool,
    path: Seq<char>,
    category: DiffCategory,
) -> bool {
    if !remote.dom().contains(path) {
        local.dom().contains(path) && category == DiffCategory::LocalOnly
    } else if !local.dom().contains(path) {
        category == DiffCategory::RemoteOnly
    } else if blob_sha::git_blob_sha(local[path]@) == remote[path]@ {
        category == DiffCategory::InSync
    } else if !cosmetic {
        category == DiffCategory::ContentChanged
    } else {
        exists|asked: &str, fetched: Option<Vec<u8>>|
            asked@ == path && #[trigger] call_ensures(fetch, (asked,), fetched) && category
                == fetched_category(path, local[path]@, fetched, cosmetic)
    }
}

/// The path of a result.
pub open spec fn reported_path(results: Seq<FileSyncStatus>, k: int) -> Seq<char> {
    results[k].relative_path@
}

/// The report has one entry for every path of either side, and no other.
pub open spec fn covers(
    results: Seq<FileSyncStatus>,
    local: Map<Seq<char>, Vec<u8>>,
    remote: Map<Seq<char>, String>,
) -> bool {
    &&& forall|i: int, j: int|
        0 <= i < results.len() && 0 <= j < results.len() && #[trigger] reported_path(results, i)
            == #[trigger] reported_path(results, j) ==> i == j
    &&& forall|path: Seq<char>|
        local.dom().contains(path) || remote.dom().contains(path) <==> #[trigger] reports(
            results,
            path,
        )
}

/// The report has an entry for the path.
pub open spec fn reports(results: Seq<FileSyncStatus>, path: Seq<char>) -> bool {
    exists|k: int| 0 <= k < results.len() && #[trigger] reported_path(results, k) == path
}

/// The sync report of a project: the standing of every path of the local files
/// (path to content) and the remote ones (path to blob SHA).
/// `fetch_remote_content` is asked only where `needs_remote_content` holds.
pub fn compare_project<F: Fn(&str) -> Option<Vec<u8>>>(
    local_files: &PathMap<Vec<u8>>,
    remote_files: &PathMap<String>,
    fetch_remote_content: F,
    toggle: CosmeticToggle,
) -> (results: Vec<FileSyncStatus>)
    requires
        forall|asked: &str|
            needs_remote_content(
                local_files@,
                remote_files@,
                toggle.ignore_whitespace_and_comments,
                asked@,
            ) ==> #[trigger] call_requires(fetch_remote_content, (asked,)),
    ensures
        covers(results@, local_files@, remote_files@),
        forall|k: int|
            0 <= k < results@.len() ==> is_standing(
                local_files@,
                remote_files@,
                fetch_remote_content,
                toggle.ignore_whitespace_and_comments,
                #[trigger] reported_path(results@, k),
                results@[k].category,
            ),
        forall|k: int|
            0 <= k < results@.len() ==> is_standing(
                local_files@,
                remote_files@,
                fetch_remote_content,
                toggle.ignore_whitespace_and_comments,
                (#[trigger] results@[k]).relative_path@,
                results@[k].category,
            ),
{
    proof {
        use_type_invariant(local_files);
        use_type_invariant(remote_files);
    }
    let mut results: Vec<FileSyncStatus> = Vec::new();
    let ghost cosmetic = toggle.ignore_whitespace_and_comments;
    let count: usize = local_files.len();
    for i in 0..count
        invariant
            local_files.well_formed(),
            remote_files.well_formed(),
            count == local_files.size(),
            cosmetic == toggle.ignore_whitespace_and_comments,
            forall|asked: &str|
                needs_remote_content(local_files@, remote_files@, cosmetic, asked@)
                    ==> #[trigger] call_requires(fetch_remote_content, (asked,)),
            results@.len() == i,
            forall|k: int|
                0 <= k < i ==> #[trigger] reported_path(results@, k) == local_files.path_at(k),
            forall|k: int|
                0 <= k < i ==> is_standing(
                    local_files@,
                    remote_files@,
                    fetch_remote_content,
                    cosmetic,
                    #[trigger] reported_path(results@, k),
                    results@[k].category,
                ),
    {
        let path = local_files.path(i);
        let local_content = local_files.value(i);
        proof {
            local_files.lemma_value_at(i as int);
        }
        let category = match remote_files.get(path) {
            None => DiffCategory::LocalOnly,
            Some(remote_sha) => {
                let local_sha = compute_git_blob_sha(local_content.as_slice());
                if local_sha == *remote_sha {
                    DiffCategory::InSync
                } else if !toggle.ignore_whitespace_and_comments {
                    DiffCategory::ContentChanged
                } else {
                    let asked = path.as_str();
                    assert(needs_remote_content(
                        local_files@,
                        remote_files@,
                        cosmetic,
                        asked@,
                    ));
                    let fetched = fetch_remote_content(asked);
                    let ghost answer = fetched;
                    let found = classify_fetched(asked, local_content.as_slice(), fetched, toggle);
                    assert(call_ensures(fetch_remote_content, (asked,), answer));
                    assert(found == fetched_category(
                        asked@,
                        local_files@[asked@]@,
                        answer,
                        cosmetic,
                    ));
                    found
                }
            },
        };
        let ghost before = results@;
        let status = FileSyncStatus { relative_path: path.clone(), category };
        results.push(status);
        proof {
            assert forall|k: int| 0 <= k < i implies #[trigger] reported_path(results@, k)
                == reported_path(before, k) && results@[k] == before[k] by {}
            assert(reported_path(results@, i as int) == local_files.path_at(i as int));
        }
    }
    let ghost known = results@;
    let remote_count: usize = remote_files.len();
    for j in 0..remote_count
        invariant
            local_files.well_formed(),
            remote_files.well_formed(),
            count == local_files.size(),
            remote_count == remote_files.size(),
            count == known.len(),
            known.len() <= results@.len(),
            forall|k: int|
                0 <= k < count ==> #[trigger] reported_path(results@, k) == local_files.path_at(k),
            forall|k: int|
                count <= k < results@.len() ==> is_from(
                    *remote_files,
                    j as int,
                    #[trigger] reported_path(results@, k),
                ),
            forall|k: int|
                count <= k < results@.len() ==> !local_files@.dom().contains(
                    #[trigger] reported_path(results@, k),
                ),
            forall|a: int, b: int|
                count <= a < results@.len() && count <= b < results@.len()
                    && #[trigger] reported_path(results@, a) == #[trigger] reported_path(
                    results@,
                    b,
                ) ==> a == b,
            forall|m: int|
                0 <= m < j && !local_files@.dom().contains(remote_files.path_at(m)) ==> reports(
                    results@,
                    #[trigger] remote_files.path_at(m),
                ),
            forall|k: int|
                0 <= k < results@.len() ==> is_standing(
                    local_files@,
                    remote_files@,
                    fetch_remote_content,
                    cosmetic,
                    #[trigger] reported_path(results@, k),
                    results@[k].category,
                ),
    {
        let path = remote_files.path(j);
        let ghost before = results@;
        proof {
            remote_files.lemma_value_at(j as int);
        }
        if local_files.get(path).is_none() {
            let status = FileSyncStatus {
                relative_path: path.clone(),
                category: DiffCategory::RemoteOnly,
            };
            results.push(status);
            proof {
                let last = before.len() as int;
                assert(reported_path(results@, last) == path@);
                assert forall|k: int| 0 <= k < last implies #[trigger] reported_path(results@, k)
                    == reported_path(before, k) && results@[k] == before[k] by {}
                assert forall|k: int| count <= k < last implies #[trigger] reported_path(
                    results@,
                    k,
                ) != path@ by {
                    assert(is_from(*remote_files, j as int, reported_path(before, k)));
                    let m = choose|m: int|
                        0 <= m < j && #[trigger] remote_files.path_at(m) == reported_path(
                            before,
                            k,
                        );
                    assert(remote_files.path_at(m) != remote_files.path_at(j as int));
                }
                assert(is_from(*remote_files, j + 1, path@));
                assert(reports(results@, path@));
            }
        }
        proof {
            assert forall|k: int| count <= k < results@.len() implies is_from(
                *remote_files,
                j + 1,
                #[trigger] reported_path(results@, k),
            ) by {
                if k < before.len() {
                    let p = reported_path(before, k);
                    assert(is_from(*remote_files, j as int, p));
                    let m = choose|m: int| 0 <= m < j && #[trigger] remote_files.path_at(m) == p;
                    assert(remote_files.path_at(m) == p);
                }
            }
            assert forall|m: int|
                0 <= m < j + 1 && !local_files@.dom().contains(
                    remote_files.path_at(m),
                ) implies reports(results@, #[trigger] remote_files.path_at(m)) by {
                if m < j {
                    let p = remote_files.path_at(m);
                    assert(reports(before, p));
                    let k = choose|k: int|
                        0 <= k < before.len() && #[trigger] reported_path(before, k) == p;
                    assert(reported_path(results@, k) == p);
                }
            }
        }
    }
    proof {
        lemma_covers(results@, *local_files, *remote_files);
        assert forall|k: int| 0 <= k < results@.len() implies is_standing(
            local_files@,
            remote_files@,
            fetch_remote_content,
            toggle.ignore_whitespace_and_comments,
            (#[trigger] results@[k]).relative_path@,
            results@[k].category,
        ) by {
            assert(reported_path(results@, k) == results@[k].relative_path@);
        }
    }
    results
}

/// The path is one of the first `j` of the map.
spec fn is_from<V>(map: PathMap<V>, j: int, path: Seq<char>) -> bool {
    exists|m: int| 0 <= m < j && #[trigger] map.path_at(m) == path
}

proof fn lemma_covers(
    results: Seq<FileSyncStatus>,
    local: PathMap<Vec<u8>>,
    remote: PathMap<String>,
)
    requires
        local.well_formed(),
        remote.well_formed(),
        local.size() <= results.len(),
        forall|k: int|
            0 <= k < local.size() ==> #[trigger] reported_path(results, k) == local.path_at(k),
        forall|k: int|
            local.size() <= k < results.len() ==> is_from(
                remote,
                remote.size() as int,
                #[trigger] reported_path(results, k),
            ),
        forall|k: int|
            local.size() <= k < results.len() ==> !local@.dom().contains(
                #[trigger] reported_path(results, k),
            ),
        forall|a: int, b: int|
            local.size() <= a < results.len() && local.size() <= b < results.len()
                && #[trigger] reported_path(results, a) == #[trigger] reported_path(results, b)
                ==> a == b,
        forall|m: int|
            0 <= m < remote.size() && !local@.dom().contains(remote.path_at(m)) ==> reports(
                results,
                #[trigger] remote.path_at(m),
            ),
    ensures
        covers(results, local@, remote@),
{
    assert forall|i: int, j: int|
        0 <= i < results.len() && 0 <= j < results.len() && #[trigger] reported_path(results, i)
            == #[trigger] reported_path(results, j) implies i == j by {
        if i < local.size() {
            local.lemma_value_at(i);
        }
        if j < local.size() {
            local.lemma_value_at(j);
        }
    }
    assert forall|path: Seq<char>|
        local@.dom().contains(path) || remote@.dom().contains(path) <==> #[trigger] reports(
            results,
            path,
        ) by {
        if local@.dom().contains(path) {
            let i = choose|i: int| local.holds_at(i, path);
            assert(reported_path(results, i) == path);
        } else if remote@.dom().contains(path) {
            let m = choose|m: int| remote.holds_at(m, path);
            assert(remote.path_at(m) == path);
        }
        if reports(results, path) {
            let k = choose|k: int|
                0 <= k < results.len() && #[trigger] reported_path(results, k) == path;
            if k < local.size() {
                local.lemma_value_at(k);
            } else {
                let m = choose|m: int|
                    0 <= m < remote.size() && #[trigger] remote.path_at(m) == path;
                remote.lemma_value_at(m);
            }
        }
    }
}

} // verus!
