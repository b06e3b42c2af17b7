use codeforge::blob_content::BlobContent;
use codeforge::fs_path::FsPath;
use codeforge::github_api::{
    compute_git_blob_sha, relative_path_for_import, ApiRequest, Body, GitHubClient, GitHubError,
    HttpFailure, Method, TreeEntry, TreeResponse,
};
use codeforge::upload::{BulkCommit, MultiCommit, PushCall, PushReply, StagedFile};

fn entry(path: &str, entry_type: &str) -> TreeEntry {
    TreeEntry {
        path: path.to_string(),
        mode: "100644".to_string(),
        entry_type: entry_type.to_string(),
        sha: "s".to_string(),
        size: Some(3),
    }
}

fn headers(request: &ApiRequest) -> Vec<(&str, &str)> {
    request.headers.iter().map(|h| (h.name.as_str(), h.value.as_str())).collect()
}

fn client() -> GitHubClient {
    GitHubClient::new("octocat", "Hello-World", None).unwrap()
}

#[test]
fn blob_sha_matches_known_git_value() {
    let sha = compute_git_blob_sha(b"");
    assert_eq!(sha, "e69de29bb2d1d6434b8b29ae775ad8c2e48c5391");
}

#[test]
fn blob_sha_matches_known_hello_world_value() {
    let sha = compute_git_blob_sha(b"hello world\n");
    assert_eq!(sha, "3b18e512dba79e4c8300dd08aeb37f8e728b8dad");
}

#[test]
fn fetch_real_public_repo_tree_preserves_nested_paths() {
    // The requests, and an answer of the shape that GitHub gives.
    let client = GitHubClient::new("octocat", "Hello-World", None).unwrap();
    let head = client.get_branch_head_sha("master");
    assert_eq!(head.url, "https://api.github.com/repos/octocat/Hello-World/git/ref/heads/master");
    let head = client.get_branch_head_sha("main");
    assert_eq!(head.url, "https://api.github.com/repos/octocat/Hello-World/git/ref/heads/main");
    let request = client.fetch_tree_recursive("7fd1a60");
    assert_eq!(
        request.url,
        "https://api.github.com/repos/octocat/Hello-World/git/trees/7fd1a60?recursive=1"
    );
    let response = TreeResponse {
        sha: "7fd1a60".to_string(),
        tree: vec![entry("README", "blob"), entry("src", "tree"), entry("src/a/b.rs", "blob")],
        truncated: false,
    };
    let (files, _truncated) = response.files();
    assert!(!files.is_empty(), "expected at least one file in the tree");
    for f in &files {
        assert!(!f.path.is_empty());
        assert_eq!(f.entry_type, "blob");
    }
    let paths: Vec<&str> = files.iter().map(|f| f.path.as_str()).collect();
    assert_eq!(paths, vec!["README", "src/a/b.rs"]);
}

#[test]
fn tree_listing_tells_that_it_is_truncated() {
    let response = TreeResponse {
        sha: String::new(),
        tree: vec![entry("a", "commit"), entry("b", "blob"), entry("c", "Blob")],
        truncated: true,
    };
    let (files, truncated) = response.files();
    assert!(truncated);
    assert_eq!(files.len(), 1);
    assert_eq!(files[0].path, "b");
    assert_eq!(files[0].size, Some(3));
}

#[test]
fn requests_carry_the_token_only_where_there_is_one() {
    let plain = client().get_branch_head_sha("main");
    assert_eq!(plain.method, Method::Get);
    assert_eq!(
        headers(&plain),
        vec![("Accept", "application/vnd.github+json"), ("User-Agent", "CodeForge")]
    );
    assert!(matches!(plain.body, Body::Empty));
    let with_token = GitHubClient::new("o", "r", Some("abc")).unwrap().fetch_blob_content("s1");
    assert_eq!(with_token.url, "https://api.github.com/repos/o/r/git/blobs/s1");
    assert_eq!(
        headers(&with_token),
        vec![
            ("Accept", "application/vnd.github+json"),
            ("User-Agent", "CodeForge"),
            ("Authorization", "Bearer abc"),
        ]
    );
}

#[test]
fn blob_is_sent_in_base64() {
    let request = client().create_blob(b"hello world~");
    assert_eq!(request.method, Method::Post);
    assert_eq!(request.url, "https://api.github.com/repos/octocat/Hello-World/git/blobs");
    match request.body {
        Body::Blob(blob) => {
            assert_eq!(blob.content, "aGVsbG8gd29ybGR+");
            assert_eq!(blob.encoding, "base64");
            assert_eq!(blob.bytes(), b"hello world~");
        }
        _ => panic!("no blob"),
    }
}

#[test]
fn base64_known_values() {
    let known: [(&[u8], &str); 6] = [
        (b"", ""),
        (b"f", "Zg=="),
        (b"fo", "Zm8="),
        (b"foo", "Zm9v"),
        (b"\xff\xef\xbe", "/+++"),
        (b"\x00\x10\x83\x10\x51\x87\x20\x92\x8b", "ABCDEFGHIJKL"),
    ];
    for (data, text) in known {
        assert_eq!(BlobContent::new(data).content, text);
    }
}

#[test]
fn every_byte_comes_back() {
    let all: Vec<u8> = (0..=255).collect();
    for len in 0..all.len() {
        assert_eq!(BlobContent::new(&all[..len]).bytes(), &all[..len]);
    }
}

#[test]
fn blob_content_is_decoded() {
    let blob = |content: &str, encoding: &str| BlobContent {
        content: content.to_string(),
        encoding: encoding.to_string(),
    };
    assert_eq!(blob("aGVs\nbG8 =\t", "base64").bytes(), b"hello");
    assert_eq!(blob("aGVsbG8", "base64").bytes(), b"");
    assert_eq!(blob("aGVsbG9=", "base64").bytes(), b"");
    assert_eq!(blob("a*==", "base64").bytes(), b"");
    assert_eq!(blob("h\u{e9}\n", "utf-8").bytes(), "h\u{e9}\n".as_bytes());
}

#[test]
fn tree_request_lists_regular_files() {
    let entries = vec![
        ("src/a.rs".to_string(), "s1".to_string()),
        ("b".to_string(), "s2".to_string()),
    ];
    let request = client().create_tree(&entries, Some("base"));
    assert_eq!(request.url, "https://api.github.com/repos/octocat/Hello-World/git/trees");
    match request.body {
        Body::Tree { entries, base_tree } => {
            let listed: Vec<(&str, &str, &str, &str)> = entries
                .iter()
                .map(|e| (e.path.as_str(), e.mode.as_str(), e.entry_type.as_str(), e.sha.as_str()))
                .collect();
            assert_eq!(
                listed,
                vec![("src/a.rs", "100644", "blob", "s1"), ("b", "100644", "blob", "s2")]
            );
            assert_eq!(base_tree.as_deref(), Some("base"));
        }
        _ => panic!("no tree"),
    }
}

#[test]
fn commit_and_reference_requests() {
    let commit = client().create_commit("msg", "t", "p");
    assert_eq!(commit.method, Method::Post);
    assert_eq!(commit.url, "https://api.github.com/repos/octocat/Hello-World/git/commits");
    match commit.body {
        Body::Commit { message, tree, parents } => {
            assert_eq!((message.as_str(), tree.as_str()), ("msg", "t"));
            assert_eq!(parents, vec!["p".to_string()]);
        }
        _ => panic!("no commit"),
    }
    let update = client().update_branch_ref("main", "c");
    assert_eq!(update.method, Method::Patch);
    assert_eq!(update.url, "https://api.github.com/repos/octocat/Hello-World/git/refs/heads/main");
    match update.body {
        Body::Reference { sha, force } => assert_eq!((sha.as_str(), force), ("c", false)),
        _ => panic!("no reference"),
    }
}

#[test]
fn import_path_keeps_the_folders() {
    for text in ["src/utils/helpers.ts", "a\\b", "C:/x", "./a//b"] {
        assert_eq!(relative_path_for_import(&entry(text, "blob")), text);
    }
}

#[test]
fn import_undoes_export() {
    for text in ["index.js", "src/utils/helpers.ts", "h\u{e9}/\u{1F980}.rs", "a b/c"] {
        let exported = FsPath::parse(text.as_bytes());
        let written = String::from_utf8(exported.text()).unwrap();
        let written_entry = entry(&written, "blob");
        let imported = FsPath::parse(relative_path_for_import(&written_entry).as_bytes());
        assert_eq!(imported.text(), exported.text());
        assert_eq!(imported.depth(), exported.depth());
    }
}

#[test]
fn blob_shas_tell_contents_apart() {
    let contents: [&[u8]; 5] = [b"", b"\0", b"1", b"10", b"blob 1\0a"];
    for a in contents {
        for b in contents {
            assert_eq!(compute_git_blob_sha(a) == compute_git_blob_sha(b), a == b);
        }
    }
}

#[test]
fn errors_of_requests() {
    let refused = GitHubError::from_failure(HttpFailure::Status(404, Some("gone".to_string())));
    assert!(matches!(&refused, GitHubError::Api { status: 404, message } if message == "gone"));
    assert_eq!(refused.message(), "github api error (404): gone");
    let silent = GitHubError::from_failure(HttpFailure::Status(500, None));
    assert_eq!(silent.message(), "github api error (500): ");
    let unmade = GitHubError::from_failure(HttpFailure::Transport("no route".to_string()));
    assert_eq!(unmade.message(), "http error: no route");
    assert_eq!(GitHubError::Io("cut".to_string()).message(), "io error reading response: cut");
    assert_eq!(GitHubError::Json("bad".to_string()).message(), "json error: bad");
}

// ---- Pushing -------------------------------------------------------------

fn staged() -> Vec<StagedFile> {
    vec![
        StagedFile { relative_path: "index.js".to_string(), content: b"a".to_vec() },
        StagedFile { relative_path: "src/utils/b.ts".to_string(), content: b"bc".to_vec() },
    ]
}

fn describe(call: &PushCall<'_>) -> String {
    match call {
        PushCall::Compose(file) => format!("compose {}", file.relative_path),
        PushCall::Send(request) => {
            let place = request.url.rsplit("/git/").next().unwrap().to_string();
            match &request.body {
                Body::Empty => format!("get {}", place),
                Body::Blob(blob) => format!("{} {}", place, blob.content),
                Body::Tree { entries, base_tree } => {
                    let listed: Vec<String> =
                        entries.iter().map(|e| format!("{}={}", e.path, e.sha)).collect();
                    format!("{} {} on {:?}", place, listed.join(","), base_tree)
                }
                Body::Commit { message, tree, parents } => {
                    format!("{} {} {} {}", place, message, tree, parents.join(","))
                }
                Body::Reference { sha, .. } => format!("{} {}", place, sha),
            }
        }
    }
}

/// Answers: the calls get the SHAs `1`, `2`, and so on; the call with the number
/// `fail_at` fails.
fn answer(call: &PushCall<'_>, number: usize, fail_at: usize) -> PushReply {
    if number == fail_at {
        return PushReply::Failed(GitHubError::Http("down".to_string()));
    }
    match call {
        PushCall::Compose(file) => PushReply::Message(format!("add {}", file.relative_path)),
        PushCall::Send(request) if request.method == Method::Patch => PushReply::Done,
        PushCall::Send(_) => PushReply::Sha(number.to_string()),
    }
}

fn run_bulk(
    mut push: BulkCommit<'_>,
    fail_at: usize,
) -> (Vec<String>, Result<String, GitHubError>) {
    let mut log = Vec::new();
    loop {
        let reply = match push.call() {
            None => break,
            Some(call) => {
                log.push(describe(&call));
                answer(&call, log.len(), fail_at)
            }
        };
        push = push.advance(reply);
    }
    match push.finish() {
        Ok(result) => (log, result),
        Err(_) => panic!("not finished"),
    }
}

fn run_multi(
    mut push: MultiCommit<'_>,
    fail_at: usize,
) -> (Vec<String>, Result<Vec<String>, GitHubError>) {
    let mut log = Vec::new();
    loop {
        let reply = match push.call() {
            None => break,
            Some(call) => {
                log.push(describe(&call));
                answer(&call, log.len(), fail_at)
            }
        };
        push = push.advance(reply);
    }
    match push.finish() {
        Ok(result) => (log, result),
        Err(_) => panic!("not finished"),
    }
}

#[test]
fn bulk_commit_makes_one_tree_and_one_commit() {
    let files = staged();
    let client = client();
    let (log, result) = run_bulk(client.bulk_commit("main", &files, "all"), 0);
    assert_eq!(
        log,
        vec![
            "get ref/heads/main",
            "blobs YQ==",
            "blobs YmM=",
            "trees index.js=2,src/utils/b.ts=3 on None",
            "commits all 4 1",
            "refs/heads/main 5",
        ]
    );
    assert_eq!(result.unwrap(), "5");
}

#[test]
fn bulk_commit_of_no_files_makes_an_empty_tree() {
    let client = client();
    let (log, result) = run_bulk(client.bulk_commit("main", &[], "none"), 0);
    assert_eq!(
        log,
        vec!["get ref/heads/main", "trees  on None", "commits none 2 1", "refs/heads/main 3"]
    );
    assert_eq!(result.unwrap(), "3");
}

#[test]
fn bulk_commit_stops_at_the_first_failure() {
    let files = staged();
    let client = client();
    for fail_at in 1..=6 {
        let (log, result) = run_bulk(client.bulk_commit("main", &files, "all"), fail_at);
        assert_eq!(log.len(), fail_at);
        assert_eq!(result.unwrap_err().message(), "http error: down");
    }
}

#[test]
fn multi_commit_chains_parents_and_trees() {
    let files = staged();
    let client = client();
    let (log, result) = run_multi(client.multi_commit("main", &files), 0);
    assert_eq!(
        log,
        vec![
            "get ref/heads/main",
            "blobs YQ==",
            "trees index.js=2 on None",
            "compose index.js",
            "commits add index.js 3 1",
            "refs/heads/main 5",
            "blobs YmM=",
            "trees src/utils/b.ts=7 on Some(\"3\")",
            "compose src/utils/b.ts",
            "commits add src/utils/b.ts 8 5",
            "refs/heads/main 10",
        ]
    );
    assert_eq!(result.unwrap(), vec!["5".to_string(), "10".to_string()]);
}

#[test]
fn multi_commit_of_no_files_makes_no_commit() {
    let client = client();
    let (log, result) = run_multi(client.multi_commit("main", &[]), 0);
    assert_eq!(log, vec!["get ref/heads/main"]);
    assert!(result.unwrap().is_empty());
}

#[test]
fn multi_commit_stops_at_the_first_failure() {
    let files = staged();
    let client = client();
    for fail_at in [1, 2, 3, 5, 6, 7, 11] {
        let (log, result) = run_multi(client.multi_commit("main", &files), fail_at);
        assert_eq!(log.len(), fail_at);
        assert_eq!(result.unwrap_err().message(), "http error: down");
    }
}
