use codeforge::github_api::compute_git_blob_sha;
use codeforge::path_map::PathMap;
use codeforge::sync_engine::{
    classify_fetched, classify_file_with_remote_content, classify_texts, compare_project,
    CosmeticToggle, DiffCategory,
};
use codeforge::comments::CommentStyle;

fn toggle_on() -> CosmeticToggle {
    CosmeticToggle { ignore_whitespace_and_comments: true }
}
fn toggle_off() -> CosmeticToggle {
    CosmeticToggle { ignore_whitespace_and_comments: false }
}

#[test]
fn identical_content_is_in_sync() {
    let a = b"const x = 1;\n";
    let cat = classify_file_with_remote_content("a.js", a, a, toggle_on());
    assert_eq!(cat, DiffCategory::InSync);
}

#[test]
fn toggle_off_never_produces_cosmetic_buckets() {
    let local = b"const x=1;\n// comment\n";
    let remote = b"const x = 1;\n";
    let cat = classify_file_with_remote_content("a.js", local, remote, toggle_off());
    assert_eq!(cat, DiffCategory::ContentChanged);
}

#[test]
fn whitespace_only_difference_js() {
    let local = b"const x = 1;\nconst y = 2;\n";
    let remote = b"const x = 1;\n\n\nconst    y = 2;\n";
    let cat = classify_file_with_remote_content("a.js", local, remote, toggle_on());
    assert_eq!(cat, DiffCategory::WhitespaceOnly);
}

#[test]
fn comment_only_difference_js() {
    let local = b"const x = 1; // set x\n";
    let remote = b"const x = 1;\n";
    let cat = classify_file_with_remote_content("a.js", local, remote, toggle_on());
    assert_eq!(cat, DiffCategory::CommentOnly);
}

#[test]
fn comment_only_difference_python_hash() {
    let local = b"x = 1  # set x\n";
    let remote = b"x = 1\n";
    let cat = classify_file_with_remote_content("a.py", local, remote, toggle_on());
    assert_eq!(cat, DiffCategory::CommentOnly);
}

#[test]
fn cosmetic_mixed_whitespace_and_comments() {
    let local = b"const x = 1;   // note\n\n\nconst y = 2;\n";
    let remote = b"const x = 1;\nconst y = 2;\n";
    let cat = classify_file_with_remote_content("a.js", local, remote, toggle_on());
    assert_eq!(cat, DiffCategory::CosmeticMixed);
}

#[test]
fn real_content_change_is_not_cosmetic() {
    let local = b"function add(a, b) { return a + b; }\n";
    let remote = b"function add(a, b) { return a - b; }\n";
    let cat = classify_file_with_remote_content("a.js", local, remote, toggle_on());
    assert_eq!(cat, DiffCategory::ContentChanged);
}

#[test]
fn comment_stripper_does_not_touch_url_in_string() {
    let local = b"const url = \"https://example.com\";\n";
    let remote = b"const url = \"https://example.com\"; // the site\n";
    let cat = classify_file_with_remote_content("a.js", local, remote, toggle_on());
    assert_eq!(cat, DiffCategory::CommentOnly);
}

#[test]
fn hash_stripper_does_not_touch_hash_in_string() {
    let local = b"color = \"#ffffff\"\n";
    let remote = b"color = \"#ffffff\"  # white\n";
    let cat = classify_file_with_remote_content("a.py", local, remote, toggle_on());
    assert_eq!(cat, DiffCategory::CommentOnly);
}

#[test]
fn css_block_comment_only() {
    let local = b"body { color: red; }\n";
    let remote = b"/* header */\nbody { color: red; }\n";
    let cat = classify_file_with_remote_content("a.css", local, remote, toggle_on());
    assert_eq!(cat, DiffCategory::CommentOnly);
}

#[test]
fn compare_project_buckets_local_only_and_remote_only() {
    let mut local = PathMap::new();
    local.insert("proj/only_local.js".to_string(), b"a".to_vec());
    let mut remote = PathMap::new();
    remote.insert("proj/only_remote.js".to_string(), "somesha".to_string());

    let results = compare_project(&local, &remote, |_: &str| None, toggle_on());
    let local_only = results.iter().find(|r| r.relative_path == "proj/only_local.js").unwrap();
    let remote_only = results.iter().find(|r| r.relative_path == "proj/only_remote.js").unwrap();
    assert_eq!(local_only.category, DiffCategory::LocalOnly);
    assert_eq!(remote_only.category, DiffCategory::RemoteOnly);
}

#[test]
fn compare_project_in_sync_when_shas_match() {
    let content = b"hello world\n".to_vec();
    let sha = compute_git_blob_sha(&content);
    let mut local = PathMap::new();
    local.insert("proj/a.txt".to_string(), content);
    let mut remote = PathMap::new();
    remote.insert("proj/a.txt".to_string(), sha);

    let results = compare_project(&local, &remote, |_: &str| None, toggle_on());
    assert_eq!(results[0].category, DiffCategory::InSync);
}

#[test]
fn compare_project_asks_only_where_shas_differ() {
    let mut local = PathMap::new();
    local.insert("same.js".to_string(), b"a\n".to_vec());
    local.insert("spaced.js".to_string(), b"a  b\n".to_vec());
    local.insert("gone.js".to_string(), b"a\n".to_vec());
    let mut remote = PathMap::new();
    remote.insert("same.js".to_string(), compute_git_blob_sha(b"a\n"));
    remote.insert("spaced.js".to_string(), compute_git_blob_sha(b"a b\n"));
    remote.insert("gone.js".to_string(), "0000".to_string());

    let fetch = |path: &str| match path {
        "spaced.js" => Some(b"a b\n".to_vec()),
        "gone.js" => None,
        _ => panic!("{} needs no content", path),
    };
    let results = compare_project(&local, &remote, fetch, toggle_on());
    let found: Vec<(&str, DiffCategory)> =
        results.iter().map(|r| (r.relative_path.as_str(), r.category)).collect();
    assert_eq!(
        found,
        vec![
            ("same.js", DiffCategory::InSync),
            ("spaced.js", DiffCategory::WhitespaceOnly),
            ("gone.js", DiffCategory::ContentChanged),
        ]
    );
}

#[test]
fn compare_project_does_not_ask_when_cosmetics_count() {
    let mut local = PathMap::new();
    local.insert("a.js".to_string(), b"a  b\n".to_vec());
    let mut remote = PathMap::new();
    remote.insert("a.js".to_string(), compute_git_blob_sha(b"a b\n"));
    let results = compare_project(
        &local,
        &remote,
        |path: &str| panic!("{} needs no content", path),
        toggle_off(),
    );
    assert_eq!(results.len(), 1);
    assert_eq!(results[0].category, DiffCategory::ContentChanged);
}

#[test]
fn compare_project_reports_every_path_once() {
    let mut local = PathMap::new();
    let mut remote = PathMap::new();
    for name in ["a", "b", "c"] {
        local.insert(name.to_string(), name.as_bytes().to_vec());
    }
    for name in ["b", "c", "d"] {
        remote.insert(name.to_string(), compute_git_blob_sha(name.as_bytes()));
    }
    let results = compare_project(&local, &remote, |_: &str| None, toggle_on());
    let mut paths: Vec<&str> = results.iter().map(|r| r.relative_path.as_str()).collect();
    paths.sort();
    assert_eq!(paths, vec!["a", "b", "c", "d"]);
}

#[test]
fn comparison_goes_both_ways() {
    let pairs: [(&[u8], &[u8]); 4] = [
        (b"a b\n", b"a  b\n"),
        (b"a // x\n", b"a\n"),
        (b"a // x\n\n\nb", b"a\nb"),
        (b"a", b"b"),
    ];
    for (x, y) in pairs {
        assert_eq!(
            classify_file_with_remote_content("f.rs", x, y, toggle_on()),
            classify_file_with_remote_content("f.rs", y, x, toggle_on()),
        );
    }
}

#[test]
fn content_that_could_not_be_had_is_changed() {
    assert_eq!(
        classify_fetched("a.js", b"x", None, toggle_on()),
        DiffCategory::ContentChanged
    );
    assert_eq!(
        classify_fetched("a.js", b"x y", Some(b"x  y".to_vec()), toggle_on()),
        DiffCategory::WhitespaceOnly
    );
}

#[test]
fn unknown_extension_compares_white_space_alone() {
    let by = |a: &[u8], b: &[u8]| classify_file_with_remote_content("notes", a, b, toggle_on());
    assert_eq!(by(b"a b", b"a  b"), DiffCategory::WhitespaceOnly);
    assert_eq!(by(b"a # x", b"a"), DiffCategory::ContentChanged);
    assert_eq!(by(b"a // x", b"a"), DiffCategory::ContentChanged);
}

#[test]
fn faulty_utf8_is_compared_with_replacements() {
    let by = |a: &[u8], b: &[u8]| classify_file_with_remote_content("a.py", a, b, toggle_on());
    // Both bytes become the replacement character.
    assert_eq!(by(b"x\xff", b"x\xfe"), DiffCategory::ContentChanged);
    assert_eq!(by(b"x\xff # y", b"x\xff"), DiffCategory::CommentOnly);
}

#[test]
fn different_contents_are_never_in_sync() {
    let by = |path: &str, a: &[u8], b: &[u8]| {
        classify_file_with_remote_content(path, a, b, toggle_on())
    };
    assert_eq!(by("a.js", b"x;  // a\n", b"x; // a\n"), DiffCategory::WhitespaceOnly);
    assert_eq!(by("a.bin", b"\xff", b"\xfe"), DiffCategory::ContentChanged);
    assert_eq!(classify_texts("a", "a", CommentStyle::CLike), DiffCategory::ContentChanged);
}

#[test]
fn block_comment_behind_code_is_comment_only() {
    let by = |path: &str, a: &[u8], b: &[u8]| {
        classify_file_with_remote_content(path, a, b, toggle_on())
    };
    assert_eq!(by("a.js", b"x; /* c */\ny;\n", b"x;\ny;\n"), DiffCategory::CommentOnly);
    let (x, empty) = (b"a{content:\"/*x*/\"}", b"a{content:\"\"}");
    assert_eq!(by("a.css", x, empty), DiffCategory::ContentChanged);
}

#[test]
fn path_map_keeps_the_last_value() {
    let mut map = PathMap::new();
    map.insert("a".to_string(), 1);
    map.insert("b".to_string(), 2);
    map.insert("a".to_string(), 3);
    assert_eq!(map.len(), 2);
    assert_eq!(map.get(&"a".to_string()), Some(&3));
    assert_eq!(map.get(&"b".to_string()), Some(&2));
    assert_eq!(map.get(&"c".to_string()), None);
    assert_eq!(map.path(0), "a");
    assert_eq!(*map.value(0), 3);
    assert_eq!(map.path(1), "b");
    assert_eq!(*map.value(1), 2);
}
