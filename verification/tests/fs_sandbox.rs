use codeforge::fs_path::{Component, FileName, FsPath};
use codeforge::fs_sandbox::{
    FsCall, FsReply, Operation, Outcome, SandboxError, SandboxResult, SandboxRoot,
};
use std::collections::BTreeMap;

// ---- A file system in memory ---------------------------------------------

enum Entry {
    Dir,
    File(Vec<u8>),
    Link(String),
}

/// A file system: absolute paths, `/` between the names.
struct MemFs {
    entries: BTreeMap<String, Entry>,
    log: Vec<String>,
}

fn shown(path: &FsPath) -> String {
    String::from_utf8(path.text()).unwrap()
}

fn path(text: &str) -> FsPath {
    FsPath::parse(text.as_bytes())
}

impl MemFs {
    fn new() -> MemFs {
        let mut fs = MemFs { entries: BTreeMap::new(), log: Vec::new() };
        fs.make_dirs("/tmp");
        fs.make_dirs("/etc");
        fs.entries.insert("/etc/passwd".to_string(), Entry::File(b"root".to_vec()));
        fs
    }

    fn make_dirs(&mut self, path: &str) {
        let mut at = String::new();
        self.entries.insert("/".to_string(), Entry::Dir);
        for name in path.split('/').filter(|n| !n.is_empty()) {
            at = format!("{}/{}", at, name);
            if let Some(place) = self.canonical(&at) {
                at = place;
            } else {
                self.entries.insert(at.clone(), Entry::Dir);
            }
        }
    }

    fn link(&mut self, at: &str, target: &str) {
        self.entries.insert(at.to_string(), Entry::Link(target.to_string()));
    }

    fn canonical(&self, path: &str) -> Option<String> {
        let place = self.place(path, 8)?;
        self.entries.contains_key(&place).then_some(place)
    }

    /// Where a path leads, links followed; the last name need not be there.
    fn place(&self, path: &str, hops: usize) -> Option<String> {
        let mut at = "/".to_string();
        for name in path.split('/').filter(|n| !n.is_empty() && *n != ".") {
            if !matches!(self.entries.get(&at), Some(Entry::Dir)) {
                return None;
            }
            let above = if at == "/" { "" } else { at.as_str() };
            if name == ".." {
                let cut = above.rfind('/').unwrap_or(0);
                at = if cut == 0 { "/".to_string() } else { above[..cut].to_string() };
            } else {
                let next = format!("{}/{}", above, name);
                at = match self.entries.get(&next) {
                    Some(Entry::Link(_)) if hops == 0 => return None,
                    Some(Entry::Link(target)) if target.starts_with('/') => {
                        self.place(target, hops - 1)?
                    }
                    Some(Entry::Link(target)) => {
                        self.place(&format!("{}/{}", above, target), hops - 1)?
                    }
                    _ => next,
                };
            }
        }
        Some(at)
    }

    fn link_at(&self, path: &str) -> Option<FsPath> {
        let (above, name) = path.rsplit_once('/')?;
        let dir = self.canonical(above)?;
        let at = if dir == "/" { format!("/{}", name) } else { format!("{}/{}", dir, name) };
        match self.entries.get(&at) {
            Some(Entry::Link(target)) => Some(FsPath::parse(target.as_bytes())),
            _ => None,
        }
    }

    fn is_dir(&self, path: &str) -> bool {
        match self.canonical(path) {
            Some(at) => matches!(self.entries.get(&at), Some(Entry::Dir)),
            None => false,
        }
    }

    fn done(&mut self, what: String, possible: bool) -> FsReply {
        self.log.push(what);
        if possible {
            FsReply::Done
        } else {
            FsReply::Failed("not possible".to_string())
        }
    }

    fn perform(&mut self, call: FsCall<'_>) -> FsReply {
        match call {
            FsCall::Exists(p) => FsReply::Flag(self.canonical(&shown(&p)).is_some()),
            FsCall::IsDir(p) => FsReply::Flag(self.is_dir(&shown(&p))),
            FsCall::Canonicalize(p) => match self.canonical(&shown(&p)) {
                Some(at) => FsReply::Path(path(&at)),
                None => FsReply::Failed("not found".to_string()),
            },
            FsCall::ReadLink(p) => FsReply::Link(self.link_at(&shown(&p))),
            FsCall::Read(p) => match self.entries.get(&shown(&p)) {
                Some(Entry::File(bytes)) => FsReply::Bytes(bytes.clone()),
                _ => FsReply::Failed("not a file".to_string()),
            },
            FsCall::Write(p, bytes) => {
                let at = shown(&p);
                let place = self.place(&at, 8).filter(|place| !self.is_dir(place));
                let possible = place.is_some();
                if let Some(place) = place {
                    self.entries.insert(place, Entry::File(bytes.clone()));
                }
                self.done(format!("write {}", at), possible)
            }
            FsCall::CreateDirAll(p) => {
                let at = shown(&p);
                self.make_dirs(&at);
                self.done(format!("mkdir {}", at), true)
            }
            FsCall::RemoveDirAll(p) => {
                let at = shown(&p);
                let below = format!("{}/", at);
                self.entries.retain(|k, _| *k != at && !k.starts_with(&below));
                self.done(format!("rmdir {}", at), true)
            }
            FsCall::RemoveFile(p) => {
                let at = shown(&p);
                let possible = self.entries.remove(&at).is_some();
                self.done(format!("rm {}", at), possible)
            }
            FsCall::Rename(p, q) => {
                let (from, to) = (shown(&p), shown(&q));
                let moved = self.entries.remove(&from);
                let possible = moved.is_some();
                if let Some(entry) = moved {
                    self.entries.insert(to.clone(), entry);
                }
                self.done(format!("mv {} {}", from, to), possible)
            }
            FsCall::ReadDir(p) => {
                let at = shown(&p);
                if !self.is_dir(&at) {
                    return FsReply::Failed("not a directory".to_string());
                }
                let below = format!("{}/", at);
                let names = self
                    .entries
                    .keys()
                    .filter_map(|k| k.strip_prefix(&below))
                    .filter(|rest| !rest.contains('/'))
                    .map(|name| FileName::new(name.as_bytes().to_vec()).unwrap())
                    .collect();
                FsReply::Names(names)
            }
        }
    }

    fn run(&mut self, mut op: Operation) -> SandboxResult<Outcome> {
        loop {
            let reply = match op.call() {
                None => break,
                Some(call) => self.perform(call),
            };
            op = op.advance(reply);
        }
        match op.finish() {
            Ok(result) => result,
            Err(_) => panic!("not finished"),
        }
    }

    fn open(&mut self, root: &str) -> SandboxResult<SandboxRoot> {
        let mut opening = SandboxRoot::new(path(root));
        loop {
            let reply = match opening.call() {
                None => break,
                Some(call) => self.perform(call),
            };
            opening = opening.advance(reply);
        }
        match opening.finish() {
            Ok(result) => result,
            Err(_) => panic!("not finished"),
        }
    }
}

struct Sandbox {
    fs: MemFs,
    root: SandboxRoot,
}

fn temp_sandbox(name: &str) -> Sandbox {
    let mut fs = MemFs::new();
    let root = fs.open(&format!("/tmp/codeforge_test_{}", name)).unwrap();
    fs.log.clear();
    Sandbox { fs, root }
}

impl Sandbox {
    fn resolve(&mut self, requested: &str) -> SandboxResult<String> {
        match self.fs.run(self.root.resolve(&path(requested)))? {
            Outcome::Path(p) => Ok(shown(&p)),
            _ => panic!("no path"),
        }
    }

    fn read_file(&mut self, requested: &str) -> SandboxResult<Vec<u8>> {
        match self.fs.run(self.root.read_file(&path(requested)))? {
            Outcome::Contents(bytes) => Ok(bytes),
            _ => panic!("no contents"),
        }
    }

    fn done(&mut self, op: Operation) -> SandboxResult<()> {
        match self.fs.run(op)? {
            Outcome::Done => Ok(()),
            _ => panic!("something else"),
        }
    }

    fn write_file(&mut self, requested: &str, contents: &[u8]) -> SandboxResult<()> {
        let op = self.root.write_file(&path(requested), contents.to_vec());
        self.done(op)
    }

    fn create_dir(&mut self, requested: &str) -> SandboxResult<()> {
        let op = self.root.create_dir(&path(requested));
        self.done(op)
    }

    fn delete(&mut self, requested: &str) -> SandboxResult<()> {
        let op = self.root.delete(&path(requested));
        self.done(op)
    }

    fn rename(&mut self, from: &str, to: &str) -> SandboxResult<()> {
        let op = self.root.rename(&path(from), &path(to));
        self.done(op)
    }

    fn list_files_recursive(&mut self, requested: &str) -> SandboxResult<Vec<String>> {
        match self.fs.run(self.root.list_files_recursive(&path(requested)))? {
            Outcome::Files(paths) => Ok(paths.iter().map(shown).collect()),
            _ => panic!("no files"),
        }
    }
}

// ---- The sandbox ---------------------------------------------------------

#[test]
fn allows_normal_relative_path() {
    let mut sb = temp_sandbox("normal");
    sb.write_file("projectA/src/index.js", b"console.log(1)").unwrap();
    let content = sb.read_file("projectA/src/index.js").unwrap();
    assert_eq!(content, b"console.log(1)");
}

#[test]
fn blocks_simple_traversal() {
    let mut sb = temp_sandbox("traversal");
    sb.write_file("projectA/file.txt", b"hi").unwrap();
    let result = sb.resolve("projectA/../../../../etc/passwd");
    assert!(matches!(result, Err(SandboxError::PathEscape(_))));
}

#[test]
fn blocks_absolute_escape() {
    let mut sb = temp_sandbox("abs_escape");
    let result = sb.resolve("/etc/passwd");
    assert!(result.is_err());
}

#[test]
fn blocks_traversal_via_dotdot_in_new_file_path() {
    let mut sb = temp_sandbox("new_file_traversal");
    // File doesn't exist yet, but contains a `..` that would escape.
    let result = sb.write_file("projectA/../../evil.txt", b"pwned");
    assert!(result.is_err());
    assert!(sb.fs.log.is_empty());
}

#[test]
fn allows_creating_new_nested_file_that_does_not_escape() {
    let mut sb = temp_sandbox("new_nested_ok");
    let result = sb.write_file("projectA/deep/nested/newfile.txt", b"ok");
    assert!(result.is_ok());
    let content = sb.read_file("projectA/deep/nested/newfile.txt").unwrap();
    assert_eq!(content, b"ok");
}

#[test]
fn list_files_preserves_relative_structure() {
    let mut sb = temp_sandbox("listing");
    sb.write_file("myproj/index.js", b"a").unwrap();
    sb.write_file("myproj/src/utils/helpers.ts", b"b").unwrap();
    let mut files = sb.list_files_recursive("myproj").unwrap();
    files.sort();
    let strs: Vec<String> = files.iter().map(|p| p.replace('\\', "/")).collect();
    assert!(strs.contains(&"myproj/index.js".to_string()));
    assert!(strs.contains(&"myproj/src/utils/helpers.ts".to_string()));
}

#[test]
fn rename_blocked_if_destination_escapes() {
    let mut sb = temp_sandbox("rename_escape");
    sb.write_file("proj/a.txt", b"x").unwrap();
    let result = sb.rename("proj/a.txt", "../../outside.txt");
    assert!(result.is_err());
    assert_eq!(sb.read_file("proj/a.txt").unwrap(), b"x");
}

#[test]
fn opening_makes_the_directory_once() {
    let mut fs = MemFs::new();
    let root = fs.open("/tmp/new/box").unwrap();
    assert_eq!(shown(root.root_path()), "/tmp/new/box");
    assert_eq!(fs.log, vec!["mkdir /tmp/new/box"]);
    fs.log.clear();
    fs.open("/tmp/new/box").unwrap();
    assert!(fs.log.is_empty());
}

#[test]
fn root_is_canonical() {
    let mut fs = MemFs::new();
    fs.make_dirs("/data/box");
    fs.link("/tmp/box", "/data/box");
    let root = fs.open("/tmp/../tmp/./box").unwrap();
    assert_eq!(shown(root.root_path()), "/data/box");
    assert_eq!(shown(root.clone().root_path()), "/data/box");
}

#[test]
fn opening_fails_with_the_file_system() {
    let opening = SandboxRoot::new(path("/x"));
    let opening = opening.advance(FsReply::Flag(false));
    let opening = opening.advance(FsReply::Failed("read-only".to_string()));
    match opening.finish() {
        Ok(Err(error)) => assert_eq!(error.message(b'/'), "io error: read-only"),
        _ => panic!("no error"),
    }
}

#[test]
fn resolution_follows_dots_and_links() {
    let mut sb = temp_sandbox("dots");
    sb.write_file("a/b/c.txt", b"c").unwrap();
    let root = "/tmp/codeforge_test_dots";
    assert_eq!(sb.resolve("a/b/../b/./c.txt").unwrap(), format!("{}/a/b/c.txt", root));
    assert_eq!(sb.resolve("./a").unwrap(), format!("{}/a", root));
    assert_eq!(sb.resolve("").unwrap(), root);
    assert_eq!(sb.resolve(&format!("{}/a/new", root)).unwrap(), format!("{}/a/new", root));
    sb.fs.link("/tmp/codeforge_test_dots/in", "/tmp/codeforge_test_dots/a/b");
    assert_eq!(sb.resolve("in/d/e").unwrap(), format!("{}/a/b/d/e", root));
}

#[test]
fn link_out_of_the_sandbox_is_an_escape() {
    let mut sb = temp_sandbox("link");
    sb.fs.link("/tmp/codeforge_test_link/out", "/etc");
    match sb.resolve("out/new/file") {
        Err(SandboxError::PathEscape(p)) => assert_eq!(shown(&p), "/etc"),
        _ => panic!("no escape"),
    }
    for result in [
        sb.write_file("out/x", b"x"),
        sb.create_dir("out/x"),
        sb.delete("out/passwd"),
        sb.rename("out/passwd", "mine"),
    ] {
        assert!(matches!(result, Err(SandboxError::PathEscape(_))));
    }
    assert!(sb.read_file("out/passwd").is_err());
    assert!(sb.list_files_recursive("out").is_err());
    assert!(sb.fs.log.is_empty());
}

#[test]
fn link_to_nothing_outside_is_an_escape() {
    for target in ["/etc/new", "../../etc/new", "/nowhere/at/all"] {
        let mut sb = temp_sandbox("dangling");
        sb.fs.link("/tmp/codeforge_test_dangling/link", target);
        for requested in ["link", "link/below", "./link"] {
            assert!(matches!(sb.resolve(requested), Err(SandboxError::PathEscape(_))));
            assert!(matches!(sb.write_file(requested, b"x"), Err(SandboxError::PathEscape(_))));
        }
        assert!(matches!(sb.create_dir("link"), Err(SandboxError::PathEscape(_))));
        assert!(matches!(sb.rename("link", "x"), Err(SandboxError::PathEscape(_))));
        assert!(sb.fs.log.is_empty());
    }
}

#[test]
fn link_to_nothing_through_another_is_an_escape() {
    let mut sb = temp_sandbox("chain");
    sb.fs.link("/tmp/codeforge_test_chain/a", "b");
    sb.fs.link("/tmp/codeforge_test_chain/b", "/etc/new");
    match sb.write_file("a", b"x") {
        Err(SandboxError::PathEscape(p)) => assert_eq!(shown(&p), "/etc"),
        _ => panic!("no escape"),
    }
    assert!(sb.fs.log.is_empty());
}

#[test]
fn link_to_nothing_inside_goes_on() {
    let mut sb = temp_sandbox("inside");
    sb.fs.link("/tmp/codeforge_test_inside/link", "target");
    assert_eq!(sb.resolve("link").unwrap(), "/tmp/codeforge_test_inside/link");
    sb.write_file("link", b"x").unwrap();
    assert_eq!(sb.read_file("target").unwrap(), b"x");
    assert_eq!(sb.read_file("link").unwrap(), b"x");
    assert_eq!(sb.resolve("link").unwrap(), "/tmp/codeforge_test_inside/target");
}

#[test]
fn what_is_written_through_links_to_nothing_is_read_back() {
    let mut sb = temp_sandbox("through");
    sb.fs.link("/tmp/codeforge_test_through/a", "./sub/b");
    sb.fs.link("/tmp/codeforge_test_through/sub/b", "../c");
    sb.create_dir("sub").unwrap();
    sb.write_file("a", b"x").unwrap();
    for requested in ["a", "sub/b", "c"] {
        assert_eq!(sb.read_file(requested).unwrap(), b"x");
        assert_eq!(sb.resolve(requested).unwrap(), "/tmp/codeforge_test_through/c");
    }
    assert!(sb.fs.log.iter().all(|call| call.contains(" /tmp/codeforge_test_through")));
}

#[test]
fn link_to_itself_is_refused() {
    let mut sb = temp_sandbox("loop");
    sb.fs.link("/tmp/codeforge_test_loop/a", "b");
    sb.fs.link("/tmp/codeforge_test_loop/b", "a");
    match sb.resolve("a") {
        Err(error) => assert_eq!(error.message(b'/'), "io error: too many levels of symbolic links"),
        Ok(_) => panic!("resolved"),
    }
}

#[test]
fn link_that_cannot_be_read_fails() {
    let mut fs = MemFs::new();
    let root = fs.open("/tmp/box").unwrap();
    let op = root.resolve(&path("x")).advance(FsReply::Flag(false));
    assert!(matches!(op.call(), Some(FsCall::ReadLink(_))));
    match op.advance(FsReply::Failed("denied".to_string())).finish() {
        Ok(Err(error)) => assert_eq!(error.message(b'/'), "io error: denied"),
        _ => panic!("no error"),
    }
}

#[test]
fn resolved_path_resolves_to_itself() {
    let mut sb = temp_sandbox("again");
    sb.write_file("a/b", b"x").unwrap();
    sb.fs.link("/tmp/codeforge_test_again/l", "a");
    for requested in ["a/b", "l/b", "l/new/file", "a/../a/b", "", "new"] {
        let once = sb.resolve(requested).unwrap();
        assert_eq!(sb.resolve(&once).unwrap(), once);
        let from_root = format!("/tmp/codeforge_test_again/{}", requested);
        assert_eq!(sb.resolve(&from_root).unwrap(), once);
    }
}

#[test]
fn opening_the_root_again_gives_the_same_root() {
    let mut fs = MemFs::new();
    fs.make_dirs("/data");
    fs.link("/tmp/data", "/data");
    let root = fs.open("/tmp/data/new/box").unwrap();
    assert_eq!(shown(root.root_path()), "/data/new/box");
    fs.log.clear();
    let again = fs.open(&shown(root.root_path())).unwrap();
    assert_eq!(shown(again.root_path()), "/data/new/box");
    assert!(fs.log.is_empty());
}

#[test]
fn neighbour_with_the_same_start_is_outside() {
    let mut sb = temp_sandbox("near");
    sb.fs.make_dirs("/tmp/codeforge_test_near_by");
    let result = sb.resolve("../codeforge_test_near_by");
    assert!(matches!(result, Err(SandboxError::PathEscape(_))));
}

#[test]
fn dotdot_behind_nothing_cannot_be_resolved() {
    let mut sb = temp_sandbox("nothing");
    match sb.resolve("no/../x") {
        Err(SandboxError::NotYetCreated(p)) => {
            assert_eq!(shown(&p), "/tmp/codeforge_test_nothing/no/../x")
        }
        _ => panic!("resolved"),
    }
    assert!(matches!(sb.resolve("no/.."), Err(SandboxError::NotYetCreated(_))));
}

#[test]
fn writing_makes_the_parent_first() {
    let mut sb = temp_sandbox("write");
    sb.write_file("a/b", b"1").unwrap();
    assert_eq!(
        sb.fs.log,
        vec!["mkdir /tmp/codeforge_test_write/a", "write /tmp/codeforge_test_write/a/b"]
    );
    sb.write_file("a/b", b"2").unwrap();
    assert_eq!(sb.read_file("a/b").unwrap(), b"2");
    assert!(matches!(sb.write_file("a", b"3"), Err(SandboxError::Io(_))));
}

#[test]
fn directories_and_files_are_removed() {
    let mut sb = temp_sandbox("delete");
    sb.create_dir("d/e").unwrap();
    sb.write_file("d/e/f", b"x").unwrap();
    sb.write_file("g", b"x").unwrap();
    sb.fs.log.clear();
    sb.delete("d").unwrap();
    sb.delete("g").unwrap();
    assert_eq!(
        sb.fs.log,
        vec!["rmdir /tmp/codeforge_test_delete/d", "rm /tmp/codeforge_test_delete/g"]
    );
    assert!(sb.list_files_recursive("").unwrap().is_empty());
    assert!(matches!(sb.delete("g"), Err(SandboxError::Io(_))));
}

#[test]
fn rename_moves_the_file() {
    let mut sb = temp_sandbox("rename");
    sb.write_file("a", b"x").unwrap();
    sb.rename("a", "b").unwrap();
    assert_eq!(sb.read_file("b").unwrap(), b"x");
    assert!(sb.read_file("a").is_err());
    assert!(matches!(sb.rename("../../etc/passwd", "c"), Err(SandboxError::PathEscape(_))));
}

#[test]
fn listing_is_depth_first_from_the_root() {
    let mut sb = temp_sandbox("order");
    for file in ["p/a", "p/b/c", "p/b/d/e", "p/f", "q"] {
        sb.write_file(file, b"").unwrap();
    }
    assert_eq!(
        sb.list_files_recursive("p").unwrap(),
        vec!["p/a", "p/b/c", "p/b/d/e", "p/f"]
    );
    assert_eq!(sb.list_files_recursive(".").unwrap().len(), 5);
    assert!(matches!(sb.list_files_recursive("q"), Err(SandboxError::Io(_))));
}

#[test]
fn messages_of_errors() {
    assert_eq!(
        SandboxError::PathEscape(path("/etc/passwd")).message(b'/'),
        "path escapes sandbox root: /etc/passwd"
    );
    assert_eq!(SandboxError::Io("gone".to_string()).message(b'/'), "io error: gone");
    assert_eq!(
        SandboxError::NotYetCreated(FsPath::parse(b"a/\xff")).message(b'/'),
        "path does not exist yet, cannot canonicalize: a/\u{fffd}"
    );
}

// ---- Drives and shares ---------------------------------------------------

fn name(text: &str) -> Component {
    Component::Normal(text.as_bytes().to_vec())
}

/// A path on a drive.
fn on_drive(verbatim: bool, others: Vec<Component>) -> FsPath {
    let text = if verbatim { r"\\?\C:" } else { "C:" };
    let mut components = vec![Component::Prefix { text: text.as_bytes().to_vec(), verbatim }];
    components.extend(others);
    FsPath::new(components).unwrap()
}

fn with_backslashes(path: &FsPath) -> String {
    String::from_utf8(path.written(b'\\')).unwrap()
}

/// A sandbox at a directory of a drive, whose canonical path is verbatim.
fn drive_sandbox() -> SandboxRoot {
    let asked = on_drive(false, vec![Component::RootDir, name("box")]);
    let canonical = on_drive(true, vec![Component::RootDir, name("box")]);
    let opening = SandboxRoot::new(asked).advance(FsReply::Flag(true));
    match opening.advance(FsReply::Path(canonical)).finish() {
        Ok(Ok(root)) => root,
        _ => panic!("not open"),
    }
}

fn first_question(op: &Operation) -> String {
    match op.call() {
        Some(FsCall::Exists(path)) => with_backslashes(&path),
        _ => panic!("another call"),
    }
}

#[test]
fn request_below_a_drive_is_joined() {
    let root = drive_sandbox();
    assert_eq!(with_backslashes(root.root_path()), r"\\?\C:\box");
    assert_eq!(first_question(&root.resolve(&path("src/a.rs"))), r"\\?\C:\box\src\a.rs");
    // A verbatim path has no `.` and `..`.
    assert_eq!(first_question(&root.resolve(&path("./a/../b/."))), r"\\?\C:\box\b");
    assert_eq!(first_question(&root.resolve(&path("../../../x"))), r"\\?\C:\x");
    assert_eq!(first_question(&root.resolve(&path(""))), r"\\?\C:\box");
}

#[test]
fn request_from_the_root_stays_on_the_drive() {
    let root = drive_sandbox();
    assert_eq!(first_question(&root.resolve(&path("/Windows/../x"))), r"\\?\C:\x");
    let relative = on_drive(false, vec![name("a")]);
    assert_eq!(first_question(&root.resolve(&relative)), "C:a");
}

#[test]
fn request_with_a_drive_is_canonicalised() {
    let root = drive_sandbox();
    let asked = on_drive(false, vec![Component::RootDir, name("box"), name("a")]);
    let op = root.resolve(&asked);
    assert_eq!(first_question(&op), r"C:\box\a");
    let inside = on_drive(true, vec![Component::RootDir, name("box"), name("a")]);
    match op.advance(FsReply::Flag(true)).advance(FsReply::Path(inside)).finish() {
        Ok(Ok(Outcome::Path(path))) => assert_eq!(with_backslashes(&path), r"\\?\C:\box\a"),
        _ => panic!("not resolved"),
    }
    let outside = on_drive(true, vec![Component::RootDir, name("Windows")]);
    let op = root.resolve(&asked).advance(FsReply::Flag(true));
    match op.advance(FsReply::Path(outside)).finish() {
        Ok(Err(error)) => {
            let said = r"path escapes sandbox root: \\?\C:\Windows";
            assert_eq!(error.message(b'\\'), said);
        }
        _ => panic!("no escape"),
    }
}

#[test]
fn drive_has_no_parent() {
    let root = drive_sandbox();
    let file = on_drive(true, vec![Component::RootDir, name("a")]);
    let top = file.parent().unwrap();
    assert_eq!(with_backslashes(&top), r"\\?\C:\");
    assert!(top.parent().is_none());
    assert!(on_drive(false, vec![]).parent().is_none());
    let other = on_drive(false, vec![Component::RootDir, name("box")]);
    assert!(!other.starts_with(root.root_path()));
    assert!(root.root_path().starts_with(&top));
}

#[test]
fn components_form_a_path_or_not() {
    let made = |components: Vec<Component>| FsPath::new(components).is_some();
    let prefix = || Component::Prefix { text: b"C:".to_vec(), verbatim: false };
    assert!(made(vec![]));
    assert!(made(vec![prefix(), Component::RootDir, name("a"), Component::ParentDir]));
    assert!(made(vec![prefix(), Component::CurDir]));
    assert!(!made(vec![name("a"), prefix()]));
    assert!(!made(vec![prefix(), name("a"), Component::RootDir]));
    assert!(!made(vec![name("a"), Component::CurDir]));
    assert!(!made(vec![Component::RootDir, Component::RootDir]));
    assert!(!made(vec![name("a/b")]));
    assert!(!made(vec![name("..")]));
}

#[test]
fn link_target_is_seen_from_the_link() {
    let root = drive_sandbox();
    let peek = root.resolve(&path("link")).advance(FsReply::Flag(false));
    assert!(matches!(peek.call(), Some(FsCall::ReadLink(_))));
    let at_root = peek.advance(FsReply::Link(Some(path("/x")))).advance(FsReply::Flag(true));
    let canonical = on_drive(true, vec![Component::RootDir, name("box")]);
    assert_eq!(first_question(&at_root.advance(FsReply::Path(canonical))), r"\\?\C:\x");
}

// ---- Paths ---------------------------------------------------------------

#[test]
fn paths_are_read_and_written() {
    let cases = [
        ("", ""),
        ("/", "/"),
        ("//a///b/", "/a/b"),
        ("./a", "./a"),
        ("a/./b/.", "a/b"),
        ("/./a", "/a"),
        ("../a/..", "../a/.."),
        ("...", "..."),
    ];
    for (text, written) in cases {
        assert_eq!(shown(&path(text)), written);
        assert_eq!(shown(&path(written)), written);
    }
}

#[test]
fn paths_are_joined_and_taken_apart() {
    let base = path("/a/b");
    assert_eq!(shown(&base.join(&path("c/d"))), "/a/b/c/d");
    assert_eq!(shown(&base.join(&path("./c"))), "/a/b/c");
    assert_eq!(shown(&base.join(&path("/x"))), "/x");
    assert_eq!(shown(&base.parent().unwrap()), "/a");
    assert!(path("/").parent().is_none());
    assert!(path("").parent().is_none());
    assert_eq!(shown(&path("a").parent().unwrap()), "");
    assert!(path("/a/b/c").starts_with(&base));
    assert!(!path("/a/bc").starts_with(&base));
    assert_eq!(shown(&path("/a/b/c").relative_to(&base)), "c");
    assert_eq!(shown(&path("/x/c").relative_to(&base)), "/x/c");
    assert_eq!(shown(&base.clone()), "/a/b");
}

#[test]
fn names_are_names() {
    for bytes in [&b""[..], &b"."[..], &b".."[..], &b"a/b"[..]] {
        assert!(FileName::new(bytes.to_vec()).is_none());
    }
    let name = FileName::new(b"...x".to_vec()).unwrap();
    assert_eq!(shown(&path("/a").child(&name)), "/a/...x");
}
