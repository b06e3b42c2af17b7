//! Writing a file and reading it back, on a disk with directories, files and
//! symbolic links.

use crate::fs_path;
use crate::fs_path::Part;
use crate::fs_sandbox;
use crate::fs_sandbox::{
    CallView, ErrorView, GoalView, OperationView, OutcomeView, ReplyView, StageView,
};
use crate::sandbox_laws;
use crate::sandbox_laws::{Answers, Climb};
use vstd::prelude::*;

verus! {

// ---- The disk ------------------------------------------------------------

/// What stands on a disk, by canonical paths.
pub struct Disk {
    pub dirs: Set<Seq<Part>>,
    pub files: Map<Seq<Part>, Seq<u8>>,
    /// The links and what they point to.
    pub links: Map<Seq<Part>, Seq<Part>>,
    /// How many links may lead one to the other.
    pub hops: nat,
}

/// The path of the root directory.
pub open spec fn top() -> Seq<Part> {
    seq![Part::Root]
}

impl Disk {
    /// There is a directory or a file at the path.
    pub open spec fn holds(self, path: Seq<Part>) -> bool {
        self.dirs.contains(path) || self.files.dom().contains(path)
    }

    /// The root is a directory, every directory, file and link has a directory
    /// above it, and a path has only one of them.
    pub open spec fn well_formed(self) -> bool {
        &&& self.dirs.contains(top())
        &&& forall|p: Seq<Part>| #[trigger]
            self.holds(p) ==> is_canonical_path(p) && !self.links.dom().contains(p)
        &&& forall|p: Seq<Part>| #[trigger]
            self.holds(p) && p.len() > 1 ==> self.dirs.contains(p.drop_last())
        &&& forall|p: Seq<Part>| #[trigger]
            self.links.dom().contains(p) ==> p.len() > 1 && self.dirs.contains(p.drop_last())
        &&& forall|p: Seq<Part>|
            !(#[trigger] self.dirs.contains(p) && self.files.dom().contains(p))
    }

    /// Where the parts lead from a place, links followed.
    pub open spec fn walk(self, at: Seq<Part>, parts: Seq<Part>, hops: nat) -> Option<Seq<Part>>
        decreases hops, parts.len(),
    {
        if parts.len() == 0 {
            Some(at)
        } else {
            let rest = parts.skip(1);
            match parts[0] {
                Part::Prefix { .. } => None,
                Part::Root => self.walk(top(), rest, hops),
                Part::Here => self.walk(at, rest, hops),
                Part::Up => if self.dirs.contains(at) {
                    self.walk(
                        if at.len() > 1 {
                            at.drop_last()
                        } else {
                            at
                        },
                        rest,
                        hops,
                    )
                } else {
                    None
                },
                Part::Name(_) => {
                    let next = at.push(parts[0]);
                    if !self.dirs.contains(at) {
                        None
                    } else if self.links.dom().contains(next) {
                        if hops > 0 {
                            match self.walk(at, self.links[next], (hops - 1) as nat) {
                                Some(place) => self.walk(place, rest, hops),
                                None => None,
                            }
                        } else {
                            None
                        }
                    } else if self.holds(next) {
                        self.walk(next, rest, hops)
                    } else {
                        None
                    }
                },
            }
        }
    }

    /// The canonical path of what stands at a path.
    pub open spec fn found(self, path: Seq<Part>) -> Option<Seq<Part>> {
        match self.walk(seq![], path, self.hops) {
            Some(place) => if self.holds(place) {
                Some(place)
            } else {
                None
            },
            None => None,
        }
    }

    /// Where a file is set that is written under a name in a directory: there, or
    /// where the link of that name leads to, however many links that takes.
    pub open spec fn landing(self, dir: Seq<Part>, name: Part, hops: nat) -> Option<Seq<Part>>
        decreases hops,
    {
        let place = dir.push(name);
        if self.links.dom().contains(place) {
            let target = self.links[place];
            if hops > 0 && target.len() > 0 && target.last() is Name {
                match self.walk(dir, target.drop_last(), (hops - 1) as nat) {
                    Some(next) => if self.dirs.contains(next) {
                        self.landing(next, target.last(), (hops - 1) as nat)
                    } else {
                        None
                    },
                    None => None,
                }
            } else {
                None
            }
        } else {
            Some(place)
        }
    }

    /// The directory that an entry at the path is in.
    pub open spec fn dir_above(self, path: Seq<Part>) -> Option<Seq<Part>> {
        if path.len() > 0 && path.last() is Name {
            match self.found(path.drop_last()) {
                Some(dir) => if self.dirs.contains(dir) {
                    Some(dir)
                } else {
                    None
                },
                None => None,
            }
        } else {
            None
        }
    }

    /// With a directory made at the path, and those above it; none where that is
    /// not possible, as where a link to nothing has the name.
    pub open spec fn with_dir(self, path: Seq<Part>) -> Option<Disk>
        decreases path.len(),
    {
        match self.found(path) {
            Some(place) => if self.dirs.contains(place) {
                Some(self)
            } else {
                None
            },
            None => if path.len() > 0 {
                match self.with_dir(path.drop_last()) {
                    Some(disk) => match disk.dir_above(path) {
                        Some(dir) => if disk.links.dom().contains(dir.push(path.last())) {
                            None
                        } else {
                            Some(Disk { dirs: disk.dirs.insert(dir.push(path.last())), ..disk })
                        },
                        None => None,
                    },
                    None => None,
                }
            } else {
                None
            },
        }
    }

    /// With the content of a file set, where a link leads to nothing the file that
    /// it leads to; none where that is not possible.
    pub open spec fn with_file(self, path: Seq<Part>, bytes: Seq<u8>) -> Option<Disk> {
        match self.found(path) {
            Some(place) => if self.files.dom().contains(place) {
                Some(Disk { files: self.files.insert(place, bytes), ..self })
            } else {
                None
            },
            None => match self.dir_above(path) {
                Some(dir) => match self.landing(dir, path.last(), self.hops) {
                    Some(place) => Some(Disk { files: self.files.insert(place, bytes), ..self }),
                    None => None,
                },
                None => None,
            },
        }
    }

    /// The answer to a call. Nothing is removed or renamed on this disk.
    pub open spec fn reply(self, call: CallView) -> ReplyView {
        let done = |possible: bool|
            if possible {
                ReplyView::Done
            } else {
                ReplyView::Failed(seq![])
            };
        match call {
            CallView::Exists(p) => ReplyView::Flag(self.found(p) is Some),
            CallView::Canonicalize(p) => match self.found(p) {
                Some(place) => ReplyView::Path(place),
                None => ReplyView::Failed(seq![]),
            },
            CallView::ReadLink(p) => ReplyView::Link(
                match self.found(p.drop_last()) {
                    Some(dir) => if p.len() > 0 && self.links.dom().contains(dir.push(p.last())) {
                        Some(self.links[dir.push(p.last())])
                    } else {
                        None
                    },
                    None => None,
                },
            ),
            CallView::IsDir(p) => ReplyView::Flag(
                self.found(p) matches Some(place) && self.dirs.contains(place),
            ),
            CallView::Read(p) => match self.found(p) {
                Some(place) => if self.files.dom().contains(place) {
                    ReplyView::Bytes(self.files[place])
                } else {
                    ReplyView::Failed(seq![])
                },
                None => ReplyView::Failed(seq![]),
            },
            CallView::ReadDir(_) => ReplyView::Failed(seq![]),
            CallView::CreateDirAll(p) => done(self.with_dir(p) is Some),
            CallView::Write(p, bytes) => done(self.with_file(p, bytes) is Some),
            _ => ReplyView::Failed(seq![]),
        }
    }

    /// The disk after a call.
    pub open spec fn after(self, call: CallView) -> Disk {
        match call {
            CallView::CreateDirAll(p) => match self.with_dir(p) {
                Some(disk) => disk,
                None => self,
            },
            CallView::Write(p, bytes) => match self.with_file(p, bytes) {
                Some(disk) => disk,
                None => self,
            },
            _ => self,
        }
    }

    /// The answers while the disk stays as it is.
    pub open spec fn answers(self) -> Answers {
        |call: CallView| self.reply(call)
    }
}

/// The path is that of the root, or names behind it.
pub open spec fn is_canonical_path(path: Seq<Part>) -> bool {
    &&& path.len() > 0
    &&& path[0] == Part::Root
    &&& forall|i: int| 0 < i < path.len() ==> (#[trigger] path[i]) is Name
}

/// An operation and the disk that it works on, after `n` calls.
pub open spec fn run(op: OperationView, disk: Disk, n: nat) -> (OperationView, Disk)
    decreases n,
{
    if n == 0 {
        (op, disk)
    } else {
        match op.stage.call() {
            None => (op, disk),
            Some(call) => run(op.step(disk.reply(call)), disk.after(call), (n - 1) as nat),
        }
    }
}

/// The operation comes to a stage, and leaves the disk as `left`.
pub open spec fn runs_to(op: OperationView, disk: Disk, stage: StageView, left: Disk) -> bool {
    exists|n: nat| #[trigger] run(op, disk, n) == (OperationView { root: op.root, stage }, left)
}

// ---- Walking -------------------------------------------------------------

/// A walk goes on from where its first part leads.
proof fn lemma_walk_on(disk: Disk, at: Seq<Part>, a: Seq<Part>, b: Seq<Part>, hops: nat)
    ensures
        disk.walk(at, a + b, hops) == match disk.walk(at, a, hops) {
            Some(place) => disk.walk(place, b, hops),
            None => None,
        },
    decreases a.len(),
{
    if a.len() == 0 {
        assert(a + b =~= b);
    } else {
        let rest = a.skip(1);
        assert((a + b).skip(1) =~= rest + b);
        assert((a + b)[0] == a[0]);
        match a[0] {
            Part::Prefix { .. } => {},
            Part::Root => lemma_walk_on(disk, top(), rest, b, hops),
            Part::Here => lemma_walk_on(disk, at, rest, b, hops),
            Part::Up => {
                let above = if at.len() > 1 {
                    at.drop_last()
                } else {
                    at
                };
                lemma_walk_on(disk, above, rest, b, hops);
            },
            Part::Name(_) => {
                let next = at.push(a[0]);
                if disk.links.dom().contains(next) {
                    if hops > 0 {
                        if let Some(place) = disk.walk(at, disk.links[next], (hops - 1) as nat) {
                            lemma_walk_on(disk, place, rest, b, hops);
                        }
                    }
                } else {
                    lemma_walk_on(disk, next, rest, b, hops);
                }
            },
        }
    }
}

/// Every directory and every file of one disk is on the other, and the links are
/// the same.
spec fn grows_to(disk: Disk, more: Disk) -> bool {
    &&& disk.hops == more.hops
    &&& disk.links == more.links
    &&& forall|p: Seq<Part>| #[trigger] disk.dirs.contains(p) ==> more.dirs.contains(p)
    &&& forall|p: Seq<Part>| #[trigger] disk.holds(p) ==> more.holds(p)
}

/// What is found stays where it is on a disk that grows, and where more links are
/// followed.
proof fn lemma_walk_grown(
    disk: Disk,
    more: Disk,
    at: Seq<Part>,
    parts: Seq<Part>,
    hops: nat,
    more_hops: nat,
)
    requires
        grows_to(disk, more),
        hops <= more_hops,
        disk.walk(at, parts, hops) is Some,
    ensures
        more.walk(at, parts, more_hops) == disk.walk(at, parts, hops),
    decreases hops, parts.len(),
{
    if parts.len() > 0 {
        let rest = parts.skip(1);
        match parts[0] {
            Part::Prefix { .. } => {},
            Part::Root => lemma_walk_grown(disk, more, top(), rest, hops, more_hops),
            Part::Here => lemma_walk_grown(disk, more, at, rest, hops, more_hops),
            Part::Up => {
                let above = if at.len() > 1 {
                    at.drop_last()
                } else {
                    at
                };
                lemma_walk_grown(disk, more, above, rest, hops, more_hops);
            },
            Part::Name(_) => {
                let next = at.push(parts[0]);
                if disk.links.dom().contains(next) {
                    let target = disk.links[next];
                    let fewer = (hops - 1) as nat;
                    lemma_walk_grown(disk, more, at, target, fewer, (more_hops - 1) as nat);
                    let place = disk.walk(at, target, fewer)->0;
                    lemma_walk_grown(disk, more, place, rest, hops, more_hops);
                } else {
                    assert(disk.holds(next));
                    lemma_walk_grown(disk, more, next, rest, hops, more_hops);
                }
            },
        }
    }
}

/// From what stands on the disk a walk leads to what stands on it.
proof fn lemma_walk_holds(disk: Disk, at: Seq<Part>, parts: Seq<Part>, hops: nat)
    requires
        disk.well_formed(),
        disk.holds(at),
        disk.walk(at, parts, hops) is Some,
    ensures
        disk.holds(disk.walk(at, parts, hops)->0),
    decreases hops, parts.len(),
{
    if parts.len() > 0 {
        let rest = parts.skip(1);
        match parts[0] {
            Part::Prefix { .. } => {},
            Part::Root => {
                assert(disk.holds(top()));
                lemma_walk_holds(disk, top(), rest, hops);
            },
            Part::Here => lemma_walk_holds(disk, at, rest, hops),
            Part::Up => {
                let above = if at.len() > 1 {
                    at.drop_last()
                } else {
                    at
                };
                assert(disk.holds(above));
                lemma_walk_holds(disk, above, rest, hops);
            },
            Part::Name(_) => {
                let next = at.push(parts[0]);
                if disk.links.dom().contains(next) {
                    let target = disk.links[next];
                    lemma_walk_holds(disk, at, target, (hops - 1) as nat);
                    let place = disk.walk(at, target, (hops - 1) as nat)->0;
                    lemma_walk_holds(disk, place, rest, hops);
                } else {
                    lemma_walk_holds(disk, next, rest, hops);
                }
            },
        }
    }
}

/// One name more, which is no link.
proof fn lemma_one_name(disk: Disk, at: Seq<Part>, name: Part, hops: nat)
    requires
        name is Name,
        !disk.links.dom().contains(at.push(name)),
    ensures
        disk.walk(at, seq![name], hops) == if disk.dirs.contains(at) && disk.holds(at.push(name)) {
            Some(at.push(name))
        } else {
            None
        },
{
    reveal_with_fuel(Disk::walk, 2);
    assert(seq![name].skip(1) =~= seq![]);
}

/// One name more, which is a link.
proof fn lemma_one_link(disk: Disk, at: Seq<Part>, name: Part, hops: nat)
    requires
        name is Name,
        disk.dirs.contains(at),
        disk.links.dom().contains(at.push(name)),
    ensures
        disk.walk(at, seq![name], hops) == if hops > 0 {
            disk.walk(at, disk.links[at.push(name)], (hops - 1) as nat)
        } else {
            None
        },
{
    assert(seq![name].skip(1) =~= seq![]);
    if hops > 0 {
        if let Some(place) = disk.walk(at, disk.links[at.push(name)], (hops - 1) as nat) {
            assert(disk.walk(place, seq![], hops) == Some(place));
        }
    }
}

/// A canonical path leads to itself.
proof fn lemma_walk_canonical(disk: Disk, path: Seq<Part>, hops: nat)
    requires
        disk.well_formed(),
        disk.holds(path),
    ensures
        disk.walk(seq![], path, hops) == Some(path),
    decreases path.len(),
{
    if path.len() == 1 {
        reveal_with_fuel(Disk::walk, 2);
        assert(path =~= top());
        assert(path.skip(1) =~= seq![]);
    } else {
        let above = path.drop_last();
        assert(disk.holds(above));
        lemma_walk_canonical(disk, above, hops);
        lemma_walk_on(disk, seq![], above, seq![path.last()], hops);
        assert(above + seq![path.last()] =~= path);
        assert(above.push(path.last()) =~= path);
        assert(path[path.len() - 1] is Name);
        lemma_one_name(disk, above, path.last(), hops);
    }
}

/// A way of names from a directory, all of which are there and none a link.
proof fn lemma_walk_names(disk: Disk, at: Seq<Part>, names: Seq<Part>, hops: nat)
    requires
        disk.well_formed(),
        forall|i: int| 0 <= i < names.len() ==> (#[trigger] names[i]) is Name,
        forall|i: int| 0 <= i < names.len() ==> disk.dirs.contains(at + #[trigger] names.take(i)),
        disk.holds(at + names),
    ensures
        disk.walk(at, names, hops) == Some(at + names),
    decreases names.len(),
{
    if names.len() == 0 {
        assert(at + names =~= at);
    } else {
        let less = names.drop_last();
        let n = names.len() - 1;
        assert(less =~= names.take(n));
        assert forall|i: int| 0 <= i < less.len() implies disk.dirs.contains(
            at + #[trigger] less.take(i),
        ) by {
            assert(less.take(i) =~= names.take(i));
        }
        assert(disk.dirs.contains(at + names.take(n)));
        lemma_walk_names(disk, at, less, hops);
        lemma_walk_on(disk, at, less, seq![names.last()], hops);
        assert(less + seq![names.last()] =~= names);
        assert((at + less).push(names.last()) =~= at + names);
        assert(names[n] is Name);
        lemma_one_name(disk, at + less, names.last(), hops);
    }
}

// ---- Links to nothing ----------------------------------------------------

/// A file is set in a directory, under a name that no link has.
proof fn lemma_landing(disk: Disk, dir: Seq<Part>, name: Part, hops: nat)
    requires
        disk.well_formed(),
        disk.dirs.contains(dir),
        name is Name,
        disk.landing(dir, name, hops) is Some,
    ensures
        ({
            let place = disk.landing(dir, name, hops)->0;
            &&& place.len() > 1
            &&& place.last() is Name
            &&& disk.dirs.contains(place.drop_last())
            &&& !disk.links.dom().contains(place)
        }),
    decreases hops,
{
    let place = dir.push(name);
    if disk.links.dom().contains(place) {
        let target = disk.links[place];
        let next = disk.walk(dir, target.drop_last(), (hops - 1) as nat)->0;
        lemma_landing(disk, next, target.last(), (hops - 1) as nat);
    } else {
        assert(disk.holds(dir));
        assert(place.drop_last() =~= dir);
    }
}

/// Once there is a file where a name lands, the name leads to it.
proof fn lemma_landed(disk: Disk, more: Disk, dir: Seq<Part>, name: Part, hops: nat)
    requires
        grows_to(disk, more),
        disk.dirs.contains(dir),
        name is Name,
        disk.landing(dir, name, hops) is Some,
        more.holds(disk.landing(dir, name, hops)->0),
    ensures
        more.walk(dir, seq![name], hops) == disk.landing(dir, name, hops),
    decreases hops,
{
    let place = dir.push(name);
    if disk.links.dom().contains(place) {
        let target = disk.links[place];
        let fewer = (hops - 1) as nat;
        let above = target.drop_last();
        let next = disk.walk(dir, above, fewer)->0;
        lemma_landed(disk, more, next, target.last(), fewer);
        lemma_walk_grown(disk, more, dir, above, fewer, fewer);
        lemma_walk_on(more, dir, above, seq![target.last()], fewer);
        assert(above + seq![target.last()] =~= target);
        lemma_one_link(more, dir, name, hops);
    } else {
        lemma_one_name(more, dir, name, hops);
    }
}

/// Where there is nothing at the place where a name lands, the name leads to
/// nothing, however many links are followed.
proof fn lemma_leads_to_nothing(disk: Disk, dir: Seq<Part>, name: Part, hops: nat, more: nat)
    requires
        disk.dirs.contains(dir),
        name is Name,
        disk.landing(dir, name, hops) is Some,
        !disk.holds(disk.landing(dir, name, hops)->0),
        hops <= more,
    ensures
        disk.walk(dir, seq![name], more) is None,
    decreases hops,
{
    let place = dir.push(name);
    if disk.links.dom().contains(place) {
        let target = disk.links[place];
        let above = target.drop_last();
        let (fewer, still) = ((hops - 1) as nat, (more - 1) as nat);
        let next = disk.walk(dir, above, fewer)->0;
        lemma_leads_to_nothing(disk, next, target.last(), fewer, still);
        lemma_walk_grown(disk, disk, dir, above, fewer, still);
        lemma_walk_on(disk, dir, above, seq![target.last()], still);
        assert(above + seq![target.last()] =~= target);
        lemma_one_link(disk, dir, name, more);
    } else {
        lemma_one_name(disk, dir, name, more);
    }
}

/// The directory of what a link points to, found by the path of the target.
proof fn lemma_target_found(
    disk: Disk,
    base: Seq<Part>,
    dir: Seq<Part>,
    target: Seq<Part>,
    hops: nat,
)
    requires
        disk.well_formed(),
        disk.found(base) == Some(dir),
        target.len() > 0,
        target.last() is Name,
        hops <= disk.hops,
        disk.walk(dir, target.drop_last(), hops) matches Some(next) && disk.dirs.contains(next),
    ensures
        ({
            let path = fs_path::seen_from(base, target);
            &&& path.len() > 0
            &&& path.last() == target.last()
            &&& disk.found(path.drop_last()) == disk.walk(dir, target.drop_last(), hops)
        }),
{
    let path = fs_path::seen_from(base, target);
    let above = target.drop_last();
    let next = disk.walk(dir, above, hops)->0;
    assert(disk.holds(next));
    lemma_walk_grown(disk, disk, dir, above, hops, disk.hops);
    assert(base.len() > 0 && !fs_path::has_prefix(base)) by {
        if base.len() == 0 {
            assert(disk.holds(seq![]));
        }
    }
    assert(target.len() > 1 ==> above[0] == target[0]);
    if fs_path::has_root(target) {
        assert(path =~= target);
        assert(above.len() > 0);
        assert(disk.walk(seq![], above, disk.hops) == disk.walk(dir, above, disk.hops));
    } else if target[0] == Part::Here {
        let rest = above.skip(1);
        assert(path.drop_last() =~= base + rest);
        lemma_walk_on(disk, seq![], base, rest, disk.hops);
    } else {
        assert(path.drop_last() =~= base + above);
        lemma_walk_on(disk, seq![], base, above, disk.hops);
    }
}

/// A file that is written through links to nothing lies in the root, where the
/// path stays inside.
proof fn lemma_lands_inside(
    root: Seq<Part>,
    path: Seq<Part>,
    dir: Seq<Part>,
    hops: nat,
    disk: Disk,
    fuel: nat,
)
    requires
        disk.well_formed(),
        path.len() > 0,
        path.last() is Name,
        disk.found(path.drop_last()) == Some(dir),
        disk.dirs.contains(dir),
        hops <= disk.hops,
        disk.landing(dir, path.last(), hops) is Some,
        !disk.holds(disk.landing(dir, path.last(), hops)->0),
        sandbox_laws::stays_inside(root, path, disk.answers(), fuel),
    ensures
        fs_sandbox::inside(root, disk.landing(dir, path.last(), hops)->0),
    decreases hops,
{
    let fs = disk.answers();
    let name = path.last();
    let above = path.drop_last();
    let n = path.len();
    lemma_leads_to_nothing(disk, dir, name, hops, disk.hops);
    lemma_walk_on(disk, seq![], above, seq![name], disk.hops);
    assert(above + seq![name] =~= path);
    assert(path.take(n as int) =~= path);
    assert(path.take(n - 1) =~= above);
    assert(fs(CallView::Exists(path)) == ReplyView::Flag(false));
    assert(fs(CallView::Exists(above)) == ReplyView::Flag(true));
    assert(fs(CallView::Canonicalize(above)) == ReplyView::Path(dir));
    reveal_with_fuel(sandbox_laws::nearest_existing, 2);
    assert(sandbox_laws::nearest_existing(path, n, fs) == Some((n - 1) as nat));
    assert(fs_sandbox::inside(root, dir));
    let place = dir.push(name);
    if disk.links.dom().contains(place) {
        let target = disk.links[place];
        assert(fs(CallView::ReadLink(path.take(n as int))) == ReplyView::Link(Some(target)));
        let next = fs_path::seen_from(above, target);
        assert(sandbox_laws::stays_inside(root, next, fs, (fuel - 1) as nat));
        let fewer = (hops - 1) as nat;
        lemma_target_found(disk, above, dir, target, fewer);
        let beside = disk.walk(dir, target.drop_last(), fewer)->0;
        lemma_lands_inside(root, next, beside, fewer, disk, (fuel - 1) as nat);
    } else {
        assert(place =~= dir + seq![name]);
        fs_sandbox::lemma_inside_longer(root, dir, seq![name]);
    }
}

// ---- New directories and files -------------------------------------------

/// A place in a directory that is free can be filled.
proof fn lemma_filled(disk: Disk, place: Seq<Part>, more: Disk)
    requires
        disk.well_formed(),
        place.len() > 1,
        place.last() is Name,
        disk.dirs.contains(place.drop_last()),
        !disk.holds(place),
        !disk.links.dom().contains(place),
        more.hops == disk.hops,
        more.links == disk.links,
        forall|p: Seq<Part>| #[trigger] more.holds(p) <==> disk.holds(p) || p == place,
        forall|p: Seq<Part>| #[trigger] disk.dirs.contains(p) ==> more.dirs.contains(p),
        forall|p: Seq<Part>| !(#[trigger] more.dirs.contains(p) && more.files.dom().contains(p)),
    ensures
        more.well_formed(),
        grows_to(disk, more),
{
    assert forall|p: Seq<Part>| #[trigger] more.holds(p) implies is_canonical_path(p)
        && !more.links.dom().contains(p) by {
        if p == place {
            let above = place.drop_last();
            assert(disk.holds(above));
            assert forall|i: int| 0 < i < place.len() implies (#[trigger] place[i]) is Name by {
                if i < above.len() {
                    assert(above[i] is Name);
                }
            }
            assert(above[0] == place[0]);
        }
    }
}

/// The names behind `place` lead to nothing: neither a directory or file, nor a
/// link.
spec fn is_free(disk: Disk, place: Seq<Part>, names: Seq<Part>, from: int) -> bool {
    forall|i: int|
        from < i <= names.len() ==> !disk.holds(place + #[trigger] names.take(i))
            && !disk.links.dom().contains(place + names.take(i))
}

/// Making the directories at the first `n` of some free names makes those, and
/// leaves the others free.
proof fn lemma_with_dir(disk: Disk, place: Seq<Part>, names: Seq<Part>, n: nat)
    requires
        disk.well_formed(),
        disk.holds(place),
        forall|i: int| 0 <= i < names.len() ==> (#[trigger] names[i]) is Name,
        is_free(disk, place, names, 0),
        n <= names.len(),
        disk.with_dir(place + names.take(n as int)) is Some,
    ensures
        ({
            let made = disk.with_dir(place + names.take(n as int))->0;
            &&& made.well_formed()
            &&& grows_to(disk, made)
            &&& forall|i: int|
                0 <= i <= n ==> made.dirs.contains(place + #[trigger] names.take(i))
            &&& is_free(made, place, names, n as int)
            &&& made.files == disk.files
            &&& forall|p: Seq<Part>| #[trigger]
                made.dirs.contains(p) ==> disk.dirs.contains(p) || place.is_prefix_of(p)
        }),
    decreases n,
{
    let path = place + names.take(n as int);
    if n == 0 {
        assert(path =~= place);
        lemma_walk_canonical(disk, place, disk.hops);
        assert(names.take(0) =~= seq![]);
    } else {
        let less = (n - 1) as nat;
        let above = place + names.take(less as int);
        let name = names[less as int];
        assert(path.drop_last() =~= above);
        assert(path.last() == name);
        assert(above.push(name) =~= path);
        assert(disk.found(path) is None) by {
            if let Some(q) = disk.found(path) {
                lemma_not_found(disk, place, names, n);
            }
        }
        lemma_with_dir(disk, place, names, less);
        let made = disk.with_dir(above)->0;
        assert(made.dirs.contains(place + names.take(less as int)));
        assert(made.holds(above));
        lemma_walk_canonical(made, above, made.hops);
        assert(made.dir_above(path) == Some(above));
        let more = disk.with_dir(path)->0;
        assert(more.dirs == made.dirs.insert(path));
        assert(!made.holds(place + names.take(n as int)));
        assert(path.len() > 1);
        lemma_filled(made, path, more);
        assert(place =~= path.take(place.len() as int));
        assert forall|i: int| 0 <= i <= n implies more.dirs.contains(
            place + #[trigger] names.take(i),
        ) by {
            if i < n {
                assert(made.dirs.contains(place + names.take(i)));
            }
        }
        assert forall|i: int| n < i <= names.len() implies !more.holds(
            place + #[trigger] names.take(i),
        ) && !more.links.dom().contains(place + names.take(i)) by {
            assert(!made.holds(place + names.take(i)));
            assert((place + names.take(i)).len() != path.len());
        }
    }
}

/// Nothing is found at free names.
proof fn lemma_not_found(disk: Disk, place: Seq<Part>, names: Seq<Part>, n: nat)
    requires
        disk.well_formed(),
        disk.holds(place),
        forall|i: int| 0 <= i < names.len() ==> (#[trigger] names[i]) is Name,
        is_free(disk, place, names, 0),
        0 < n <= names.len(),
    ensures
        disk.walk(seq![], place + names.take(n as int), disk.hops) is None,
{
    let first = names.take(1);
    let rest = names.subrange(1, n as int);
    assert(place + names.take(n as int) =~= (place + first) + rest);
    lemma_walk_on(disk, seq![], place + first, rest, disk.hops);
    lemma_walk_on(disk, seq![], place, first, disk.hops);
    lemma_walk_canonical(disk, place, disk.hops);
    assert(first =~= seq![names[0]]);
    assert(place.push(names[0]) =~= place + first);
    assert(!disk.holds(place + names.take(1)));
    lemma_one_name(disk, place, names[0], disk.hops);
}

// ---- Runs ----------------------------------------------------------------

proof fn lemma_disk_answers(disk: Disk)
    ensures
        sandbox_laws::answering(disk.answers()),
{
    let fs = disk.answers();
    assert forall|call: CallView| fs_sandbox::answers(#[trigger] fs(call), call) by {
        assert(fs(call) == disk.reply(call));
    }
}

/// While nothing is changed, the disk stays as it is.
proof fn lemma_run_unchanged(op: OperationView, disk: Disk, n: nat)
    requires
        sandbox_laws::changes(op, disk.answers(), n).len() == 0,
    ensures
        run(op, disk, n) == (sandbox_laws::after(op, disk.answers(), n), disk),
    decreases n,
{
    if n > 0 {
        if let Some(call) = op.stage.call() {
            let fs = disk.answers();
            assert(fs(call) == disk.reply(call));
            assert(!sandbox_laws::is_change(call));
            lemma_run_unchanged(op.step(disk.reply(call)), disk, (n - 1) as nat);
        }
    }
}

proof fn lemma_runs_unchanged(op: OperationView, disk: Disk, stage: StageView)
    requires
        sandbox_laws::comes_to(op, disk.answers(), seq![], stage),
    ensures
        runs_to(op, disk, stage, disk),
{
    let fs = disk.answers();
    let n = choose|n: nat| #[trigger]
        sandbox_laws::after(op, fs, n) == (OperationView { root: op.root, stage })
            && sandbox_laws::changes(op, fs, n) == Seq::<CallView>::empty();
    lemma_run_unchanged(op, disk, n);
    assert(run(op, disk, n) == (OperationView { root: op.root, stage }, disk));
}

proof fn lemma_run_split(op: OperationView, disk: Disk, n: nat, m: nat)
    ensures
        run(op, disk, n + m) == run(run(op, disk, n).0, run(op, disk, n).1, m),
    decreases n,
{
    if n > 0 {
        match op.stage.call() {
            None => {
                assert(run(op, disk, m) == (op, disk));
            },
            Some(call) => {
                assert((n + m - 1) as nat == (n - 1) as nat + m);
                lemma_run_split(op.step(disk.reply(call)), disk.after(call), (n - 1) as nat, m);
            },
        }
    }
}

/// One more call behind a run.
proof fn lemma_runs_on(
    op: OperationView,
    disk: Disk,
    stage: StageView,
    left: Disk,
    call: CallView,
)
    requires
        runs_to(op, disk, stage, left),
        stage.call() == Some(call),
    ensures
        runs_to(op, disk, stage.next(op.root, left.reply(call)), left.after(call)),
{
    let here = OperationView { root: op.root, stage };
    let n = choose|n: nat| #[trigger] run(op, disk, n) == (here, left);
    lemma_run_split(op, disk, n, 1);
    reveal_with_fuel(run, 2);
    assert(run(here, left, 1) == (here.step(left.reply(call)), left.after(call)));
    assert(run(op, disk, n + 1) == (
        OperationView { root: op.root, stage: stage.next(op.root, left.reply(call)) },
        left.after(call),
    ));
}

/// A run that has ended has one end.
pub proof fn law_runs_end_once(
    op: OperationView,
    disk: Disk,
    a: Result<OutcomeView, ErrorView>,
    left_a: Disk,
    b: Result<OutcomeView, ErrorView>,
    left_b: Disk,
)
    requires
        runs_to(op, disk, StageView::Finished(a), left_a),
        runs_to(op, disk, StageView::Finished(b), left_b),
    ensures
        a == b,
        left_a == left_b,
{
    let end_a = OperationView { root: op.root, stage: StageView::Finished(a) };
    let end_b = OperationView { root: op.root, stage: StageView::Finished(b) };
    let n = choose|n: nat| #[trigger] run(op, disk, n) == (end_a, left_a);
    let m = choose|m: nat| #[trigger] run(op, disk, m) == (end_b, left_b);
    lemma_run_split(op, disk, n, m);
    lemma_run_split(op, disk, m, n);
    assert(run(end_a, left_a, m) == (end_a, left_a));
    assert(run(end_b, left_b, n) == (end_b, left_b));
}

// ---- Reading back --------------------------------------------------------

/// A read on a disk where the path leads to a file.
proof fn lemma_reads(
    root: Seq<Part>,
    requested: Seq<Part>,
    file: Seq<Part>,
    disk: Disk,
)
    requires
        disk.well_formed(),
        disk.found(fs_sandbox::requested_path(root, requested)) == Some(file),
        disk.files.dom().contains(file),
        fs_sandbox::inside(root, file),
    ensures
        runs_to(
            fs_sandbox::started(root, GoalView::Read, requested),
            disk,
            StageView::Finished(Ok(OutcomeView::Contents(disk.files[file]))),
            disk,
        ),
{
    let fs = disk.answers();
    let candidate = fs_sandbox::requested_path(root, requested);
    let search = fs_sandbox::search_for(candidate);
    assert(candidate.take(candidate.len() as int) =~= candidate);
    assert(fs(CallView::Exists(candidate)) == ReplyView::Flag(true));
    assert(fs(CallView::Canonicalize(candidate)) == ReplyView::Path(file));
    assert(sandbox_laws::climb(search, candidate.len(), fs) == (Climb::At {
        search,
        depth: candidate.len(),
    }));
    assert(file + candidate.skip(candidate.len() as int) =~= file);
    lemma_disk_answers(disk);
    sandbox_laws::law_read_file(root, requested, file, fs);
    assert(disk.holds(file));
    lemma_walk_canonical(disk, file, disk.hops);
    assert(fs(CallView::Read(file)) == ReplyView::Bytes(disk.files[file]));
    lemma_runs_unchanged(
        fs_sandbox::started(root, GoalView::Read, requested),
        disk,
        StageView::Finished(Ok(OutcomeView::Contents(disk.files[file]))),
    );
}

/// Reading the path gives the content.
spec fn reads(root: Seq<Part>, requested: Seq<Part>, contents: Seq<u8>, disk: Disk) -> bool {
    runs_to(
        fs_sandbox::started(root, GoalView::Read, requested),
        disk,
        StageView::Finished(Ok(OutcomeView::Contents(contents))),
        disk,
    )
}

/// Outside the root, nothing is on one disk and not on the other.
pub open spec fn same_outside(root: Seq<Part>, disk: Disk, other: Disk) -> bool {
    &&& disk.links == other.links
    &&& forall|p: Seq<Part>|
        #![trigger other.dirs.contains(p)]
        #![trigger other.files.dom().contains(p)]
        !fs_sandbox::inside(root, p) ==> {
            &&& other.dirs.contains(p) == disk.dirs.contains(p)
            &&& other.files.dom().contains(p) == disk.files.dom().contains(p)
            &&& disk.files.dom().contains(p) ==> other.files[p] == disk.files[p]
        }
}

/// The write has an end and changes nothing outside the root; where it is done, the
/// file is read back.
spec fn reads_back(
    root: Seq<Part>,
    requested: Seq<Part>,
    contents: Seq<u8>,
    disk: Disk,
    result: Result<OutcomeView, ErrorView>,
    left: Disk,
) -> bool {
    &&& runs_to(
        fs_sandbox::started(root, GoalView::Write(contents), requested),
        disk,
        StageView::Finished(result),
        left,
    )
    &&& result is Ok ==> reads(root, requested, contents, left)
    &&& same_outside(root, disk, left)
}

/// A file that is there is written over.
#[verifier::spinoff_prover]
proof fn lemma_written_over(
    root: Seq<Part>,
    requested: Seq<Part>,
    contents: Seq<u8>,
    disk: Disk,
    place: Seq<Part>,
)
    requires
        disk.well_formed(),
        disk.found(fs_sandbox::requested_path(root, requested)) == Some(place),
        fs_sandbox::inside(root, place),
        place.len() > 1,
        disk.with_dir(place.drop_last()) is Some,
        disk.with_dir(place.drop_last())->0.with_file(place, contents) is Some,
    ensures
        reads(
            root,
            requested,
            contents,
            disk.with_dir(place.drop_last())->0.with_file(place, contents)->0,
        ),
        same_outside(
            root,
            disk,
            disk.with_dir(place.drop_last())->0.with_file(place, contents)->0,
        ),
{
    let candidate = fs_sandbox::requested_path(root, requested);
    let above = place.drop_last();
    assert(disk.holds(place));
    assert(disk.dirs.contains(above));
    assert(disk.holds(above));
    lemma_walk_canonical(disk, above, disk.hops);
    assert(disk.with_dir(above)->0 == disk);
    lemma_walk_canonical(disk, place, disk.hops);
    let left = disk.with_file(place, contents)->0;
    assert forall|p: Seq<Part>| #[trigger] left.holds(p) implies disk.holds(p) by {}
    assert forall|p: Seq<Part>| #[trigger] disk.holds(p) implies left.holds(p) by {}
    assert forall|p: Seq<Part>| #[trigger]
        left.holds(p) && p.len() > 1 implies left.dirs.contains(p.drop_last()) by {
        assert(disk.holds(p));
    }
    assert(left.well_formed());
    lemma_walk_grown(disk, left, seq![], candidate, disk.hops, disk.hops);
    lemma_reads(root, requested, place, left);
}

/// A file that is not there is written, with the directories above it: `near` is
/// the nearest part of the path that exists, `names` what follows.
#[verifier::spinoff_prover]
proof fn lemma_written_new(
    root: Seq<Part>,
    requested: Seq<Part>,
    contents: Seq<u8>,
    disk: Disk,
    near: Seq<Part>,
    place: Seq<Part>,
    names: Seq<Part>,
)
    requires
        disk.well_formed(),
        names.len() > 0,
        fs_sandbox::requested_path(root, requested) == near + names,
        disk.found(near) == Some(place),
        forall|i: int| 0 <= i < names.len() ==> (#[trigger] names[i]) is Name,
        is_free(disk, place, names, 0),
        fs_sandbox::inside(root, place),
        disk.with_dir((place + names).drop_last()) is Some,
        disk.with_dir((place + names).drop_last())->0.with_file(place + names, contents) is Some,
    ensures
        reads(
            root,
            requested,
            contents,
            disk.with_dir((place + names).drop_last())->0.with_file(place + names, contents)->0,
        ),
        same_outside(
            root,
            disk,
            disk.with_dir((place + names).drop_last())->0.with_file(place + names, contents)->0,
        ),
{
    let safe = place + names;
    let n = (names.len() - 1) as nat;
    let above = place + names.take(n as int);
    assert(safe.drop_last() =~= above);
    let made = disk.with_dir(above)->0;
    let left = made.with_file(safe, contents)->0;
    lemma_with_dir(disk, place, names, n);
    assert(names.take(names.len() as int) =~= names);
    assert(!made.holds(place + names.take(names.len() as int)));
    assert(made.dirs.contains(place + names.take(n as int)));
    assert(made.holds(above));
    lemma_walk_canonical(made, above, made.hops);
    lemma_walk_on(made, seq![], above, seq![safe.last()], made.hops);
    assert(above + seq![safe.last()] =~= safe);
    assert(above.push(safe.last()) =~= safe);
    assert(safe.last() == names[n as int]);
    lemma_one_name(made, above, safe.last(), made.hops);
    assert(made.found(safe) is None);
    assert(made.dir_above(safe) == Some(above));
    assert(left.files == made.files.insert(safe, contents));
    lemma_filled(made, safe, left);
    lemma_walk_grown(disk, made, seq![], near, disk.hops, disk.hops);
    lemma_walk_grown(made, left, seq![], near, disk.hops, disk.hops);
    lemma_walk_on(left, seq![], near, names, left.hops);
    assert forall|i: int| 0 <= i < names.len() implies left.dirs.contains(
        place + #[trigger] names.take(i),
    ) by {
        assert(made.dirs.contains(place + names.take(i)));
    }
    assert(left.holds(safe));
    lemma_walk_names(left, place, names, left.hops);
    fs_sandbox::lemma_inside_longer(root, place, names);
    lemma_reads(root, requested, safe, left);
    lemma_below_inside(root, place, made.dirs, disk.dirs);
}

/// A file is written through a link to nothing, which stands in a directory that
/// `near` leads to.
#[verifier::spinoff_prover]
proof fn lemma_written_through(
    root: Seq<Part>,
    requested: Seq<Part>,
    contents: Seq<u8>,
    disk: Disk,
    near: Seq<Part>,
    dir: Seq<Part>,
    name: Part,
)
    requires
        disk.well_formed(),
        name is Name,
        fs_sandbox::requested_path(root, requested) == near.push(name),
        disk.found(near) == Some(dir),
        disk.found(near.push(name)) is None,
        sandbox_laws::leads_to(root, requested, disk.answers()) is Ok,
        disk.with_dir(dir) is Some,
        disk.with_dir(dir)->0.with_file(dir.push(name), contents) is Some,
    ensures
        reads(
            root,
            requested,
            contents,
            disk.with_dir(dir)->0.with_file(dir.push(name), contents)->0,
        ),
        same_outside(
            root,
            disk,
            disk.with_dir(dir)->0.with_file(dir.push(name), contents)->0,
        ),
{
    let candidate = near.push(name);
    let safe = dir.push(name);
    lemma_walk_canonical(disk, dir, disk.hops);
    assert(disk.with_dir(dir)->0 == disk);
    assert(disk.dirs.contains(dir));
    lemma_walk_on(disk, seq![], near, seq![name], disk.hops);
    lemma_walk_on(disk, seq![], dir, seq![name], disk.hops);
    assert(near + seq![name] =~= candidate);
    assert(dir + seq![name] =~= safe);
    assert(safe.drop_last() =~= dir);
    assert(candidate.drop_last() =~= near);
    assert(disk.found(safe) is None);
    assert(disk.dir_above(safe) == Some(dir));
    let place = disk.landing(dir, name, disk.hops)->0;
    let left = disk.with_file(safe, contents)->0;
    assert(left.files == disk.files.insert(place, contents));
    lemma_landing(disk, dir, name, disk.hops);
    if disk.holds(place) {
        lemma_landed(disk, disk, dir, name, disk.hops);
    }
    lemma_filled(disk, place, left);
    lemma_walk_grown(disk, left, seq![], near, disk.hops, disk.hops);
    assert(left.holds(place));
    lemma_landed(disk, left, dir, name, disk.hops);
    lemma_walk_on(left, seq![], near, seq![name], left.hops);
    sandbox_laws::law_no_link_leads_outside(root, requested, disk.answers());
    lemma_lands_inside(
        root,
        candidate,
        dir,
        disk.hops,
        disk,
        (fs_sandbox::MAX_LINKS + 1) as nat,
    );
    lemma_reads(root, requested, place, left);
}

/// What lies below a place in the root lies in the root.
proof fn lemma_below_inside(
    root: Seq<Part>,
    place: Seq<Part>,
    made: Set<Seq<Part>>,
    before: Set<Seq<Part>>,
)
    requires
        fs_sandbox::inside(root, place),
        forall|p: Seq<Part>| #[trigger]
            made.contains(p) ==> before.contains(p) || place.is_prefix_of(p),
    ensures
        forall|p: Seq<Part>| #[trigger]
            made.contains(p) ==> before.contains(p) || fs_sandbox::inside(root, p),
{
    assert forall|p: Seq<Part>| #[trigger] made.contains(p) implies before.contains(p)
        || fs_sandbox::inside(root, p) by {
        if place.is_prefix_of(p) {
            assert(p =~= place + p.skip(place.len() as int));
            fs_sandbox::lemma_inside_longer(root, place, p.skip(place.len() as int));
        }
    }
}

/// The nearest part of a requested path that exists.
spec fn existing(root: Seq<Part>, requested: Seq<Part>, disk: Disk) -> Seq<Part> {
    let candidate = fs_sandbox::requested_path(root, requested);
    let depth = sandbox_laws::nearest_existing(candidate, candidate.len(), disk.answers())->0;
    candidate.take(depth as int)
}

/// The names behind it.
spec fn put_back(root: Seq<Part>, requested: Seq<Part>, disk: Disk) -> Seq<Part> {
    fs_sandbox::requested_path(root, requested).skip(
        existing(root, requested, disk).len() as int,
    )
}

/// A resolved path is the place of what exists, in the root, with the names behind
/// it, of which the first leads to nothing.
proof fn lemma_resolved(root: Seq<Part>, requested: Seq<Part>, safe: Seq<Part>, disk: Disk)
    requires
        sandbox_laws::leads_to(root, requested, disk.answers()) == Ok::<Seq<Part>, ErrorView>(safe),
    ensures
        ({
            let near = existing(root, requested, disk);
            let names = put_back(root, requested, disk);
            &&& fs_sandbox::requested_path(root, requested) == near + names
            &&& disk.found(near) matches Some(place)
            &&& safe == place + names
            &&& fs_sandbox::inside(root, place)
            &&& forall|i: int| 0 <= i < names.len() ==> (#[trigger] names[i]) is Name
            &&& names.len() > 0 ==> disk.found(near.push(names[0])) is None
        }),
{
    let fs = disk.answers();
    let candidate = fs_sandbox::requested_path(root, requested);
    sandbox_laws::law_names_are_put_back(root, requested, fs);
    sandbox_laws::law_no_link_leads_outside(root, requested, fs);
    sandbox_laws::law_nearest_existing(candidate, candidate.len(), fs);
    let depth = sandbox_laws::nearest_existing(candidate, candidate.len(), fs)->0 as int;
    let near = candidate.take(depth);
    let names = candidate.skip(depth);
    assert(fs(CallView::Exists(near)) == disk.reply(CallView::Exists(near)));
    assert(fs(CallView::Canonicalize(near)) == disk.reply(CallView::Canonicalize(near)));
    assert(candidate =~= near + names);
    assert forall|i: int| 0 <= i < names.len() implies (#[trigger] names[i]) is Name by {
        assert(names[i] == candidate[i + depth]);
    }
    if names.len() > 0 {
        let first = candidate.take(depth + 1);
        assert(first =~= near.push(names[0]));
        assert(fs(CallView::Exists(first)) == disk.reply(CallView::Exists(first)));
    }
}

/// The content is set, and read back.
proof fn lemma_written(
    root: Seq<Part>,
    requested: Seq<Part>,
    contents: Seq<u8>,
    disk: Disk,
    safe: Seq<Part>,
)
    requires
        disk.well_formed(),
        sandbox_laws::leads_to(root, requested, disk.answers()) == Ok::<Seq<Part>, ErrorView>(safe),
        safe.len() > 1,
        disk.with_dir(safe.drop_last()) is Some,
        disk.with_dir(safe.drop_last())->0.with_file(safe, contents) is Some,
    ensures
        reads(
            root,
            requested,
            contents,
            disk.with_dir(safe.drop_last())->0.with_file(safe, contents)->0,
        ),
        same_outside(
            root,
            disk,
            disk.with_dir(safe.drop_last())->0.with_file(safe, contents)->0,
        ),
{
    let candidate = fs_sandbox::requested_path(root, requested);
    let near = existing(root, requested, disk);
    let place = disk.found(near)->0;
    let names = put_back(root, requested, disk);
    lemma_resolved(root, requested, safe, disk);
    if names.len() == 0 {
        assert(safe =~= place);
        assert(candidate =~= near);
        lemma_written_over(root, requested, contents, disk, place);
    } else {
        lemma_first_name(disk, near, place, names[0]);
        if !disk.links.dom().contains(place.push(names[0])) {
            lemma_free_from(disk, place, names, names.len());
            lemma_written_new(root, requested, contents, disk, near, place, names);
        } else {
            let n = (names.len() - 1) as nat;
            assert(safe.drop_last() =~= place + names.take(n as int));
            if n > 0 {
                lemma_no_dir(disk, place, names, n);
            }
            assert(safe.drop_last() =~= place);
            assert(safe =~= place.push(names[0]));
            assert(candidate =~= near.push(names[0]));
            lemma_written_through(root, requested, contents, disk, near, place, names[0]);
        }
    }
}

/// The first name that is put back leads to nothing from the place before it.
proof fn lemma_first_name(disk: Disk, near: Seq<Part>, place: Seq<Part>, name: Part)
    requires
        disk.well_formed(),
        disk.found(near) == Some(place),
        disk.found(near.push(name)) is None,
        name is Name,
    ensures
        disk.walk(place, seq![name], disk.hops) is None,
        !disk.holds(place.push(name)),
{
    assert(near + seq![name] =~= near.push(name));
    lemma_walk_on(disk, seq![], near, seq![name], disk.hops);
    if disk.walk(place, seq![name], disk.hops) is Some {
        lemma_walk_holds(disk, place, seq![name], disk.hops);
    }
    if disk.holds(place.push(name)) {
        assert(place.push(name).drop_last() =~= place);
        lemma_one_name(disk, place, name, disk.hops);
    }
}

/// No directory is made behind a link to nothing.
proof fn lemma_no_dir(disk: Disk, place: Seq<Part>, names: Seq<Part>, n: nat)
    requires
        disk.well_formed(),
        disk.holds(place),
        0 < n <= names.len(),
        forall|i: int| 0 <= i < names.len() ==> (#[trigger] names[i]) is Name,
        disk.links.dom().contains(place.push(names[0])),
        disk.walk(place, seq![names[0]], disk.hops) is None,
    ensures
        disk.with_dir(place + names.take(n as int)) is None,
    decreases n,
{
    let path = place + names.take(n as int);
    let rest = names.subrange(1, n as int);
    lemma_walk_canonical(disk, place, disk.hops);
    lemma_walk_on(disk, seq![], place, seq![names[0]], disk.hops);
    lemma_walk_on(disk, seq![], place + seq![names[0]], rest, disk.hops);
    assert(path =~= (place + seq![names[0]]) + rest);
    assert(disk.found(path) is None);
    if n == 1 {
        assert(path.drop_last() =~= place);
        assert(path.last() == names[0]);
        assert(disk.with_dir(place) is Some ==> disk.with_dir(place)->0 == disk);
    } else {
        lemma_no_dir(disk, place, names, (n - 1) as nat);
        assert(path.drop_last() =~= place + names.take(n - 1));
    }
}

proof fn lemma_free_from(disk: Disk, place: Seq<Part>, names: Seq<Part>, n: nat)
    requires
        disk.well_formed(),
        disk.holds(place),
        0 < n <= names.len(),
        !disk.holds(place.push(names[0])),
        !disk.links.dom().contains(place.push(names[0])),
    ensures
        forall|i: int|
            0 < i <= n ==> !disk.holds(place + #[trigger] names.take(i))
                && !disk.links.dom().contains(place + names.take(i)),
    decreases n,
{
    if n == 1 {
        assert(place + names.take(1) =~= place.push(names[0]));
    } else {
        lemma_free_from(disk, place, names, (n - 1) as nat);
        let path = place + names.take(n as int);
        assert(path.drop_last() =~= place + names.take(n - 1));
        assert(!disk.holds(place + names.take(n - 1)));
    }
}

/// The path that a requested path leads to is canonical.
proof fn lemma_safe(root: Seq<Part>, requested: Seq<Part>, safe: Seq<Part>, disk: Disk)
    requires
        disk.well_formed(),
        sandbox_laws::leads_to(root, requested, disk.answers()) == Ok::<Seq<Part>, ErrorView>(safe),
    ensures
        is_canonical_path(safe),
{
    let place = disk.found(existing(root, requested, disk))->0;
    let names = put_back(root, requested, disk);
    lemma_resolved(root, requested, safe, disk);
    assert(disk.holds(place));
    assert forall|i: int| 0 < i < safe.len() implies (#[trigger] safe[i]) is Name by {
        if i < place.len() {
            assert(safe[i] == place[i]);
        } else {
            assert(safe[i] == names[i - place.len()]);
        }
    }
}

/// The directories that are made for a resolved path lie in the root.
proof fn lemma_made(
    root: Seq<Part>,
    requested: Seq<Part>,
    safe: Seq<Part>,
    path: Seq<Part>,
    disk: Disk,
)
    requires
        disk.well_formed(),
        sandbox_laws::leads_to(root, requested, disk.answers()) == Ok::<Seq<Part>, ErrorView>(safe),
        path == safe || safe.len() > 1 && path == safe.drop_last(),
        disk.with_dir(path) is Some,
    ensures
        same_outside(root, disk, disk.with_dir(path)->0),
{
    let near = existing(root, requested, disk);
    let place = disk.found(near)->0;
    let names = put_back(root, requested, disk);
    lemma_resolved(root, requested, safe, disk);
    assert(disk.holds(place));
    if path.len() < place.len() {
        assert(path =~= place.drop_last());
        assert(disk.holds(path));
        lemma_walk_canonical(disk, path, disk.hops);
    } else {
        let n = (path.len() - place.len()) as nat;
        assert(path =~= place + names.take(n as int));
        if n == 0 {
            assert(path =~= place);
            lemma_walk_canonical(disk, path, disk.hops);
        } else {
            lemma_first_name(disk, near, place, names[0]);
            if disk.links.dom().contains(place.push(names[0])) {
                lemma_no_dir(disk, place, names, n);
            }
            lemma_free_from(disk, place, names, names.len());
            lemma_with_dir(disk, place, names, n);
            lemma_below_inside(root, place, disk.with_dir(path)->0.dirs, disk.dirs);
        }
    }
}

/// A write to a path comes to an end.
proof fn lemma_write(root: Seq<Part>, requested: Seq<Part>, contents: Seq<u8>, disk: Disk)
    requires
        disk.well_formed(),
    ensures
        exists|result: Result<OutcomeView, ErrorView>, left: Disk| #[trigger]
            reads_back(root, requested, contents, disk, result, left),
{
    let fs = disk.answers();
    let goal = GoalView::Write(contents);
    let op = fs_sandbox::started(root, goal, requested);
    lemma_disk_answers(disk);
    sandbox_laws::law_path_is_resolved_first(root, goal, requested, fs);
    let resolved = sandbox_laws::leads_to(root, requested, fs);
    let stage = sandbox_laws::concluded(root, goal, resolved);
    lemma_runs_unchanged(op, disk, stage);
    match resolved {
        Err(error) => {
            assert(reads_back(root, requested, contents, disk, Err(error), disk));
        },
        Ok(safe) => {
            let write = CallView::Write(safe, contents);
            lemma_safe(root, requested, safe, disk);
            if let Some(parent) = fs_path::parent(safe) {
                let make = CallView::CreateDirAll(parent);
                lemma_runs_on(op, disk, stage, disk, make);
                let made = disk.after(make);
                if disk.with_dir(parent) is Some {
                    lemma_made(root, requested, safe, parent, disk);
                    let writing = StageView::Writing(safe, contents);
                    lemma_runs_on(op, disk, writing, made, write);
                    let left = made.after(write);
                    if made.with_file(safe, contents) is Some {
                        lemma_written(root, requested, contents, disk, safe);
                        assert(reads_back(
                            root,
                            requested,
                            contents,
                            disk,
                            Ok(OutcomeView::Done),
                            left,
                        ));
                    } else {
                        let failed = Err(ErrorView::Io(seq![]));
                        assert(reads_back(root, requested, contents, disk, failed, left));
                    }
                } else {
                    let failed = Err(ErrorView::Io(seq![]));
                    assert(reads_back(root, requested, contents, disk, failed, made));
                }
            } else {
                lemma_runs_on(op, disk, stage, disk, write);
                assert(safe =~= top()) by {
                    if safe.len() > 1 {
                        assert(safe[safe.len() - 1] is Name);
                    }
                }
                assert(disk.holds(top()));
                lemma_walk_canonical(disk, top(), disk.hops);
                let failed = Err(ErrorView::Io(seq![]));
                assert(reads_back(root, requested, contents, disk, failed, disk.after(write)));
            }
        },
    }
}

/// What was written is read back: a write to a path comes to an end, and where it
/// is done, reading the same path gives the bytes, whether the file was there
/// before, or the directories above it, and also through a link to nothing.
pub proof fn law_write_then_read(
    root: Seq<Part>,
    requested: Seq<Part>,
    contents: Seq<u8>,
    disk: Disk,
)
    requires
        disk.well_formed(),
    ensures
        exists|result: Result<OutcomeView, ErrorView>, left: Disk|
            {
                &&& #[trigger] runs_to(
                    fs_sandbox::started(root, GoalView::Write(contents), requested),
                    disk,
                    StageView::Finished(result),
                    left,
                )
                &&& result is Ok ==> runs_to(
                    fs_sandbox::started(root, GoalView::Read, requested),
                    left,
                    StageView::Finished(Ok(OutcomeView::Contents(contents))),
                    left,
                )
            },
{
    lemma_write(root, requested, contents, disk);
}

/// Whatever links there are, a write changes nothing outside the root, whether it
/// is done or fails.
pub proof fn law_write_stays_inside(
    root: Seq<Part>,
    requested: Seq<Part>,
    contents: Seq<u8>,
    disk: Disk,
)
    requires
        disk.well_formed(),
    ensures
        exists|result: Result<OutcomeView, ErrorView>, left: Disk| #[trigger]
            runs_to(
                fs_sandbox::started(root, GoalView::Write(contents), requested),
                disk,
                StageView::Finished(result),
                left,
            ) && same_outside(root, disk, left),
{
    lemma_write(root, requested, contents, disk);
}

/// Whatever links there are, making a directory changes nothing outside the root,
/// whether it is done or fails.
pub proof fn law_create_dir_stays_inside(root: Seq<Part>, requested: Seq<Part>, disk: Disk)
    requires
        disk.well_formed(),
    ensures
        exists|result: Result<OutcomeView, ErrorView>, left: Disk| #[trigger]
            runs_to(
                fs_sandbox::started(root, GoalView::CreateDir, requested),
                disk,
                StageView::Finished(result),
                left,
            ) && same_outside(root, disk, left),
{
    let fs = disk.answers();
    let goal = GoalView::CreateDir;
    let op = fs_sandbox::started(root, goal, requested);
    lemma_disk_answers(disk);
    sandbox_laws::law_path_is_resolved_first(root, goal, requested, fs);
    let resolved = sandbox_laws::leads_to(root, requested, fs);
    let stage = sandbox_laws::concluded(root, goal, resolved);
    lemma_runs_unchanged(op, disk, stage);
    if let Ok(safe) = resolved {
        let make = CallView::CreateDirAll(safe);
        lemma_runs_on(op, disk, stage, disk, make);
        let left = disk.after(make);
        if disk.with_dir(safe) is Some {
            lemma_made(root, requested, safe, safe, disk);
            assert(runs_to(op, disk, StageView::Finished(Ok(OutcomeView::Done)), left));
        } else {
            let failed = Err(ErrorView::Io(seq![]));
            assert(runs_to(op, disk, StageView::Finished(failed), left));
        }
    } else {
        let error = resolved->Err_0;
        assert(runs_to(op, disk, StageView::Finished(Err(error)), disk));
    }
}

} // verus!
