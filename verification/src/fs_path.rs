//! Paths as sequences of components, on every platform: a path may start with a
//! prefix, such as a drive or a network share. Beside them, the text of paths
//! without a prefix, read by the rules for `/`-separated paths: repeated
//! separators and `.` are ignored (but for a `.` at the very start), and `..` is
//! kept.

use crate::blob_sha::push_bytes;
use vstd::prelude::*;

verus! {

/// The byte `/`.
pub const SEPARATOR: u8 = 47;

/// The byte `.`.
pub const DOT: u8 = 46;

/// One component of a path.
#[derive(Debug)]
pub enum Component {
    /// What stands before the root on platforms that tell drives or shares apart,
    /// such as `C:`. A path with a verbatim prefix is taken as it is written, so
    /// that `.` and `..` have no meaning in it.
    Prefix { text: Vec<u8>, verbatim: bool },
    /// The root directory, at the start of a path or behind the prefix.
    RootDir,
    /// `.`, at the start of a path or behind the prefix.
    CurDir,
    /// `..`
    ParentDir,
    /// The name of a file or a directory.
    Normal(Vec<u8>),
}

/// The model of a component.
pub enum Part {
    Prefix { text: Seq<u8>, verbatim: bool },
    Root,
    Here,
    Up,
    Name(Seq<u8>),
}

impl View for Component {
    type V = Part;

    open spec fn view(&self) -> Part {
        match self {
            Component::Prefix { text, verbatim } => Part::Prefix {
                text: text@,
                verbatim: *verbatim,
            },
            Component::RootDir => Part::Root,
            Component::CurDir => Part::Here,
            Component::ParentDir => Part::Up,
            Component::Normal(name) => Part::Name(name@),
        }
    }
}

/// The bytes can name a file: there are some, none is a separator, and they are
/// neither `.` nor `..`.
pub open spec fn is_name(bytes: Seq<u8>) -> bool {
    &&& bytes.len() > 0
    &&& !bytes.contains(SEPARATOR)
    &&& bytes != seq![DOT]
    &&& bytes != seq![DOT, DOT]
}

/// The path starts with a prefix.
pub open spec fn has_prefix(parts: Seq<Part>) -> bool {
    parts.len() > 0 && parts[0] is Prefix
}

/// The position behind the prefix, where the root or `.` may stand.
pub open spec fn lead(parts: Seq<Part>) -> int {
    if has_prefix(parts) {
        1
    } else {
        0
    }
}

/// The parts form a path: a prefix stands only at the start, the root and `.`
/// stand only there or behind the prefix, and names are names.
pub open spec fn is_path(parts: Seq<Part>) -> bool {
    forall|i: int| 0 <= i < parts.len() ==> is_part(#[trigger] parts[i], i, lead(parts))
}

/// The part may stand at position `i` of a path whose root or `.` stands at `lead`.
pub open spec fn is_part(part: Part, i: int, lead: int) -> bool {
    match part {
        Part::Prefix { .. } => i == 0,
        Part::Root => i == lead,
        Part::Here => i == lead,
        Part::Up => true,
        Part::Name(name) => is_name(name),
    }
}

/// The model of a sequence of components.
pub open spec fn part_views(components: Seq<Component>) -> Seq<Part> {
    components.map_values(|c: Component| c@)
}

// ---- Names ---------------------------------------------------------------

/// The name of an entry of a directory.
#[derive(Debug)]
pub struct FileName {
    bytes: Vec<u8>,
}

impl FileName {
    /// The bytes can name a file.
    #[verifier::type_invariant]
    pub open spec fn well_formed(self) -> bool {
        is_name(self@)
    }
}

impl View for FileName {
    type V = Seq<u8>;

    closed spec fn view(&self) -> Seq<u8> {
        self.bytes@
    }
}

/// Whether the bytes are the same.
fn same_bytes(a: &Vec<u8>, b: &Vec<u8>) -> (same: bool)
    ensures
        same == (a@ == b@),
{
    if a.len() != b.len() {
        return false;
    }
    for i in 0..a.len()
        invariant
            a@.len() == b@.len(),
            forall|k: int| 0 <= k < i ==> a@[k] == b@[k],
    {
        if a[i] != b[i] {
            return false;
        }
    }
    assert(a@ =~= b@);
    true
}

/// A copy of some bytes.
fn copy_bytes(bytes: &Vec<u8>, from: usize, to: usize) -> (copy: Vec<u8>)
    requires
        from <= to <= bytes@.len(),
    ensures
        copy@ == bytes@.subrange(from as int, to as int),
{
    let mut copy: Vec<u8> = Vec::new();
    for i in from..to
        invariant
            from <= to <= bytes@.len(),
            copy@ == bytes@.subrange(from as int, i as int),
    {
        copy.push(bytes[i]);
        assert(copy@ =~= bytes@.subrange(from as int, i + 1));
    }
    copy
}

/// Whether the bytes can name a file.
fn can_name(bytes: &Vec<u8>) -> (possible: bool)
    ensures
        possible == is_name(bytes@),
{
    if bytes.len() == 0 {
        return false;
    }
    for i in 0..bytes.len()
        invariant
            forall|k: int| 0 <= k < i ==> bytes@[k] != SEPARATOR,
    {
        if bytes[i] == SEPARATOR {
            assert(bytes@.contains(SEPARATOR));
            return false;
        }
    }
    if bytes.len() == 1 && bytes[0] == DOT {
        assert(bytes@ =~= seq![DOT]);
        return false;
    }
    if bytes.len() == 2 && bytes[0] == DOT && bytes[1] == DOT {
        assert(bytes@ =~= seq![DOT, DOT]);
        return false;
    }
    proof {
        assert(bytes@.len() == 1 ==> bytes@ != seq![DOT]) by {
            if bytes@ == seq![DOT] {
                assert(bytes@[0] == DOT);
            }
        }
        assert(bytes@ != seq![DOT, DOT]) by {
            if bytes@ == seq![DOT, DOT] {
                assert(bytes@[0] == DOT && bytes@[1] == DOT);
            }
        }
    }
    true
}

impl FileName {
    /// The name made of the bytes, where they can name a file.
    pub fn new(bytes: Vec<u8>) -> (name: Option<FileName>)
        ensures
            match name {
                Some(n) => is_name(bytes@) && n@ == bytes@,
                None => !is_name(bytes@),
            },
    {
        if can_name(&bytes) {
            Some(FileName { bytes })
        } else {
            None
        }
    }
}

// ---- Paths ---------------------------------------------------------------

/// A path, as the sequence of its components.
#[derive(Debug)]
pub struct FsPath {
    components: Vec<Component>,
}

impl FsPath {
    /// The components form a path.
    #[verifier::type_invariant]
    pub open spec fn well_formed(self) -> bool {
        is_path(self@)
    }
}

impl View for FsPath {
    type V = Seq<Part>;

    closed spec fn view(&self) -> Seq<Part> {
        part_views(self.components@)
    }
}

/// The path has a root, at its start or behind its prefix.
pub open spec fn has_root(parts: Seq<Part>) -> bool {
    parts.len() > lead(parts) && parts[lead(parts)] == Part::Root
}

/// The path stands on its own wherever it is seen from, but for the prefix that
/// it may lack.
pub open spec fn is_whole(parts: Seq<Part>) -> bool {
    has_prefix(parts) || has_root(parts)
}

/// The path has a verbatim prefix.
pub open spec fn is_verbatim(parts: Seq<Part>) -> bool {
    has_prefix(parts) && parts[0]->verbatim
}

/// The path that names `part` as seen from `base`: one with a prefix names
/// itself, one that starts at the root lies on the drive or share of `base`, and
/// any other lies below `base`.
pub open spec fn seen_from(base: Seq<Part>, part: Seq<Part>) -> Seq<Part> {
    if has_prefix(part) || base.len() == 0 {
        part
    } else if has_root(part) {
        base.take(lead(base)) + part
    } else if part.len() > 0 && part[0] == Part::Here {
        base + part.skip(1)
    } else {
        base + part
    }
}

/// The parts behind a path, one after the other: `.` is left out, and `..` takes
/// the name before it away.
pub open spec fn cleaned(base: Seq<Part>, parts: Seq<Part>) -> Seq<Part>
    decreases parts.len(),
{
    if parts.len() == 0 {
        base
    } else {
        let before = cleaned(base, parts.drop_last());
        match parts.last() {
            Part::Name(_) => before.push(parts.last()),
            Part::Up => if before.len() > 0 && before.last() is Name {
                before.drop_last()
            } else {
                before
            },
            _ => before,
        }
    }
}

/// The path that `part` makes when it is joined to `base`: as it is seen from
/// there, and without `.` and `..` where the prefix of `base` is verbatim.
pub open spec fn joined(base: Seq<Part>, part: Seq<Part>) -> Seq<Part> {
    if is_verbatim(base) && !has_prefix(part) {
        if has_root(part) {
            cleaned(seq![base[0], Part::Root], part.skip(1))
        } else {
            cleaned(base, part)
        }
    } else {
        seen_from(base, part)
    }
}

/// The path without its last component; a root, a prefix and the empty path have
/// no parent.
pub open spec fn parent(parts: Seq<Part>) -> Option<Seq<Part>> {
    if parts.len() == 0 || parts.last() == Part::Root || parts.last() is Prefix {
        None
    } else {
        Some(parts.drop_last())
    }
}

/// The path as seen from `base`, where it lies below `base`; else itself.
pub open spec fn relative_to(base: Seq<Part>, parts: Seq<Part>) -> Seq<Part> {
    if base.is_prefix_of(parts) {
        parts.skip(base.len() as int)
    } else {
        parts
    }
}

// ---- Text of a path ------------------------------------------------------

/// The position of the first separator, or the length.
pub open spec fn segment_len(text: Seq<u8>) -> nat
    decreases text.len(),
{
    if text.len() == 0 || text[0] == SEPARATOR {
        0
    } else {
        1 + segment_len(text.skip(1))
    }
}

/// What stands between two separators; `first` at the start of the path.
pub open spec fn parse_segment(segment: Seq<u8>, first: bool) -> Seq<Part> {
    if segment.len() == 0 {
        seq![]
    } else if segment == seq![DOT] {
        if first {
            seq![Part::Here]
        } else {
            seq![]
        }
    } else if segment == seq![DOT, DOT] {
        seq![Part::Up]
    } else {
        seq![Part::Name(segment)]
    }
}

/// The components of a text without a separator at its start.
pub open spec fn parse_relative(text: Seq<u8>, first: bool) -> Seq<Part>
    decreases text.len(),
{
    let n = segment_len(text) as int;
    let here = parse_segment(text.take(n), first);
    if n < text.len() {
        here + parse_relative(text.skip(n + 1), false)
    } else {
        here
    }
}

/// The components of a path.
pub open spec fn parse_path(text: Seq<u8>) -> Seq<Part> {
    if text.len() > 0 && text[0] == SEPARATOR {
        seq![Part::Root] + parse_relative(text.skip(1), false)
    } else {
        parse_relative(text, true)
    }
}

/// How a component is written.
pub open spec fn part_text(part: Part) -> Seq<u8> {
    match part {
        Part::Prefix { text, .. } => text,
        Part::Root => seq![],
        Part::Here => seq![DOT],
        Part::Up => seq![DOT, DOT],
        Part::Name(name) => name,
    }
}

/// Components with a separator between each two.
pub open spec fn separated(parts: Seq<Part>, separator: u8) -> Seq<u8>
    decreases parts.len(),
{
    if parts.len() == 0 {
        seq![]
    } else if parts.len() == 1 {
        part_text(parts[0])
    } else {
        separated(parts.drop_last(), separator) + seq![separator] + part_text(parts.last())
    }
}

/// How a path is written on a platform with that separator: the prefix, the root
/// as a separator, and the other components with a separator between each two.
pub open spec fn written(parts: Seq<Part>, separator: u8) -> Seq<u8> {
    let from = lead(parts);
    let prefix = if has_prefix(parts) {
        part_text(parts[0])
    } else {
        seq![]
    };
    if has_root(parts) {
        prefix + seq![separator] + separated(parts.skip(from + 1), separator)
    } else {
        prefix + separated(parts.skip(from), separator)
    }
}

/// How a path is written with `/`.
pub open spec fn path_text(parts: Seq<Part>) -> Seq<u8> {
    written(parts, SEPARATOR)
}

/// A segment ends at the first separator.
proof fn lemma_segment_len(text: Seq<u8>)
    ensures
        segment_len(text) <= text.len(),
        segment_len(text) < text.len() ==> text[segment_len(text) as int] == SEPARATOR,
        forall|k: int| 0 <= k < segment_len(text) ==> text[k] != SEPARATOR,
    decreases text.len(),
{
    if text.len() > 0 && text[0] != SEPARATOR {
        lemma_segment_len(text.skip(1));
        assert forall|k: int| 0 <= k < segment_len(text) implies text[k] != SEPARATOR by {
            if k > 0 {
                assert(text[k] == text.skip(1)[k - 1]);
            }
        }
    }
}

/// That position is the length of the segment.
proof fn lemma_segment_len_is(text: Seq<u8>, n: int)
    requires
        0 <= n <= text.len(),
        n < text.len() ==> text[n] == SEPARATOR,
        forall|k: int| 0 <= k < n ==> text[k] != SEPARATOR,
    ensures
        segment_len(text) == n,
{
    lemma_segment_len(text);
    if segment_len(text) < n {
        assert(text[segment_len(text) as int] != SEPARATOR);
    }
}

// ---- Operations on paths -------------------------------------------------

impl Component {
    /// A copy of the component.
    fn copy(&self) -> (copy: Component)
        ensures
            copy@ == self@,
    {
        match self {
            Component::Prefix { text, verbatim } => {
                let copied = copy_bytes(text, 0, text.len());
                assert(copied@ =~= text@);
                Component::Prefix { text: copied, verbatim: *verbatim }
            },
            Component::RootDir => Component::RootDir,
            Component::CurDir => Component::CurDir,
            Component::ParentDir => Component::ParentDir,
            Component::Normal(name) => {
                let copied = copy_bytes(name, 0, name.len());
                assert(copied@ =~= name@);
                Component::Normal(copied)
            },
        }
    }

    /// Whether two components are the same.
    fn same(&self, other: &Component) -> (same: bool)
        ensures
            same == (self@ == other@),
    {
        match (self, other) {
            (
                Component::Prefix { text: a, verbatim: va },
                Component::Prefix { text: b, verbatim: vb },
            ) => *va == *vb && same_bytes(a, b),
            (Component::RootDir, Component::RootDir) => true,
            (Component::CurDir, Component::CurDir) => true,
            (Component::ParentDir, Component::ParentDir) => true,
            (Component::Normal(a), Component::Normal(b)) => same_bytes(a, b),
            _ => false,
        }
    }
}

/// Appends copies of `components[from..to]`.
fn push_components(out: &mut Vec<Component>, components: &Vec<Component>, from: usize, to: usize)
    requires
        from <= to <= components@.len(),
    ensures
        part_views(final(out)@) == part_views(old(out)@) + part_views(components@).subrange(
            from as int,
            to as int,
        ),
{
    let ghost before = part_views(out@);
    let ghost all = part_views(components@);
    assert(part_views(out@) =~= before + all.subrange(from as int, from as int));
    for i in from..to
        invariant
            from <= to <= components@.len(),
            all == part_views(components@),
            part_views(out@) == before + all.subrange(from as int, i as int),
    {
        let ghost held = out@;
        let component = components[i].copy();
        proof {
            assert(part_views(held.push(component)) =~= part_views(held).push(component@));
            assert(all.subrange(from as int, i + 1) =~= all.subrange(from as int, i as int).push(
                all[i as int],
            ));
            assert(before + all.subrange(from as int, i + 1) =~= (before + all.subrange(
                from as int,
                i as int,
            )).push(all[i as int]));
        }
        out.push(component);
    }
}

/// The position behind the prefix.
fn lead_of(components: &Vec<Component>) -> (n: usize)
    ensures
        n == lead(part_views(components@)),
{
    if components.len() == 0 {
        return 0;
    }
    assert(part_views(components@)[0] == components@[0]@);
    match &components[0] {
        Component::Prefix { .. } => 1,
        _ => 0,
    }
}

impl FsPath {
    /// The path made of the components, where they form one.
    pub fn new(components: Vec<Component>) -> (path: Option<FsPath>)
        ensures
            match path {
                Some(p) => is_path(part_views(components@)) && p@ == part_views(components@),
                None => !is_path(part_views(components@)),
            },
    {
        let ghost parts = part_views(components@);
        let start: usize = lead_of(&components);
        for i in 0..components.len()
            invariant
                parts == part_views(components@),
                start == lead(parts),
                forall|k: int| 0 <= k < i ==> is_part(#[trigger] parts[k], k, start as int),
        {
            assert(parts[i as int] == components@[i as int]@);
            let fits = match &components[i] {
                Component::Prefix { .. } => i == 0,
                Component::RootDir => i == start,
                Component::CurDir => i == start,
                Component::ParentDir => true,
                Component::Normal(name) => can_name(name),
            };
            if !fits {
                assert(!is_part(parts[i as int], i as int, start as int));
                return None;
            }
        }
        Some(FsPath { components })
    }

    /// The components.
    pub fn components(&self) -> (components: &Vec<Component>)
        ensures
            part_views(components@) == self@,
    {
        &self.components
    }

    /// Whether the path starts with a prefix.
    pub fn has_prefix(&self) -> (found: bool)
        ensures
            found == has_prefix(self@),
    {
        lead_of(&self.components) == 1
    }

    /// Whether the path has a root, at its start or behind its prefix.
    pub fn has_root(&self) -> (found: bool)
        ensures
            found == has_root(self@),
    {
        let start: usize = lead_of(&self.components);
        if self.components.len() <= start {
            return false;
        }
        assert(self@[start as int] == self.components@[start as int]@);
        match &self.components[start] {
            Component::RootDir => true,
            _ => false,
        }
    }

    /// Whether the path has a verbatim prefix.
    pub fn is_verbatim(&self) -> (found: bool)
        ensures
            found == is_verbatim(self@),
    {
        if self.components.len() == 0 {
            return false;
        }
        assert(self@[0] == self.components@[0]@);
        match &self.components[0] {
            Component::Prefix { verbatim, .. } => *verbatim,
            _ => false,
        }
    }

    /// The number of components.
    pub fn depth(&self) -> (n: usize)
        ensures
            n == self@.len(),
    {
        self.components.len()
    }

    /// Whether the component at a position is a name.
    pub fn is_name_at(&self, i: usize) -> (found: bool)
        requires
            i < self@.len(),
        ensures
            found == (self@[i as int] is Name),
    {
        assert(self@[i as int] == self.components@[i as int]@);
        match &self.components[i] {
            Component::Normal(_) => true,
            _ => false,
        }
    }

    /// The path made of the first `n` components.
    pub fn prefix(&self, n: usize) -> (path: FsPath)
        requires
            n <= self@.len(),
        ensures
            path@ == self@.take(n as int),
    {
        proof {
            use_type_invariant(self);
        }
        let mut components: Vec<Component> = Vec::new();
        push_components(&mut components, &self.components, 0, n);
        proof {
            let parts = part_views(components@);
            assert(parts =~= self@.take(n as int));
            lemma_shorter_path(self@, n as int);
        }
        FsPath { components }
    }

    /// A copy of the path.
    pub fn copy(&self) -> (path: FsPath)
        ensures
            path@ == self@,
    {
        let path = self.prefix(self.components.len());
        assert(self@.take(self@.len() as int) =~= self@);
        path
    }

    /// The path with the components of another from a position on behind its
    /// own; these have to be names.
    pub fn with_names(&self, other: &FsPath, from: usize) -> (path: FsPath)
        requires
            from <= other@.len(),
            forall|i: int| from <= i < other@.len() ==> (#[trigger] other@[i]) is Name,
        ensures
            path@ == self@ + other@.skip(from as int),
    {
        proof {
            use_type_invariant(self);
            use_type_invariant(other);
        }
        let mut components: Vec<Component> = Vec::new();
        push_components(&mut components, &self.components, 0, self.components.len());
        push_components(&mut components, &other.components, from, other.components.len());
        proof {
            let parts = part_views(components@);
            assert(parts =~= self@ + other@.skip(from as int));
            lemma_names_behind(self@, other@, from as int);
        }
        FsPath { components }
    }

    /// The path of an entry of the directory at this path.
    pub fn child(&self, name: &FileName) -> (path: FsPath)
        ensures
            path@ == self@.push(Part::Name(name@)),
    {
        proof {
            use_type_invariant(self);
            use_type_invariant(name);
        }
        let mut components: Vec<Component> = Vec::new();
        push_components(&mut components, &self.components, 0, self.components.len());
        let bytes = copy_bytes(&name.bytes, 0, name.bytes.len());
        assert(bytes@ =~= name@);
        let component = Component::Normal(bytes);
        proof {
            let held = components@;
            assert(part_views(held) =~= self@);
            let parts = part_views(held.push(component));
            assert(parts =~= self@.push(Part::Name(name@)));
            lemma_longer_path(self@, Part::Name(name@));
        }
        components.push(component);
        FsPath { components }
    }

    /// The path that names this one as seen from `base`: one with a prefix names
    /// itself, one that starts at the root lies on the drive or share of `base`,
    /// and any other lies below `base`.
    pub fn seen_from(&self, base: &FsPath) -> (path: FsPath)
        ensures
            path@ == seen_from(base@, self@),
    {
        proof {
            use_type_invariant(self);
            use_type_invariant(base);
        }
        if self.has_prefix() || base.components.len() == 0 {
            return self.copy();
        }
        let mut kept: usize = base.components.len();
        let mut from: usize = 0;
        if self.has_root() {
            kept = lead_of(&base.components);
        } else if self.components.len() > 0 {
            assert(self@[0] == self.components@[0]@);
            match &self.components[0] {
                Component::CurDir => {
                    from = 1;
                },
                _ => {},
            }
        }
        let mut components: Vec<Component> = Vec::new();
        push_components(&mut components, &base.components, 0, kept);
        push_components(&mut components, &self.components, from, self.components.len());
        proof {
            let parts = part_views(components@);
            assert(parts =~= base@.take(kept as int) + self@.skip(from as int));
            assert(parts =~= seen_from(base@, self@));
            lemma_seen_from(base@, self@);
        }
        FsPath { components }
    }

    /// The path that `part` makes when it is joined to this one: as it is seen
    /// from here, and without `.` and `..` where this path has a verbatim prefix.
    pub fn join(&self, part: &FsPath) -> (path: FsPath)
        ensures
            path@ == joined(self@, part@),
    {
        proof {
            use_type_invariant(self);
            use_type_invariant(part);
        }
        if !self.is_verbatim() || part.has_prefix() {
            return part.seen_from(self);
        }
        let mut components: Vec<Component> = Vec::new();
        let mut from: usize = 0;
        if part.has_root() {
            push_components(&mut components, &self.components, 0, 1);
            let ghost held = components@;
            components.push(Component::RootDir);
            from = 1;
            assert(part_views(held) =~= seq![self@[0]]);
            assert(part_views(components@) =~= part_views(held).push(Part::Root));
            assert(part_views(components@) =~= seq![self@[0], Part::Root]);
        } else {
            push_components(&mut components, &self.components, 0, self.components.len());
            assert(part_views(components@) =~= self@);
        }
        let ghost base = part_views(components@);
        assert(is_path(base)) by {
            if from == 1 {
                assert(lead(base) == 1);
            }
        }
        let len: usize = part.components.len();
        assert(cleaned(base, part@.subrange(from as int, from as int)) == base);
        for i in from..len
            invariant
                from <= len,
                len == part@.len(),
                part_views(components@) == cleaned(
                    base,
                    part@.subrange(from as int, i as int),
                ),
        {
            let ghost before = components@;
            let ghost done = part@.subrange(from as int, i as int);
            let ghost more = part@.subrange(from as int, i + 1);
            proof {
                assert(part@[i as int] == part.components@[i as int]@);
                assert(more.drop_last() =~= done);
                assert(more.last() == part@[i as int]);
            }
            match &part.components[i] {
                Component::Normal(_) => {
                    let component = part.components[i].copy();
                    assert(part_views(before.push(component)) =~= part_views(before).push(
                        component@,
                    ));
                    components.push(component);
                },
                Component::ParentDir => {
                    pop_name(&mut components);
                },
                _ => {},
            }
        }
        proof {
            let rest = part@.skip(from as int);
            assert(part@.subrange(from as int, len as int) =~= rest);
            assert(part@.skip(0) =~= part@);
            assert forall|i: int| 0 <= i < rest.len() implies {
                (#[trigger] rest[i]) matches Part::Name(name) ==> is_name(name)
            } by {
                assert(is_part(part@[i + from], i + from, lead(part@)));
            }
            lemma_cleaned(base, rest);
        }
        FsPath { components }
    }

    /// The path without its last component.
    pub fn parent(&self) -> (path: Option<FsPath>)
        ensures
            match path {
                Some(p) => parent(self@) == Some(p@),
                None => parent(self@) is None,
            },
    {
        let n: usize = self.components.len();
        if n == 0 {
            return None;
        }
        assert(self@.last() == self.components@[n - 1]@);
        match &self.components[n - 1] {
            Component::RootDir => None,
            Component::Prefix { .. } => None,
            _ => {
                let path = self.prefix(n - 1);
                assert(path@ =~= self@.drop_last());
                Some(path)
            },
        }
    }

    /// Whether `base` is this path or one of its ancestors, component by
    /// component.
    pub fn starts_with(&self, base: &FsPath) -> (found: bool)
        ensures
            found == base@.is_prefix_of(self@),
    {
        if base.components.len() > self.components.len() {
            return false;
        }
        for i in 0..base.components.len()
            invariant
                base@.len() <= self@.len(),
                forall|k: int| 0 <= k < i ==> #[trigger] base@[k] == self@[k],
        {
            assert(base@[i as int] == base.components@[i as int]@);
            assert(self@[i as int] == self.components@[i as int]@);
            if !base.components[i].same(&self.components[i]) {
                assert(self@.take(base@.len() as int)[i as int] != base@[i as int]);
                return false;
            }
        }
        assert(base@ =~= self@.take(base@.len() as int));
        true
    }

    /// The path as seen from `base`, where it lies below `base`; else itself.
    pub fn relative_to(&self, base: &FsPath) -> (path: FsPath)
        ensures
            path@ == relative_to(base@, self@),
    {
        proof {
            use_type_invariant(self);
        }
        if !self.starts_with(base) {
            return self.copy();
        }
        let mut components: Vec<Component> = Vec::new();
        push_components(
            &mut components,
            &self.components,
            base.components.len(),
            self.components.len(),
        );
        proof {
            let parts = part_views(components@);
            let n = base@.len() as int;
            assert(parts =~= self@.skip(n));
            lemma_path_behind(self@, n);
        }
        FsPath { components }
    }
}

impl Clone for FsPath {
    fn clone(&self) -> (path: FsPath)
        ensures
            path@ == self@,
    {
        self.copy()
    }
}

/// Takes the last component away where it is a name.
fn pop_name(components: &mut Vec<Component>)
    ensures
        ({
            let before = part_views(old(components)@);
            part_views(final(components)@) == if before.len() > 0 && before.last() is Name {
                before.drop_last()
            } else {
                before
            }
        }),
{
    let n: usize = components.len();
    if n == 0 {
        return ;
    }
    let ghost before = components@;
    assert(part_views(before).last() == before[n - 1]@);
    let named = match &components[n - 1] {
        Component::Normal(_) => true,
        _ => false,
    };
    if named {
        components.pop();
        assert(part_views(components@) =~= part_views(before).drop_last());
    }
}

/// The start of a path is a path.
proof fn lemma_shorter_path(path: Seq<Part>, n: int)
    requires
        is_path(path),
        0 <= n <= path.len(),
    ensures
        is_path(path.take(n)),
{
    let parts = path.take(n);
    assert forall|i: int| 0 <= i < parts.len() implies is_part(
        #[trigger] parts[i],
        i,
        lead(parts),
    ) by {
        assert(is_part(path[i], i, lead(path)));
    }
}

/// The end of a path is a path.
proof fn lemma_path_behind(path: Seq<Part>, n: int)
    requires
        is_path(path),
        0 <= n <= path.len(),
    ensures
        is_path(path.skip(n)),
{
    let parts = path.skip(n);
    if n == 0 {
        assert(parts =~= path);
    } else {
        if parts.len() > 0 {
            assert(is_part(path[n], n, lead(path)));
        }
        assert forall|i: int| 0 <= i < parts.len() implies is_part(
            #[trigger] parts[i],
            i,
            lead(parts),
        ) by {
            assert(is_part(path[i + n], i + n, lead(path)));
        }
    }
}

/// A name may follow any path.
proof fn lemma_longer_path(path: Seq<Part>, name: Part)
    requires
        is_path(path),
        name matches Part::Name(bytes) && is_name(bytes),
    ensures
        is_path(path.push(name)),
{
    let parts = path.push(name);
    assert forall|i: int| 0 <= i < parts.len() implies is_part(
        #[trigger] parts[i],
        i,
        lead(parts),
    ) by {
        if i < path.len() {
            assert(is_part(path[i], i, lead(path)));
        }
    }
}

/// Names may follow any path.
proof fn lemma_names_behind(a: Seq<Part>, b: Seq<Part>, from: int)
    requires
        is_path(a),
        is_path(b),
        0 <= from <= b.len(),
        forall|i: int| from <= i < b.len() ==> (#[trigger] b[i]) is Name,
    ensures
        is_path(a + b.skip(from)),
{
    let parts = a + b.skip(from);
    assert forall|i: int| 0 <= i < parts.len() implies is_part(
        #[trigger] parts[i],
        i,
        lead(parts),
    ) by {
        if i < a.len() {
            assert(is_part(a[i], i, lead(a)));
        } else {
            let k = i - a.len() + from;
            assert(parts[i] == b[k]);
            assert(is_part(b[k], k, lead(b)));
        }
    }
}

/// A path is a path from wherever it is seen.
proof fn lemma_seen_from(base: Seq<Part>, part: Seq<Part>)
    requires
        is_path(base),
        is_path(part),
    ensures
        is_path(seen_from(base, part)),
{
    let parts = seen_from(base, part);
    if !has_prefix(part) && base.len() > 0 {
        let kept: int = if has_root(part) {
            lead(base)
        } else {
            base.len() as int
        };
        let from: int = if !has_root(part) && part.len() > 0 && part[0] == Part::Here {
            1
        } else {
            0
        };
        assert forall|i: int| 0 <= i < parts.len() implies is_part(
            #[trigger] parts[i],
            i,
            lead(parts),
        ) by {
            if i < kept {
                assert(parts[i] == base[i]);
                assert(is_part(base[i], i, lead(base)));
            } else {
                let k = i - kept + from;
                assert(parts[i] == part[k]);
                assert(is_part(part[k], k, lead(part)));
            }
        }
    }
}

/// What is cleaned behind a prefix is a path with that prefix.
proof fn lemma_cleaned(base: Seq<Part>, parts: Seq<Part>)
    requires
        is_path(base),
        has_prefix(base),
        forall|i: int|
            0 <= i < parts.len() ==> ((#[trigger] parts[i]) matches Part::Name(name) ==> is_name(
                name,
            )),
    ensures
        is_path(cleaned(base, parts)),
        has_prefix(cleaned(base, parts)),
        cleaned(base, parts)[0] == base[0],
    decreases parts.len(),
{
    if parts.len() > 0 {
        let less = parts.drop_last();
        assert forall|i: int| 0 <= i < less.len() implies {
            (#[trigger] less[i]) matches Part::Name(name) ==> is_name(name)
        } by {
            assert(less[i] == parts[i]);
        }
        lemma_cleaned(base, less);
        let before = cleaned(base, less);
        match parts.last() {
            Part::Name(_) => {
                assert(parts[parts.len() - 1] == parts.last());
                lemma_longer_path(before, parts.last());
            },
            Part::Up => {
                if before.last() is Name {
                    lemma_shorter_path(before, before.len() - 1);
                    assert(before.drop_last() =~= before.take(before.len() - 1));
                }
            },
            _ => {},
        }
    }
}

/// Names are cleaned to themselves.
pub proof fn lemma_cleaned_names(base: Seq<Part>, names: Seq<Part>)
    requires
        forall|i: int| 0 <= i < names.len() ==> (#[trigger] names[i]) is Name,
    ensures
        cleaned(base, names) == base + names,
    decreases names.len(),
{
    if names.len() == 0 {
        assert(base + names =~= base);
    } else {
        let less = names.drop_last();
        assert forall|i: int| 0 <= i < less.len() implies (#[trigger] less[i]) is Name by {
            assert(less[i] == names[i]);
        }
        lemma_cleaned_names(base, less);
        assert(names[names.len() - 1] is Name);
        assert((base + less).push(names.last()) =~= base + names);
    }
}

/// What is joined to a path with a prefix or a root starts as that path does,
/// with the prefix of one of the two.
pub proof fn lemma_joined_start(base: Seq<Part>, part: Seq<Part>)
    requires
        is_whole(base),
    ensures
        is_whole(joined(base, part)),
        has_prefix(base) ==> has_prefix(joined(base, part)),
        !has_prefix(joined(base, part)) ==> joined(base, part)[0] == Part::Root,
{
    if is_verbatim(base) && !has_prefix(part) {
        if has_root(part) {
            lemma_cleaned_start(seq![base[0], Part::Root], part.skip(1));
        } else {
            lemma_cleaned_start(base, part);
        }
    }
}

/// A prefix is never cleaned away.
proof fn lemma_cleaned_start(base: Seq<Part>, parts: Seq<Part>)
    requires
        has_prefix(base),
    ensures
        has_prefix(cleaned(base, parts)),
    decreases parts.len(),
{
    if parts.len() > 0 {
        lemma_cleaned_start(base, parts.drop_last());
    }
}

// ---- Reading and writing paths -------------------------------------------

/// What is read from a text is a path.
proof fn lemma_parse_relative(text: Seq<u8>, first: bool)
    ensures
        forall|i: int|
            0 <= i < parse_relative(text, first).len() ==> {
                let part = #[trigger] parse_relative(text, first)[i];
                &&& part != Part::Root && !(part is Prefix)
                &&& part == Part::Here ==> i == 0 && first
                &&& part matches Part::Name(name) ==> is_name(name)
            },
    decreases text.len(),
{
    let n = segment_len(text) as int;
    lemma_segment_len(text);
    let here = parse_segment(text.take(n), first);
    assert(!text.take(n).contains(SEPARATOR));
    if n < text.len() {
        let others = parse_relative(text.skip(n + 1), false);
        lemma_parse_relative(text.skip(n + 1), false);
        let all = parse_relative(text, first);
        assert forall|i: int| 0 <= i < all.len() implies {
            let part = #[trigger] all[i];
            &&& part != Part::Root && !(part is Prefix)
            &&& part == Part::Here ==> i == 0 && first
            &&& part matches Part::Name(name) ==> is_name(name)
        } by {
            if i >= here.len() {
                assert(all[i] == others[i - here.len()]);
            }
        }
    }
}

/// What is read from a text is a path without a prefix.
pub proof fn lemma_parse_path(text: Seq<u8>)
    ensures
        is_path(parse_path(text)),
        !has_prefix(parse_path(text)),
{
    let parts = parse_path(text);
    if text.len() > 0 && text[0] == SEPARATOR {
        lemma_parse_relative(text.skip(1), false);
        let others = parse_relative(text.skip(1), false);
        assert forall|i: int| 0 <= i < parts.len() implies is_part(
            #[trigger] parts[i],
            i,
            lead(parts),
        ) by {
            if i > 0 {
                assert(parts[i] == others[i - 1]);
            }
        }
    } else {
        lemma_parse_relative(text, true);
    }
}

/// Appends what stands between two separators.
fn push_segment(components: &mut Vec<Component>, text: &[u8], from: usize, to: usize, first: bool)
    requires
        from <= to <= text@.len(),
    ensures
        part_views(final(components)@) == part_views(old(components)@) + parse_segment(
            text@.subrange(from as int, to as int),
            first,
        ),
{
    let ghost segment = text@.subrange(from as int, to as int);
    let ghost before = components@;
    if from == to {
        assert(part_views(before) + parse_segment(segment, first) =~= part_views(before));
        return ;
    }
    if to - from == 1 && text[from] == DOT {
        assert(segment =~= seq![DOT]);
        if first {
            components.push(Component::CurDir);
            assert(part_views(components@) =~= part_views(before) + seq![Part::Here]);
        } else {
            assert(part_views(before) + parse_segment(segment, first) =~= part_views(before));
        }
        return ;
    }
    if to - from == 2 && text[from] == DOT && text[from + 1] == DOT {
        assert(segment =~= seq![DOT, DOT]);
        assert(segment != seq![DOT]) by {
            assert(segment.len() == 2);
        }
        components.push(Component::ParentDir);
        assert(part_views(components@) =~= part_views(before) + seq![Part::Up]);
        return ;
    }
    let mut name: Vec<u8> = Vec::new();
    for i in from..to
        invariant
            from <= to <= text@.len(),
            name@ == text@.subrange(from as int, i as int),
    {
        name.push(text[i]);
        assert(name@ =~= text@.subrange(from as int, i + 1));
    }
    proof {
        if segment == seq![DOT] {
            assert(segment.len() == 1 && segment[0] == DOT);
        }
        if segment == seq![DOT, DOT] {
            assert(segment.len() == 2 && segment[0] == DOT && segment[1] == DOT);
        }
    }
    components.push(Component::Normal(name));
    assert(part_views(components@) =~= part_views(before) + seq![Part::Name(segment)]);
}

impl FsPath {
    /// Reads a path that is written with `/` and has no prefix.
    pub fn parse(text: &[u8]) -> (path: FsPath)
        ensures
            path@ == parse_path(text@),
    {
        let len: usize = text.len();
        let mut components: Vec<Component> = Vec::new();
        let mut at: usize = 0;
        let mut first = true;
        if len > 0 && text[0] == SEPARATOR {
            components.push(Component::RootDir);
            at = 1;
            first = false;
            assert(part_views(components@) =~= seq![Part::Root]);
        } else {
            assert(text@.skip(0) =~= text@);
            assert(part_views(components@) + parse_path(text@) =~= parse_path(text@));
        }
        loop
            invariant
                len == text@.len(),
                at <= len,
                part_views(components@) + parse_relative(text@.skip(at as int), first)
                    == parse_path(text@),
            decreases len - at,
        {
            let ghost rest = text@.skip(at as int);
            let ghost before = part_views(components@);
            let mut end: usize = at;
            while end < len && text[end] != SEPARATOR
                invariant
                    len == text@.len(),
                    at <= end <= len,
                    forall|k: int| at <= k < end ==> text@[k] != SEPARATOR,
                decreases len - end,
            {
                end = end + 1;
            }
            proof {
                lemma_segment_len_is(rest, end - at);
                assert(rest.take(end - at) =~= text@.subrange(at as int, end as int));
            }
            push_segment(&mut components, text, at, end, first);
            if end == len {
                proof {
                    assert(part_views(components@) =~= parse_path(text@));
                    lemma_parse_path(text@);
                }
                return FsPath { components };
            }
            proof {
                let here = parse_segment(text@.subrange(at as int, end as int), first);
                let others = parse_relative(text@.skip(end + 1), false);
                assert(rest.skip(end - at + 1) =~= text@.skip(end + 1));
                assert(before + here + others =~= before + (here + others));
            }
            at = end + 1;
            first = false;
        }
    }

    /// How the path is written on a platform with that separator.
    pub fn written(&self, separator: u8) -> (text: Vec<u8>)
        ensures
            text@ == written(self@, separator),
    {
        let mut text: Vec<u8> = Vec::new();
        let mut start: usize = lead_of(&self.components);
        if start == 1 {
            assert(self@[0] == self.components@[0]@);
            push_component_text(&mut text, &self.components[0]);
        }
        let ghost prefix = if has_prefix(self@) {
            part_text(self@[0])
        } else {
            seq![]
        };
        assert(text@ =~= prefix);
        if self.has_root() {
            text.push(separator);
            start = start + 1;
        }
        let ghost lead_text = text@;
        let len: usize = self.components.len();
        let ghost parts = self@.skip(start as int);
        assert(text@ =~= lead_text + separated(parts.take(0), separator));
        for i in start..len
            invariant
                start <= len,
                len == self@.len(),
                parts == self@.skip(start as int),
                text@ == lead_text + separated(parts.take(i - start), separator),
        {
            proof {
                assert(self@[i as int] == self.components@[i as int]@);
                let more = parts.take(i - start + 1);
                assert(more.drop_last() =~= parts.take(i - start));
                assert(more.last() == self@[i as int]);
            }
            if i > start {
                text.push(separator);
            }
            push_component_text(&mut text, &self.components[i]);
            assert(text@ =~= lead_text + separated(parts.take(i - start + 1), separator));
        }
        assert(parts.take(parts.len() as int) =~= parts);
        text
    }

    /// How the path is written with `/`.
    pub fn text(&self) -> (text: Vec<u8>)
        ensures
            text@ == path_text(self@),
    {
        self.written(SEPARATOR)
    }
}

/// Appends a component as it is written.
fn push_component_text(text: &mut Vec<u8>, component: &Component)
    ensures
        final(text)@ == old(text)@ + part_text(component@),
{
    let ghost before = text@;
    match component {
        Component::Prefix { text: bytes, .. } => push_bytes(text, bytes.as_slice()),
        Component::RootDir => {},
        Component::CurDir => {
            text.push(DOT);
        },
        Component::ParentDir => {
            text.push(DOT);
            text.push(DOT);
        },
        Component::Normal(name) => push_bytes(text, name.as_slice()),
    }
    assert(text@ =~= before + part_text(component@));
}

/// Reading what was written with `/` gives the path back, where it has no prefix.
pub proof fn law_reading_undoes_writing(parts: Seq<Part>)
    requires
        is_path(parts),
        !has_prefix(parts),
    ensures
        parse_path(path_text(parts)) == parts,
{
    let text = path_text(parts);
    if has_root(parts) {
        let others = parts.skip(1);
        assert forall|i: int| 0 <= i < others.len() implies is_separable(
            #[trigger] others[i],
            i,
            false,
        ) by {
            assert(is_part(parts[i + 1], i + 1, 0));
        }
        lemma_separated_parse(others, false);
        assert(text =~= seq![SEPARATOR] + separated(others, SEPARATOR));
        assert(text.skip(1) =~= separated(others, SEPARATOR));
        assert(parse_path(text) =~= parts);
    } else {
        assert forall|i: int| 0 <= i < parts.len() implies is_separable(
            #[trigger] parts[i],
            i,
            true,
        ) by {
            assert(is_part(parts[i], i, 0));
        }
        lemma_separated_parse(parts, true);
        assert(parts.skip(0) =~= parts);
        assert(text =~= separated(parts, SEPARATOR));
        if text.len() > 0 {
            lemma_first_byte(parts);
        }
    }
}

/// The part is read back from its text at position `i`.
spec fn is_separable(part: Part, i: int, first: bool) -> bool {
    match part {
        Part::Prefix { .. } => false,
        Part::Root => false,
        Part::Here => i == 0 && first,
        Part::Up => true,
        Part::Name(name) => is_name(name),
    }
}

proof fn lemma_part_text(part: Part, i: int, first: bool)
    requires
        is_separable(part, i, first),
    ensures
        part_text(part).len() > 0,
        !part_text(part).contains(SEPARATOR),
        parse_segment(part_text(part), first && i == 0) == seq![part],
{
    match part {
        Part::Up => {
            assert(seq![DOT, DOT].len() == 2);
            assert(seq![DOT, DOT] != seq![DOT]) by {
                assert(seq![DOT].len() == 1);
            }
        },
        _ => {},
    }
}

proof fn lemma_first_byte(parts: Seq<Part>)
    requires
        parts.len() > 0,
        forall|i: int| 0 <= i < parts.len() ==> is_separable(#[trigger] parts[i], i, true),
    ensures
        separated(parts, SEPARATOR).len() > 0,
        separated(parts, SEPARATOR)[0] != SEPARATOR,
    decreases parts.len(),
{
    if parts.len() == 1 {
        lemma_part_text(parts[0], 0, true);
        assert(part_text(parts[0]).contains(part_text(parts[0])[0]));
    } else {
        assert forall|i: int| 0 <= i < parts.drop_last().len() implies is_separable(
            #[trigger] parts.drop_last()[i],
            i,
            true,
        ) by {
            assert(is_separable(parts[i], i, true));
        }
        lemma_first_byte(parts.drop_last());
    }
}

/// `separated`, from the front.
proof fn lemma_separated_front(parts: Seq<Part>)
    requires
        parts.len() > 1,
    ensures
        separated(parts, SEPARATOR) == part_text(parts[0]) + seq![SEPARATOR] + separated(
            parts.skip(1),
            SEPARATOR,
        ),
    decreases parts.len(),
{
    if parts.len() == 2 {
        assert(parts.drop_last() =~= seq![parts[0]]);
        assert(parts.skip(1) =~= seq![parts[1]]);
        reveal_with_fuel(separated, 2);
        assert(separated(parts, SEPARATOR) =~= part_text(parts[0]) + seq![SEPARATOR] + separated(
            parts.skip(1),
            SEPARATOR,
        ));
    } else {
        lemma_separated_front(parts.drop_last());
        assert(parts.drop_last().skip(1) =~= parts.skip(1).drop_last());
        assert(separated(parts, SEPARATOR) =~= part_text(parts[0]) + seq![SEPARATOR] + separated(
            parts.skip(1),
            SEPARATOR,
        ));
    }
}

proof fn lemma_separated_parse(parts: Seq<Part>, first: bool)
    requires
        forall|i: int| 0 <= i < parts.len() ==> is_separable(#[trigger] parts[i], i, first),
    ensures
        parse_relative(separated(parts, SEPARATOR), first) == parts,
    decreases parts.len(),
{
    let text = separated(parts, SEPARATOR);
    if parts.len() == 0 {
        assert(segment_len(text) == 0);
        assert(text.take(0).len() == 0);
        assert(parse_relative(text, first) =~= parts);
    } else {
        let head = part_text(parts[0]);
        lemma_part_text(parts[0], 0, first);
        assert forall|k: int| 0 <= k < head.len() implies head[k] != SEPARATOR by {
            assert(head.contains(head[k]));
        }
        if parts.len() == 1 {
            lemma_segment_len_is(text, head.len() as int);
            assert(text.take(head.len() as int) =~= head);
            assert(parse_relative(text, first) =~= parts);
        } else {
            lemma_separated_front(parts);
            let others = parts.skip(1);
            assert forall|i: int| 0 <= i < others.len() implies is_separable(
                #[trigger] others[i],
                i,
                false,
            ) by {
                assert(is_separable(parts[i + 1], i + 1, first));
            }
            lemma_separated_parse(others, false);
            lemma_segment_len_is(text, head.len() as int);
            assert(text.take(head.len() as int) =~= head);
            assert(text.skip(head.len() as int + 1) =~= separated(others, SEPARATOR));
            assert(seq![parts[0]] + others =~= parts);
        }
    }
}

} // verus!
