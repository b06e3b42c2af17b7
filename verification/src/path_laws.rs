//! What paths are made of, how they are joined, read and written, component by
//! component.

use crate::fs_path;
use crate::fs_path::Part;
use crate::fs_sandbox;
use vstd::prelude::*;

verus! {

// ---- Components ----------------------------------------------------------

/// The bytes name a file: there are some, none is `/`, and they are neither `.` nor
/// `..`.
pub open spec fn names_a_file(bytes: Seq<u8>) -> bool {
    &&& bytes.len() > 0
    &&& forall|i: int| 0 <= i < bytes.len() ==> #[trigger] bytes[i] != 47
    &&& !(bytes.len() == 1 && bytes[0] == 46)
    &&& !(bytes.len() == 2 && bytes[0] == 46 && bytes[1] == 46)
}

/// Exactly those bytes make a name that are not empty, hold no `/`, and are neither
/// `.` nor `..`.
pub proof fn law_names(bytes: Seq<u8>)
    ensures
        fs_path::is_name(bytes) <==> names_a_file(bytes),
{
    if fs_path::is_name(bytes) {
        assert forall|i: int| 0 <= i < bytes.len() implies #[trigger] bytes[i] != 47 by {
            assert(bytes.contains(bytes[i]));
        }
        if bytes.len() == 1 && bytes[0] == 46 {
            assert(bytes =~= seq![46u8]);
        }
        if bytes.len() == 2 && bytes[0] == 46 && bytes[1] == 46 {
            assert(bytes =~= seq![46u8, 46u8]);
        }
    }
    if names_a_file(bytes) {
        if bytes == seq![46u8] {
            assert(bytes[0] == 46);
        }
        if bytes == seq![46u8, 46u8] {
            assert(bytes[0] == 46 && bytes[1] == 46);
        }
    }
}

/// Components make a path one by one: a prefix only as the first, the root and `.`
/// only as the first or behind a prefix that is the first, `..` and names anywhere.
pub proof fn law_paths_grow_by_components(parts: Seq<Part>, part: Part)
    ensures
        fs_path::is_path(seq![]),
        fs_path::is_path(parts.push(part)) <==> {
            &&& fs_path::is_path(parts)
            &&& match part {
                Part::Prefix { .. } => parts.len() == 0,
                Part::Root | Part::Here => parts.len() == 0 || (parts.len() == 1
                    && parts[0] is Prefix),
                Part::Up => true,
                Part::Name(name) => names_a_file(name),
            }
        },
{
    let longer = parts.push(part);
    let n = parts.len() as int;
    if let Part::Name(name) = part {
        law_names(name);
    }
    if parts.len() > 0 {
        assert(longer[0] == parts[0]);
        assert(fs_path::lead(longer) == fs_path::lead(parts));
    }
    if fs_path::is_path(longer) {
        assert(fs_path::is_part(longer[n], n, fs_path::lead(longer)));
        assert forall|i: int| 0 <= i < parts.len() implies fs_path::is_part(
            #[trigger] parts[i],
            i,
            fs_path::lead(parts),
        ) by {
            assert(fs_path::is_part(longer[i], i, fs_path::lead(longer)));
        }
        if n == 1 && (part is Root || part is Here) {
            assert(parts[0] is Prefix);
        }
    }
    if fs_path::is_path(parts) {
        assert forall|i: int|
            0 <= i < longer.len() && fs_path::is_part(
                part,
                n,
                fs_path::lead(longer),
            ) implies fs_path::is_part(#[trigger] longer[i], i, fs_path::lead(longer)) by {
            if i < n {
                assert(longer[i] == parts[i]);
                assert(fs_path::is_part(parts[i], i, fs_path::lead(parts)));
            }
        }
    }
}

/// What a path starts with: a prefix, a verbatim one, and a root, which stands first
/// or behind the prefix.
pub proof fn law_starts_of_paths(parts: Seq<Part>)
    ensures
        fs_path::has_prefix(parts) <==> parts.len() > 0 && parts[0] is Prefix,
        fs_path::is_verbatim(parts) <==> parts.len() > 0 && parts[0] is Prefix
            && parts[0]->verbatim,
        fs_path::has_root(parts) <==> {
            ||| parts.len() > 0 && parts[0] is Root
            ||| parts.len() > 1 && parts[0] is Prefix && parts[1] is Root
        },
{
}

/// One path lies in another where it has all its components, in order, at its start.
pub proof fn law_inside_is_told_by_components(root: Seq<Part>, path: Seq<Part>)
    ensures
        fs_sandbox::inside(root, path) <==> {
            &&& root.len() <= path.len()
            &&& forall|i: int| 0 <= i < root.len() ==> #[trigger] root[i] == path[i]
        },
{
    if fs_sandbox::inside(root, path) {
        assert forall|i: int| 0 <= i < root.len() implies #[trigger] root[i] == path[i] by {
            assert(root[i] == path.take(root.len() as int)[i]);
        }
    }
    if root.len() <= path.len() && forall|i: int|
        0 <= i < root.len() ==> #[trigger] root[i] == path[i] {
        assert(root =~= path.take(root.len() as int));
    }
}

/// The parent of a path is what stands before its last component; a root, a prefix
/// and the empty path have none.
pub proof fn law_parent(path: Seq<Part>, last: Part)
    ensures
        fs_path::parent(seq![]) is None,
        fs_path::parent(path.push(last)) == if last is Root || last is Prefix {
            None
        } else {
            Some(path)
        },
{
    assert(path.push(last).drop_last() =~= path);
}

/// A path behind another is seen from there as what was put behind; a path that does
/// not start with the other stays as it is.
pub proof fn law_relative_paths(base: Seq<Part>, behind: Seq<Part>, other: Seq<Part>)
    ensures
        fs_path::relative_to(base, base + behind) == behind,
        (base.len() > other.len() || exists|i: int|
            0 <= i < base.len() && #[trigger] base[i] != other[i]) ==> fs_path::relative_to(
            base,
            other,
        ) == other,
{
    assert((base + behind).take(base.len() as int) =~= base);
    assert((base + behind).skip(base.len() as int) =~= behind);
    law_inside_is_told_by_components(base, other);
}

// ---- Joining -------------------------------------------------------------

/// How a path is seen from another: one with a prefix is itself, one from the root
/// lies on the drive of the other, a leading `.` is dropped, and anything else is put
/// behind the other, as it is.
pub proof fn law_paths_are_seen_from_others(base: Seq<Part>, first: Part, more: Seq<Part>)
    requires
        base.len() > 0,
    ensures
        ({
            let part = seq![first] + more;
            fs_path::seen_from(base, part) == match first {
                Part::Prefix { .. } => part,
                Part::Root => if base[0] is Prefix {
                    seq![base[0]] + part
                } else {
                    part
                },
                Part::Here => base + more,
                Part::Up => base + part,
                Part::Name(_) => base + part,
            }
        }),
        fs_path::seen_from(base, seq![]) == base,
        fs_path::seen_from(seq![], base) == base,
{
    let part = seq![first] + more;
    assert(part[0] == first);
    assert(part.skip(1) =~= more);
    assert(base + Seq::<Part>::empty() =~= base);
    match first {
        Part::Root => {
            if base[0] is Prefix {
                assert(base.take(1) =~= seq![base[0]]);
            } else {
                assert(base.take(0) + part =~= part);
            }
        },
        _ => {},
    }
}

/// Joining is seeing from, but for a verbatim prefix.
pub proof fn law_paths_are_joined(base: Seq<Part>, part: Seq<Part>)
    requires
        base.len() == 0 || !(base[0] is Prefix) || !base[0]->verbatim || (part.len() > 0
            && part[0] is Prefix),
    ensures
        fs_path::joined(base, part) == fs_path::seen_from(base, part),
{
}

/// To a path with a verbatim prefix components are joined one by one: a name goes to
/// the end, `..` takes the last name away where there is one, and `.` does nothing. A
/// path from the root starts anew behind the prefix.
pub proof fn law_verbatim_paths_are_joined(base: Seq<Part>, part: Seq<Part>, last: Part)
    requires
        base.len() > 0,
        base[0] is Prefix,
        base[0]->verbatim,
        part.len() > 0 ==> !(part[0] is Prefix),
    ensures
        fs_path::joined(base, seq![]) == base,
        fs_path::joined(base, seq![Part::Root]) == seq![base[0], Part::Root],
        ({
            let before = fs_path::joined(base, part);
            let after = fs_path::joined(base, part.push(last));
            match last {
                Part::Name(_) => after == before.push(last),
                Part::Up => after == if before.len() > 0 && before.last() is Name {
                    before.drop_last()
                } else {
                    before
                },
                Part::Here => after == before,
                _ => true,
            }
        }),
{
    let longer = part.push(last);
    assert(seq![Part::Root].skip(1) =~= seq![]);
    assert(fs_path::cleaned(seq![base[0], Part::Root], seq![]) == seq![base[0], Part::Root]);
    assert(longer.drop_last() =~= part);
    assert(longer.last() == last);
    if part.len() > 0 {
        assert(longer[0] == part[0]);
        assert(longer.skip(1).drop_last() =~= part.skip(1));
        assert(longer.skip(1).last() == last);
    } else {
        assert(part =~= seq![]);
    }
}

// ---- Reading -------------------------------------------------------------

/// What one segment of the text of a path is read as, behind the start of the path.
pub open spec fn read_segment(segment: Seq<u8>) -> Seq<Part> {
    if segment.len() == 0 || (segment.len() == 1 && segment[0] == 46) {
        seq![]
    } else if segment.len() == 2 && segment[0] == 46 && segment[1] == 46 {
        seq![Part::Up]
    } else {
        seq![Part::Name(segment)]
    }
}

proof fn lemma_read_segment(segment: Seq<u8>)
    ensures
        fs_path::parse_segment(segment, false) == read_segment(segment),
        fs_path::parse_segment(segment, true) == if segment.len() == 1 && segment[0] == 46 {
            seq![Part::Here]
        } else {
            read_segment(segment)
        },
{
    if segment.len() == 1 && segment[0] == 46 {
        assert(segment =~= seq![46u8]);
    }
    if segment.len() == 2 && segment[0] == 46 && segment[1] == 46 {
        assert(segment =~= seq![46u8, 46u8]);
    }
    if segment == seq![46u8] {
        assert(segment[0] == 46);
    }
    if segment == seq![46u8, 46u8] {
        assert(segment[0] == 46 && segment[1] == 46);
    }
}

proof fn lemma_segment_len(text: Seq<u8>, n: int)
    requires
        0 <= n <= text.len(),
        n < text.len() ==> text[n] == 47,
        forall|k: int| 0 <= k < n ==> #[trigger] text[k] != 47,
    ensures
        fs_path::segment_len(text) == n,
    decreases n,
{
    if n > 0 {
        assert(text[0] != 47);
        let less = text.skip(1);
        assert forall|k: int| 0 <= k < n - 1 implies #[trigger] less[k] != 47 by {
            assert(less[k] == text[k + 1]);
        }
        lemma_segment_len(less, n - 1);
    }
}

/// Where a text has its first separator, or its length.
proof fn lemma_first_separator(text: Seq<u8>) -> (n: int)
    ensures
        0 <= n <= text.len(),
        n < text.len() ==> text[n] == 47,
        forall|k: int| 0 <= k < n ==> #[trigger] text[k] != 47,
    decreases text.len(),
{
    if text.len() == 0 || text[0] == 47 {
        0
    } else {
        let less = text.skip(1);
        let n = lemma_first_separator(less);
        assert forall|k: int| 0 <= k < n + 1 implies #[trigger] text[k] != 47 by {
            if k > 0 {
                assert(text[k] == less[k - 1]);
            }
        }
        n + 1
    }
}

proof fn lemma_one_more_segment(text: Seq<u8>, segment: Seq<u8>, first: bool)
    requires
        forall|k: int| 0 <= k < segment.len() ==> #[trigger] segment[k] != 47,
    ensures
        fs_path::parse_relative(text + seq![47u8] + segment, first) == fs_path::parse_relative(
            text,
            first,
        ) + read_segment(segment),
    decreases text.len(),
{
    let whole = text + seq![47u8] + segment;
    let n = lemma_first_separator(text);
    lemma_segment_len(text, n);
    assert forall|k: int| 0 <= k < n implies #[trigger] whole[k] != 47 by {
        assert(whole[k] == text[k]);
    }
    assert(whole[n] == 47) by {
        if n < text.len() {
            assert(whole[n] == text[n]);
        }
    }
    lemma_segment_len(whole, n);
    assert(whole.take(n) =~= text.take(n));
    let here = fs_path::parse_segment(text.take(n), first);
    if n < text.len() {
        let rest = text.skip(n + 1);
        lemma_one_more_segment(rest, segment, false);
        assert(whole.skip(n + 1) =~= rest + seq![47u8] + segment);
        assert(here + (fs_path::parse_relative(rest, false) + read_segment(segment)) =~= here
            + fs_path::parse_relative(rest, false) + read_segment(segment));
    } else {
        assert(whole.skip(n + 1) =~= segment);
        lemma_segment_len(segment, segment.len() as int);
        assert(segment.take(segment.len() as int) =~= segment);
        lemma_read_segment(segment);
        assert(fs_path::parse_relative(segment, false) == read_segment(segment));
    }
}

/// The text of a path is read segment by segment. The first segment of a relative
/// path may be `.`; behind it `.` and empty segments are ignored, `..` goes up, and
/// anything else is a name, letter for letter. An empty first segment is the root.
pub proof fn law_paths_are_read_by_segments(text: Seq<u8>, segment: Seq<u8>)
    requires
        forall|k: int| 0 <= k < segment.len() ==> #[trigger] segment[k] != 47,
    ensures
        fs_path::parse_path(segment) == if segment.len() == 1 && segment[0] == 46 {
            seq![Part::Here]
        } else {
            read_segment(segment)
        },
        fs_path::parse_path(text + seq![47u8] + segment) == (if text.len() == 0 {
            seq![Part::Root]
        } else {
            fs_path::parse_path(text)
        }) + read_segment(segment),
{
    lemma_segment_len(segment, segment.len() as int);
    assert(segment.take(segment.len() as int) =~= segment);
    lemma_read_segment(segment);
    let whole = text + seq![47u8] + segment;
    if text.len() == 0 {
        assert(whole[0] == 47);
        assert(whole.skip(1) =~= segment);
    } else if text[0] == 47 {
        let rest = text.skip(1);
        assert(whole[0] == 47);
        assert(whole.skip(1) =~= rest + seq![47u8] + segment);
        lemma_one_more_segment(rest, segment, false);
        assert(fs_path::parse_path(whole) =~= fs_path::parse_path(text) + read_segment(segment));
    } else {
        assert(whole[0] == text[0]);
        lemma_one_more_segment(text, segment, true);
    }
}

// ---- Writing -------------------------------------------------------------

/// How a component is written: a prefix and a name as they are, the root as a
/// separator.
pub open spec fn component_text(part: Part, separator: u8) -> Seq<u8> {
    match part {
        Part::Prefix { text, .. } => text,
        Part::Root => seq![separator],
        Part::Here => seq![46u8],
        Part::Up => seq![46u8, 46u8],
        Part::Name(name) => name,
    }
}

/// The path is a root, with or without a prefix, or a prefix alone: what follows
/// needs no separator.
pub open spec fn ends_open(parts: Seq<Part>) -> bool {
    ||| parts.len() == 1 && (parts[0] is Root || parts[0] is Prefix)
    ||| parts.len() == 2 && parts[0] is Prefix && parts[1] is Root
}

/// Paths are written component by component, with one separator before each that
/// does not stand at the start, behind the root or behind a prefix alone.
pub proof fn law_paths_are_written_by_components(
    parts: Seq<Part>,
    last: Part,
    separator: u8,
)
    requires
        fs_path::is_path(parts.push(last)),
    ensures
        fs_path::written(seq![], separator) == Seq::<u8>::empty(),
        fs_path::written(parts.push(last), separator) == fs_path::written(parts, separator) + (
        if parts.len() == 0 || ends_open(parts) {
            seq![]
        } else {
            seq![separator]
        }) + component_text(last, separator),
        fs_path::path_text(parts) == fs_path::written(parts, 47),
{
    let whole = parts.push(last);
    law_paths_grow_by_components(parts, last);
    let none = Seq::<Part>::empty();
    assert(none.skip(0) =~= none);
    assert(fs_path::written(none, separator) =~= seq![]);
    reveal_with_fuel(fs_path::separated, 2);
    if parts.len() == 0 {
        assert(parts =~= none);
        match last {
            Part::Prefix { .. } => {
                assert(whole.skip(1) =~= none);
                assert(fs_path::written(whole, separator) =~= component_text(last, separator));
            },
            Part::Root => {
                assert(whole.skip(1) =~= none);
                assert(fs_path::written(whole, separator) =~= component_text(last, separator));
            },
            _ => {
                assert(whole.skip(0) =~= whole);
                assert(fs_path::written(whole, separator) =~= component_text(last, separator));
            },
        }
        assert(fs_path::written(parts, separator) + Seq::<u8>::empty() + component_text(
            last,
            separator,
        ) =~= component_text(last, separator));
    } else {
        assert(whole[0] == parts[0]);
        if parts.len() == 1 && last is Root {
            assert(whole.skip(2) =~= none);
            assert(parts.skip(1) =~= none);
            let nothing = Seq::<u8>::empty();
            assert(fs_path::written(whole, separator) =~= fs_path::written(parts, separator)
                + nothing + component_text(last, separator));
        } else {
            let from: int = fs_path::lead(parts) + (if fs_path::has_root(parts) {
                1int
            } else {
                0
            });
            if parts.len() > 1 {
                assert(whole[1] == parts[1]);
            }
            assert(fs_path::has_root(whole) == fs_path::has_root(parts));
            let behind = parts.skip(from);
            let longer = whole.skip(from);
            assert(longer.drop_last() =~= behind);
            assert(longer.last() == last);
            assert(fs_path::is_part(whole[parts.len() as int], parts.len() as int, fs_path::lead(
                whole,
            )));
            assert(behind.len() == 0 <==> ends_open(parts)) by {
                if behind.len() > 0 && parts.len() == 1 {
                    assert(from == 0);
                }
                if behind.len() > 0 && parts.len() == 2 && parts[0] is Prefix && parts[1]
                    is Root {
                    assert(from == 2);
                }
            }
            if behind.len() == 0 {
                assert(behind =~= none);
                assert(longer =~= seq![last]);
            }
            assert(fs_path::part_text(last) == component_text(last, separator));
            assert(fs_path::written(whole, separator) =~= fs_path::written(parts, separator) + (
            if ends_open(parts) {
                seq![]
            } else {
                seq![separator]
            }) + component_text(last, separator));
        }
    }
}

} // verus!
