//! What holds of every comparison, and of the normal forms it rests on.

use crate::blob_sha;
use crate::comment_laws;
use crate::comments;
use crate::comments::CommentStyle;
use crate::sync_engine;
use crate::sync_engine::{DiffCategory, FileSyncStatus};
use crate::text;
use crate::text_laws;
use vstd::prelude::*;
use vstd::utf8::*;

verus! {

// ---- Classification ------------------------------------------------------

/// A file with the same content on both sides is in sync.
pub proof fn law_same_content_is_in_sync(path: Seq<char>, content: Seq<u8>, cosmetic: bool)
    ensures
        sync_engine::content_category(path, content, content, cosmetic) == DiffCategory::InSync,
{
}

/// Where cosmetic differences are not told apart, a file is in sync or changed,
/// and in sync exactly where the git SHAs agree.
pub proof fn law_no_cosmetic_categories_unless_asked(
    path: Seq<char>,
    local: Seq<u8>,
    remote: Seq<u8>,
)
    ensures
        sync_engine::content_category(path, local, remote, false) == (if blob_sha::git_blob_sha(
            local,
        ) == blob_sha::git_blob_sha(remote) {
            DiffCategory::InSync
        } else {
            DiffCategory::ContentChanged
        }),
{
}

/// It does not matter which side is called local.
pub proof fn law_comparison_is_symmetric(
    path: Seq<char>,
    local: Seq<u8>,
    remote: Seq<u8>,
    cosmetic: bool,
)
    ensures
        sync_engine::content_category(path, local, remote, cosmetic)
            == sync_engine::content_category(path, remote, local, cosmetic),
{
}

/// A file is in sync exactly where the git SHAs agree, whether or not cosmetic
/// differences are told apart.
pub proof fn law_in_sync_exactly_where_shas_agree(
    path: Seq<char>,
    local: Seq<u8>,
    remote: Seq<u8>,
    cosmetic: bool,
)
    ensures
        sync_engine::content_category(path, local, remote, cosmetic) == DiffCategory::InSync
            <==> blob_sha::git_blob_sha(local) == blob_sha::git_blob_sha(remote),
{
}

/// A change counts as cosmetic exactly where it shows in the texts and is gone
/// once comments are left out and white space is evened out.
pub proof fn law_real_changes_are_never_cosmetic(
    local: Seq<char>,
    remote: Seq<char>,
    style: CommentStyle,
)
    ensures
        sync_engine::cosmetic_category(local, remote, style) == DiffCategory::ContentChanged
            <==> local == remote || comments::evened(comments::uncommented(local, style))
            != comments::evened(comments::uncommented(remote, style)),
{
}

/// In a file of unknown style only white space can be a cosmetic difference.
pub proof fn law_unknown_style_compares_white_space(local: Seq<char>, remote: Seq<char>)
    requires
        local != remote,
    ensures
        sync_engine::cosmetic_category(local, remote, CommentStyle::Unknown) == (
        if comments::evened(local) == comments::evened(remote) {
            DiffCategory::WhitespaceOnly
        } else {
            DiffCategory::ContentChanged
        }),
{
}

/// What two texts differ in, case by case. With white space evened out and comments
/// left out they have to agree, else they are changed. Where white space alone
/// makes the difference, it is white space; else, where comments alone make it, it
/// is comments; else it is both. Texts that do not differ at all stand for bytes
/// that do.
pub proof fn law_each_category_has_its_cause(
    local: Seq<char>,
    remote: Seq<char>,
    style: CommentStyle,
)
    ensures
        ({
            let category = sync_engine::cosmetic_category(local, remote, style);
            let bare_local = comments::uncommented(local, style);
            let bare_remote = comments::uncommented(remote, style);
            let cosmetic = local != remote && comments::evened(bare_local) == comments::evened(
                bare_remote,
            );
            let same_words = comments::evened(local) == comments::evened(remote);
            let same_code = bare_local == bare_remote;
            &&& category == DiffCategory::ContentChanged <==> !cosmetic
            &&& category == DiffCategory::WhitespaceOnly <==> cosmetic && same_words
            &&& category == DiffCategory::CommentOnly <==> cosmetic && !same_words && same_code
            &&& category == DiffCategory::CosmeticMixed <==> cosmetic && !same_words && !same_code
        }),
{
}

/// Where the git SHAs differ and cosmetic differences are told apart, contents that
/// are texts are compared as these texts, in the comment style of the path.
pub proof fn law_contents_are_compared_as_texts(
    path: Seq<char>,
    local: Seq<char>,
    remote: Seq<char>,
)
    requires
        blob_sha::git_blob_sha(encode_utf8(local)) != blob_sha::git_blob_sha(encode_utf8(remote)),
    ensures
        sync_engine::content_category(path, encode_utf8(local), encode_utf8(remote), true)
            == sync_engine::cosmetic_category(local, remote, comments::style_of_path(path)),
{
    text_laws::law_text_is_read_back(local);
    text_laws::law_text_is_read_back(remote);
}

/// Contents that are no text are compared as the text that is left once each fault
/// in their encoding is replaced.
pub proof fn law_other_contents_are_compared_with_replacements(
    path: Seq<char>,
    local: Seq<u8>,
    remote: Seq<u8>,
)
    requires
        blob_sha::git_blob_sha(local) != blob_sha::git_blob_sha(remote),
        !valid_utf8(local),
    ensures
        sync_engine::content_category(path, local, remote, true)
            == sync_engine::cosmetic_category(
            text::utf8_with_replacements(local),
            if valid_utf8(remote) {
                decode_utf8(remote)
            } else {
                text::utf8_with_replacements(remote)
            },
            comments::style_of_path(path),
        ),
{
}

// ---- A project -----------------------------------------------------------

/// A file on one side alone is said to be there alone; a file on both sides is in
/// sync exactly where the local content has the remote SHA; else it is changed,
/// unless cosmetic differences are told apart.
pub proof fn law_standing_of_a_file<F: Fn(&str) -> Option<Vec<u8>>>(
    local: Map<Seq<char>, Vec<u8>>,
    remote: Map<Seq<char>, String>,
    fetch: F,
    cosmetic: bool,
    path: Seq<char>,
    category: DiffCategory,
)
    requires
        sync_engine::is_standing(local, remote, fetch, cosmetic, path, category),
    ensures
        local.dom().contains(path) || remote.dom().contains(path),
        category == DiffCategory::LocalOnly ==> !remote.dom().contains(path),
        !remote.dom().contains(path) ==> category == DiffCategory::LocalOnly,
        category == DiffCategory::RemoteOnly ==> !local.dom().contains(path),
        !local.dom().contains(path) ==> category == DiffCategory::RemoteOnly,
        local.dom().contains(path) && remote.dom().contains(path) ==> {
            let same = blob_sha::git_blob_sha(local[path]@) == remote[path]@;
            &&& same ==> category == DiffCategory::InSync
            &&& !same && !cosmetic ==> category == DiffCategory::ContentChanged
            &&& !same && cosmetic ==> exists|asked: &str, fetched: Option<Vec<u8>>|
                {
                    &&& #[trigger] call_ensures(fetch, (asked,), fetched)
                    &&& asked@ == path
                    &&& category == match fetched {
                        Some(content) => sync_engine::content_category(
                            path,
                            local[path]@,
                            content@,
                            true,
                        ),
                        None => DiffCategory::ContentChanged,
                    }
                }
        },
{
    if local.dom().contains(path) && remote.dom().contains(path) && cosmetic
        && blob_sha::git_blob_sha(local[path]@) != remote[path]@ {
        let (asked, fetched) = choose|asked: &str, fetched: Option<Vec<u8>>|
            asked@ == path && #[trigger] call_ensures(fetch, (asked,), fetched) && category
                == sync_engine::fetched_category(path, local[path]@, fetched, cosmetic);
        assert(call_ensures(fetch, (asked,), fetched));
    }
}

/// A report that covers two sides has exactly one entry for every path of either,
/// and no entry for any other path.
pub proof fn law_report_has_every_path_once(
    results: Seq<FileSyncStatus>,
    local: Map<Seq<char>, Vec<u8>>,
    remote: Map<Seq<char>, String>,
)
    requires
        sync_engine::covers(results, local, remote),
    ensures
        forall|path: Seq<char>| #[trigger]
            local.dom().contains(path) ==> has_entry(results, path),
        forall|path: Seq<char>| #[trigger]
            remote.dom().contains(path) ==> has_entry(results, path),
        forall|k: int|
            0 <= k < results.len() ==> local.dom().contains(
                (#[trigger] results[k]).relative_path@,
            ) || remote.dom().contains(results[k].relative_path@),
        forall|i: int, j: int|
            0 <= i < j < results.len() ==> (#[trigger] results[i]).relative_path@ != (
            #[trigger] results[j]).relative_path@,
{
    assert forall|path: Seq<char>|
        local.dom().contains(path) || remote.dom().contains(path) implies #[trigger] has_entry(
        results,
        path,
    ) by {
        assert(sync_engine::reports(results, path));
        let k = choose|k: int|
            0 <= k < results.len() && #[trigger] sync_engine::reported_path(results, k) == path;
        assert(results[k].relative_path@ == path);
    }
    assert forall|path: Seq<char>| #[trigger] local.dom().contains(path) implies has_entry(
        results,
        path,
    ) by {}
    assert forall|path: Seq<char>| #[trigger] remote.dom().contains(path) implies has_entry(
        results,
        path,
    ) by {}
    assert forall|k: int| 0 <= k < results.len() implies local.dom().contains(
        (#[trigger] results[k]).relative_path@,
    ) || remote.dom().contains(results[k].relative_path@) by {
        let path = results[k].relative_path@;
        assert(sync_engine::reported_path(results, k) == path);
        assert(sync_engine::reports(results, path));
    }
    assert forall|i: int, j: int| 0 <= i < j < results.len() implies (
    #[trigger] results[i]).relative_path@ != (#[trigger] results[j]).relative_path@ by {
        assert(sync_engine::reported_path(results, i) == results[i].relative_path@);
        assert(sync_engine::reported_path(results, j) == results[j].relative_path@);
    }
}

/// The report has an entry with that path.
pub open spec fn has_entry(results: Seq<FileSyncStatus>, path: Seq<char>) -> bool {
    exists|k: int| 0 <= k < results.len() && (#[trigger] results[k]).relative_path@ == path
}

/// The remote content of a file is asked for only where it is on both sides with
/// different SHAs and cosmetic differences are told apart.
pub proof fn law_content_is_asked_for_only_where_needed(
    local: Map<Seq<char>, Vec<u8>>,
    remote: Map<Seq<char>, String>,
    cosmetic: bool,
    path: Seq<char>,
)
    ensures
        sync_engine::needs_remote_content(local, remote, cosmetic, path) <==> {
            &&& cosmetic
            &&& local.dom().contains(path)
            &&& remote.dom().contains(path)
            &&& blob_sha::git_blob_sha(local[path]@) != remote[path]@
        },
{
}

// ---- White space ---------------------------------------------------------

/// Every character is white space.
pub open spec fn all_space(s: Seq<char>) -> bool {
    forall|i: int| 0 <= i < s.len() ==> text::is_space(#[trigger] s[i])
}

/// The characters that are no white space.
pub open spec fn ink(s: Seq<char>) -> Seq<char> {
    s.filter(|c: char| !text::is_space(c))
}

/// Evening out white space keeps every other character, in order.
pub proof fn law_evening_keeps_all_ink(s: Seq<char>)
    ensures
        ink(comments::evened(s)) == ink(s),
    decreases s.len(),
{
    let pred = |c: char| !text::is_space(c);
    if s.len() > 0 {
        law_evening_keeps_all_ink(s.drop_last());
        let before = comments::evened(s.drop_last());
        s.drop_last().lemma_filter_push(s.last(), pred);
        assert(s.drop_last().push(s.last()) =~= s);
        before.lemma_filter_push(' ', pred);
        before.push(' ').lemma_filter_push(s.last(), pred);
        before.lemma_filter_push(s.last(), pred);
    }
}

/// In an evened text white space is a single space, between two other
/// characters.
pub proof fn law_evened_text_has_single_spaces(s: Seq<char>, i: int)
    requires
        0 <= i < comments::evened(s).len(),
        text::is_space(comments::evened(s)[i]),
    ensures
        comments::evened(s)[i] == ' ',
        0 < i < comments::evened(s).len() - 1,
        !text::is_space(comments::evened(s)[i - 1]),
        !text::is_space(comments::evened(s)[i + 1]),
    decreases s.len(),
{
    let out = comments::evened(s);
    let before = comments::evened(s.drop_last());
    lemma_evened_ends_in_ink(s.drop_last());
    if i < before.len() {
        assert(out[i] == before[i]);
        law_evened_text_has_single_spaces(s.drop_last(), i);
        assert(out[i - 1] == before[i - 1]);
        assert(out[i + 1] == before[i + 1]);
    }
}

proof fn lemma_evened_ends_in_ink(s: Seq<char>)
    ensures
        comments::evened(s).len() > 0 ==> !text::is_space(comments::evened(s).last()),
    decreases s.len(),
{
    if s.len() > 0 {
        lemma_evened_ends_in_ink(s.drop_last());
    }
}

/// White space at the end of a text does not count.
proof fn lemma_space_behind(a: Seq<char>, w: Seq<char>)
    requires
        all_space(w),
    ensures
        comments::evened(a + w) == comments::evened(a),
    decreases w.len(),
{
    if w.len() == 0 {
        assert(a + w =~= a);
    } else {
        assert forall|i: int| 0 <= i < w.drop_last().len() implies text::is_space(
            #[trigger] w.drop_last()[i],
        ) by {
            assert(text::is_space(w[i]));
        }
        lemma_space_behind(a, w.drop_last());
        assert((a + w).drop_last() =~= a + w.drop_last());
        assert(text::is_space(w[w.len() - 1]));
    }
}

/// How an evened text goes on depends on the evened start, on whether white
/// space ends it, and on what follows.
proof fn lemma_same_start(a: Seq<char>, b: Seq<char>, rest: Seq<char>)
    requires
        comments::evened(a) == comments::evened(b),
        (a.len() > 0 && text::is_space(a.last())) == (b.len() > 0 && text::is_space(b.last()))
            || comments::evened(a).len() == 0,
    ensures
        comments::evened(a + rest) == comments::evened(b + rest),
    decreases rest.len(),
{
    if rest.len() == 0 {
        assert(a + rest =~= a);
        assert(b + rest =~= b);
    } else {
        lemma_same_start(a, b, rest.drop_last());
        assert((a + rest).drop_last() =~= a + rest.drop_last());
        assert((b + rest).drop_last() =~= b + rest.drop_last());
        if rest.len() > 1 {
            assert((a + rest)[(a + rest).len() - 2] == rest[rest.len() - 2]);
            assert((b + rest)[(b + rest).len() - 2] == rest[rest.len() - 2]);
        } else {
            assert(a + rest.drop_last() =~= a);
            assert(b + rest.drop_last() =~= b);
            if a.len() > 0 {
                assert((a + rest)[(a + rest).len() - 2] == a.last());
            }
            if b.len() > 0 {
                assert((b + rest)[(b + rest).len() - 2] == b.last());
            }
        }
    }
}

/// Which white space separates two parts of a text, and how much of it, makes
/// no difference once it is evened out.
pub proof fn law_amount_of_white_space_is_evened_out(
    a: Seq<char>,
    w: Seq<char>,
    v: Seq<char>,
    b: Seq<char>,
)
    requires
        all_space(w),
        all_space(v),
        w.len() > 0,
        v.len() > 0,
    ensures
        comments::evened(a + w + b) == comments::evened(a + v + b),
{
    lemma_space_behind(a, w);
    lemma_space_behind(a, v);
    assert((a + w).last() == w[w.len() - 1]);
    assert((a + v).last() == v[v.len() - 1]);
    lemma_same_start(a + w, a + v, b);
}

/// White space at the ends of a text makes no difference once it is evened out.
pub proof fn law_white_space_at_the_ends_is_dropped(w: Seq<char>, s: Seq<char>, v: Seq<char>)
    requires
        all_space(w),
        all_space(v),
    ensures
        comments::evened(w + s + v) == comments::evened(s),
{
    lemma_space_behind(w + s, v);
    lemma_space_behind(seq![], w);
    assert(seq![] + w =~= w);
    assert(comments::evened(Seq::<char>::empty()) =~= seq![]);
    lemma_same_start(w, seq![], s);
    assert(seq![] + s =~= s);
}

/// The text holds a character that is no white space.
pub open spec fn has_ink(s: Seq<char>) -> bool {
    exists|i: int| 0 <= i < s.len() && !text::is_space(#[trigger] s[i])
}

/// The words of a text are kept as they are, with one space between each two:
/// a text without white space is kept, white space alone is nothing, and white
/// space between two parts is one space.
pub proof fn law_words_are_kept_apart(a: Seq<char>, w: Seq<char>, b: Seq<char>)
    requires
        all_space(w),
    ensures
        !has_ink(a) ==> comments::evened(a) == Seq::<char>::empty(),
        (forall|i: int| 0 <= i < a.len() ==> !text::is_space(#[trigger] a[i]))
            ==> comments::evened(a) == a,
        w.len() > 0 && has_ink(a) && has_ink(b) ==> comments::evened(a + w + b)
            == comments::evened(a) + seq![' '] + comments::evened(b),
{
    lemma_no_space(a);
    if !has_ink(a) {
        assert(all_space(a));
        lemma_space_behind(seq![], a);
        assert(seq![] + a =~= a);
        assert(comments::evened(Seq::<char>::empty()) =~= seq![]);
    }
    if w.len() > 0 && has_ink(a) && has_ink(b) {
        lemma_ink_shows(a);
        lemma_words_apart(a, w, b);
    }
}

proof fn lemma_no_space(a: Seq<char>)
    ensures
        (forall|i: int| 0 <= i < a.len() ==> !text::is_space(#[trigger] a[i]))
            ==> comments::evened(a) == a,
    decreases a.len(),
{
    if (forall|i: int| 0 <= i < a.len() ==> !text::is_space(#[trigger] a[i])) && a.len() > 0 {
        let less = a.drop_last();
        assert forall|i: int| 0 <= i < less.len() implies !text::is_space(#[trigger] less[i]) by {
            assert(less[i] == a[i]);
        }
        lemma_no_space(less);
        assert(!text::is_space(a[a.len() - 1]));
        if a.len() > 1 {
            assert(!text::is_space(a[a.len() - 2]));
        }
        assert(less.push(a.last()) =~= a);
    }
}

proof fn lemma_ink_shows(a: Seq<char>)
    requires
        has_ink(a),
    ensures
        comments::evened(a).len() > 0,
    decreases a.len(),
{
    let i = choose|i: int| 0 <= i < a.len() && !text::is_space(#[trigger] a[i]);
    if text::is_space(a.last()) {
        assert(a.drop_last()[i] == a[i]);
        lemma_ink_shows(a.drop_last());
    }
}

proof fn lemma_words_apart(a: Seq<char>, w: Seq<char>, b: Seq<char>)
    requires
        all_space(w),
        w.len() > 0,
        comments::evened(a).len() > 0,
    ensures
        comments::evened(a + w + b) == if has_ink(b) {
            comments::evened(a) + seq![' '] + comments::evened(b)
        } else {
            comments::evened(a)
        },
    decreases b.len(),
{
    let s = a + w + b;
    if b.len() == 0 {
        assert(s =~= a + w);
        lemma_space_behind(a, w);
    } else {
        let less = b.drop_last();
        lemma_words_apart(a, w, less);
        assert(s.drop_last() =~= a + w + less);
        assert(s.last() == b.last());
        if b.len() > 1 {
            assert(s[s.len() - 2] == b[b.len() - 2]);
        } else {
            assert(s[s.len() - 2] == w[w.len() - 1]);
        }
        if has_ink(less) {
            let i = choose|i: int| 0 <= i < less.len() && !text::is_space(#[trigger] less[i]);
            assert(b[i] == less[i]);
            lemma_ink_shows(less);
        }
        if text::is_space(b.last()) {
            if has_ink(b) {
                let i = choose|i: int| 0 <= i < b.len() && !text::is_space(#[trigger] b[i]);
                assert(less[i] == b[i]);
            }
        } else {
            assert(!text::is_space(b[b.len() - 1]));
            if !has_ink(less) {
                assert(all_space(less));
                lemma_space_behind(seq![], less);
                assert(seq![] + less =~= less);
                assert(comments::evened(Seq::<char>::empty()) =~= seq![]);
                if b.len() > 1 {
                    assert(text::is_space(less[b.len() - 2]));
                }
            }
        }
        if has_ink(b) {
            assert(comments::evened(s) =~= comments::evened(a) + seq![' '] + comments::evened(b));
        }
    }
}

/// Evening out twice is evening out once.
pub proof fn law_evening_twice_is_evening_once(s: Seq<char>)
    ensures
        comments::evened(comments::evened(s)) == comments::evened(s),
    decreases s.len(),
{
    if s.len() > 0 {
        law_evening_twice_is_evening_once(s.drop_last());
        let before = comments::evened(s.drop_last());
        let out = comments::evened(s);
        lemma_evened_ends_in_ink(s.drop_last());
        if !text::is_space(s.last()) {
            if before.len() > 0 && text::is_space(s[s.len() - 2]) {
                assert(out.drop_last() =~= before.push(' '));
                assert(before.push(' ').drop_last() =~= before);
                assert(comments::evened(before.push(' ')) == before);
                assert(out[out.len() - 2] == ' ');
            } else {
                assert(out.drop_last() =~= before);
                if before.len() > 0 {
                    assert(out[out.len() - 2] == before.last());
                }
            }
        }
    }
}

// ---- Comments ------------------------------------------------------------

/// Blanks carry no ink.
proof fn lemma_blanks_have_no_ink(s: Seq<char>)
    requires
        comment_laws::all_blank(s),
    ensures
        ink(s) == Seq::<char>::empty(),
    decreases s.len(),
{
    reveal(Seq::filter);
    if s.len() > 0 {
        let last = s[s.len() - 1];
        assert(last == ' ' || last == '\t');
        assert forall|i: int| 0 <= i < s.drop_last().len() implies #[trigger] s.drop_last()[i]
            == ' ' || s.drop_last()[i] == '\t' by {
            assert(s[i] == ' ' || s[i] == '\t');
        }
        lemma_blanks_have_no_ink(s.drop_last());
    } else {
        assert(ink(s) =~= Seq::<char>::empty());
    }
}

/// A comment more is more ink, so it shows when white space is evened out.
proof fn lemma_comment_shows(
    code: Seq<char>,
    blanks: Seq<char>,
    mark: Seq<char>,
    comment: Seq<char>,
    rest: Seq<char>,
)
    requires
        comment_laws::all_blank(blanks),
        mark.len() > 0,
        forall|i: int| 0 <= i < mark.len() ==> !text::is_space(#[trigger] mark[i]),
    ensures
        comments::evened(code + (blanks + (mark + comment + rest))) != comments::evened(
            code + rest,
        ),
{
    broadcast use Seq::filter_distributes_over_add;

    let with_comment = code + (blanks + (mark + comment + rest));
    law_evening_keeps_all_ink(with_comment);
    law_evening_keeps_all_ink(code + rest);
    lemma_blanks_have_no_ink(blanks);
    let pred = |c: char| !text::is_space(c);
    mark.lemma_filter_contains(pred, 0);
    assert(ink(with_comment) == ink(code) + (ink(blanks) + (ink(mark) + ink(comment) + ink(rest))));
    assert(ink(code + rest) == ink(code) + ink(rest));
    assert(ink(mark).len() > 0);
}

/// In code of the C family, a line comment more behind some code is a difference
/// in comments only, whatever string literals the code holds.
pub proof fn law_c_line_comment_is_comment_only(
    code: Seq<char>,
    blanks: Seq<char>,
    comment: Seq<char>,
    rest: Seq<char>,
)
    requires
        comment_laws::is_whole_c_code(code),
        comment_laws::ends_solid(code),
        comment_laws::all_blank(blanks),
        !comment.contains('\n'),
        comment_laws::at_line_end(rest),
    ensures
        sync_engine::cosmetic_category(
            code + (blanks + (seq!['/', '/'] + comment + rest)),
            code + rest,
            CommentStyle::CLike,
        ) == DiffCategory::CommentOnly,
{
    let behind = blanks + (seq!['/', '/'] + comment + rest);
    assert(Seq::<char>::empty() + code =~= code);
    comment_laws::law_c_code_is_kept(seq![], code, behind);
    comment_laws::law_c_code_is_kept(seq![], code, rest);
    comment_laws::law_c_line_comment_leaves_no_trace(code, blanks, comment, rest);
    lemma_comment_shows(code, blanks, seq!['/', '/'], comment, rest);
}

/// A block comment hides no change of the code behind it, however many lines the
/// comment has.
pub proof fn law_block_comment_hides_no_change(
    comment: Seq<char>,
    local: Seq<char>,
    remote: Seq<char>,
)
    requires
        comment_laws::ends_first_with(comment, seq!['*', '/']),
        comment_laws::is_c_code(comment_laws::behind_line_end(local)),
        comment_laws::is_c_code(comment_laws::behind_line_end(remote)),
        ink(local) != ink(remote),
    ensures
        ({
            let mark = seq!['/', '*'] + comment + seq!['*', '/'];
            sync_engine::cosmetic_category(mark + local, mark + remote, CommentStyle::CLike)
                == DiffCategory::ContentChanged
        }),
{
    lemma_code_behind_comment(comment, local);
    lemma_code_behind_comment(comment, remote);
    law_evening_keeps_all_ink(comment_laws::behind_line_end(local));
    law_evening_keeps_all_ink(comment_laws::behind_line_end(remote));
}

proof fn lemma_code_behind_comment(comment: Seq<char>, code: Seq<char>)
    requires
        comment_laws::ends_first_with(comment, seq!['*', '/']),
        comment_laws::is_c_code(comment_laws::behind_line_end(code)),
    ensures
        comments::uncommented(
            seq!['/', '*'] + comment + seq!['*', '/'] + code,
            CommentStyle::CLike,
        ) == comment_laws::behind_line_end(code),
        ink(comment_laws::behind_line_end(code)) == ink(code),
{
    broadcast use Seq::filter_distributes_over_add;

    let none = Seq::<char>::empty();
    let s = seq!['/', '*'] + comment + seq!['*', '/'] + code;
    let rest = comment_laws::behind_line_end(code);
    assert(none + s =~= s);
    comment_laws::law_c_block_comment_leaves_no_trace(none, none, comment, code);
    comment_laws::law_c_code_is_unchanged(none, rest);
    assert(none + rest =~= rest);
    let n = code.len() - rest.len();
    let end = code.take(n);
    assert(code =~= end + rest);
    reveal_with_fuel(Seq::filter, 3);
    assert(ink(end) =~= none) by {
        if n == 1 {
            assert(end.drop_last() =~= none);
            assert(end.last() == '\n');
        } else if n == 2 {
            assert(end.drop_last().drop_last() =~= none);
            assert(end.drop_last().last() == '\r');
            assert(end.last() == '\n');
        }
    }
    assert(ink(code) == ink(end) + ink(rest));
    assert(none + ink(rest) =~= ink(rest));
}

/// In a file with `#` comments, one more behind some code is a difference in
/// comments only, whatever string literals the code holds.
pub proof fn law_hash_comment_is_comment_only(
    code: Seq<char>,
    blanks: Seq<char>,
    comment: Seq<char>,
    rest: Seq<char>,
)
    requires
        comment_laws::is_whole_hash_code(code),
        comment_laws::ends_solid(code),
        comment_laws::all_blank(blanks),
        !comment.contains('\n'),
        comment_laws::at_line_end(rest),
    ensures
        sync_engine::cosmetic_category(
            code + (blanks + (seq!['#'] + comment + rest)),
            code + rest,
            CommentStyle::Hash,
        ) == DiffCategory::CommentOnly,
{
    let behind = blanks + (seq!['#'] + comment + rest);
    assert(Seq::<char>::empty() + code =~= code);
    comment_laws::law_hash_code_is_kept(seq![], code, behind);
    comment_laws::law_hash_code_is_kept(seq![], code, rest);
    comment_laws::law_hash_comment_leaves_no_trace(code, blanks, comment, rest);
    lemma_comment_shows(code, blanks, seq!['#'], comment, rest);
}

} // verus!
