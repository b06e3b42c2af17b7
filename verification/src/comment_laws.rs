//! What holds of every removal of comments. Each law speaks of a point in the
//! scan: `out` is what was kept of the text so far, and the rest of the text
//! follows.

use crate::comments;
use crate::comments::CommentStyle;
use crate::text;
use vstd::prelude::*;

verus! {

/// Every character is a space or a tab.
pub open spec fn all_blank(s: Seq<char>) -> bool {
    forall|i: int| 0 <= i < s.len() ==> #[trigger] s[i] == ' ' || s[i] == '\t'
}

/// The text does not end in a space or a tab.
pub open spec fn ends_solid(s: Seq<char>) -> bool {
    s.len() == 0 || s.last() != ' ' && s.last() != '\t'
}

/// The text is over, or a line break follows.
pub open spec fn at_line_end(s: Seq<char>) -> bool {
    s.len() == 0 || s[0] == '\n'
}

/// What stands behind a blank among blanks is blank.
proof fn lemma_blanks_behind(blanks: Seq<char>)
    requires
        all_blank(blanks),
        blanks.len() > 0,
    ensures
        all_blank(blanks.skip(1)),
{
    let rest = blanks.skip(1);
    assert forall|i: int| 0 <= i < rest.len() implies #[trigger] rest[i] == ' ' || rest[i]
        == '\t' by {
        assert(blanks[i + 1] == ' ' || blanks[i + 1] == '\t');
    }
}

// ---- Occurrences ---------------------------------------------------------

/// The part stands in the text at a position, character by character.
pub open spec fn occurs_at(s: Seq<char>, part: Seq<char>, at: int) -> bool {
    &&& 0 <= at
    &&& at + part.len() <= s.len()
    &&& forall|j: int| 0 <= j < part.len() ==> s[at + j] == #[trigger] part[j]
}

/// The search for a part gives its first place, whatever characters stand before
/// it, and gives nothing only where there is none.
pub proof fn law_search_gives_the_first_place(s: Seq<char>, part: Seq<char>, at: nat)
    ensures
        comments::find(s, part) == Some(at) <==> occurs_at(s, part, at as int) && forall|k: int|
            0 <= k < at ==> !#[trigger] occurs_at(s, part, k),
        comments::find(s, part) is None <==> forall|k: int| !#[trigger] occurs_at(s, part, k),
{
    lemma_search(s, part);
    if let Some(p) = comments::find(s, part) {
        assert(occurs_at(s, part, p as int));
        if occurs_at(s, part, at as int) && forall|k: int|
            0 <= k < at ==> !#[trigger] occurs_at(s, part, k) {
            if p < at {
                assert(!occurs_at(s, part, p as int));
            }
        }
    }
}

proof fn lemma_search(s: Seq<char>, part: Seq<char>)
    ensures
        match comments::find(s, part) {
            Some(p) => occurs_at(s, part, p as int) && forall|k: int|
                0 <= k < p ==> !#[trigger] occurs_at(s, part, k),
            None => forall|k: int| !#[trigger] occurs_at(s, part, k),
        },
    decreases s.len(),
{
    if occurs_at(s, part, 0) {
        assert(part =~= s.take(part.len() as int)) by {
            assert forall|j: int| 0 <= j < part.len() implies part[j] == s[j] by {
                assert(s[0 + j] == part[j]);
            }
        }
    }
    if part.is_prefix_of(s) {
        assert(occurs_at(s, part, 0)) by {
            assert forall|j: int| 0 <= j < part.len() implies s[0 + j] == #[trigger] part[j] by {
                assert(part[j] == s.take(part.len() as int)[j]);
            }
        }
    } else if s.len() > 0 {
        let rest = s.skip(1);
        lemma_search(rest, part);
        assert forall|k: int| k > 0 implies #[trigger] occurs_at(s, part, k) == occurs_at(
            rest,
            part,
            k - 1,
        ) by {
            if occurs_at(s, part, k) {
                assert forall|j: int| 0 <= j < part.len() implies rest[k - 1 + j]
                    == #[trigger] part[j] by {
                    assert(s[k + j] == part[j]);
                }
            }
            if occurs_at(rest, part, k - 1) {
                assert forall|j: int| 0 <= j < part.len() implies s[k + j]
                    == #[trigger] part[j] by {
                    assert(rest[k - 1 + j] == part[j]);
                }
            }
        }
    }
}

/// With the mark behind it, the text holds the mark at its end and nowhere
/// before.
pub open spec fn ends_first_with(body: Seq<char>, mark: Seq<char>) -> bool {
    forall|k: int| 0 <= k < body.len() ==> !#[trigger] occurs_at(body + mark, mark, k)
}

/// The mark does not occur in the text.
pub open spec fn holds_no(s: Seq<char>, mark: Seq<char>) -> bool {
    forall|k: int| !#[trigger] occurs_at(s, mark, k)
}

proof fn lemma_ends_first(body: Seq<char>, mark: Seq<char>)
    requires
        ends_first_with(body, mark),
    ensures
        comments::find(body + mark, mark) == Some(body.len()),
{
    assert(occurs_at(body + mark, mark, body.len() as int));
    law_search_gives_the_first_place(body + mark, mark, body.len());
}

/// What follows a line end, where the text starts with one: a line feed, or a
/// carriage return and a line feed.
pub open spec fn behind_line_end(s: Seq<char>) -> Seq<char> {
    if s.len() > 0 && s[0] == '\n' {
        s.skip(1)
    } else if s.len() > 1 && s[0] == '\r' && s[1] == '\n' {
        s.skip(2)
    } else {
        s
    }
}

/// Nothing was kept before on this line.
pub open spec fn starts_line(out: Seq<char>) -> bool {
    out.len() == 0 || out.last() == '\n'
}

/// A quote that starts a string literal in the C family and in style sheets.
pub open spec fn is_c_mark(c: char) -> bool {
    c == '"' || c == '\'' || c == '`'
}

/// A quote that starts a string literal where `#` starts a comment.
pub open spec fn is_hash_mark(c: char) -> bool {
    c == '"' || c == '\''
}

proof fn lemma_blanks_trimmed(out: Seq<char>, blanks: Seq<char>)
    requires
        all_blank(blanks),
    ensures
        comments::without_trailing_blanks(out + blanks) == comments::without_trailing_blanks(out),
    decreases blanks.len(),
{
    if blanks.len() == 0 {
        assert(out + blanks =~= out);
    } else {
        let last = blanks[blanks.len() - 1];
        assert(last == ' ' || last == '\t');
        assert(all_blank(blanks.drop_last())) by {
            assert forall|i: int| 0 <= i < blanks.drop_last().len() implies #[trigger]
                blanks.drop_last()[i] == ' ' || blanks.drop_last()[i] == '\t' by {
                assert(blanks[i] == ' ' || blanks[i] == '\t');
            }
        }
        lemma_blanks_trimmed(out, blanks.drop_last());
        assert((out + blanks).drop_last() =~= out + blanks.drop_last());
    }
}

proof fn lemma_trimming(out: Seq<char>)
    ensures
        comments::without_trailing_blanks(out).is_prefix_of(out),
        ends_solid(comments::without_trailing_blanks(out)),
        ends_solid(out) ==> comments::without_trailing_blanks(out) == out,
    decreases out.len(),
{
    if out.len() > 0 && comments::is_blank(out.last()) {
        lemma_trimming(out.drop_last());
        let kept = comments::without_trailing_blanks(out);
        assert(kept =~= out.take(kept.len() as int));
    } else {
        assert(out =~= out.take(out.len() as int));
    }
}

// ---- The C family --------------------------------------------------------

proof fn lemma_c_blanks(out: Seq<char>, blanks: Seq<char>, rest: Seq<char>)
    requires
        all_blank(blanks),
    ensures
        comments::c_stripped(out, blanks + rest) == comments::c_stripped(out + blanks, rest),
    decreases blanks.len(),
{
    if blanks.len() == 0 {
        assert(blanks + rest =~= rest);
        assert(out + blanks =~= out);
    } else {
        let s = blanks + rest;
        assert(blanks[0] == ' ' || blanks[0] == '\t');
        lemma_blanks_behind(blanks);
        lemma_c_blanks(out.push(blanks[0]), blanks.skip(1), rest);
        assert(s.skip(1) =~= blanks.skip(1) + rest);
        assert(out.push(blanks[0]) + blanks.skip(1) =~= out + blanks);
    }
}

/// A line comment leaves no trace: with the blanks before it, it is as if it
/// were not there, and the line break behind it stays.
pub proof fn law_c_line_comment_leaves_no_trace(
    out: Seq<char>,
    blanks: Seq<char>,
    comment: Seq<char>,
    rest: Seq<char>,
)
    requires
        ends_solid(out),
        all_blank(blanks),
        !comment.contains('\n'),
        at_line_end(rest),
    ensures
        comments::c_stripped(out, blanks + (seq!['/', '/'] + comment + rest))
            == comments::c_stripped(out, rest),
{
    let s = seq!['/', '/'] + comment + rest;
    lemma_c_blanks(out, blanks, s);
    let n = 2 + comment.len();
    lemma_line_comment_len(seq!['/', '/'], comment, rest);
    assert(s.skip(n as int) =~= rest);
    lemma_blanks_trimmed(out, blanks);
    lemma_trimming(out);
}

proof fn lemma_line_comment_len(marker: Seq<char>, comment: Seq<char>, rest: Seq<char>)
    requires
        forall|i: int| 0 <= i < marker.len() ==> #[trigger] marker[i] != '\n',
        !comment.contains('\n'),
        at_line_end(rest),
    ensures
        text::position(marker + comment + rest, '\n') == marker.len() + comment.len(),
{
    let s = marker + comment + rest;
    let n = (marker.len() + comment.len()) as int;
    assert forall|k: int| 0 <= k < n implies s[k] != '\n' by {
        if k < marker.len() {
            assert(s[k] == marker[k]);
        } else {
            assert(s[k] == comment[k - marker.len()]);
            assert(comment.contains(comment[k - marker.len()]));
        }
    }
    text::lemma_position_is(s, '\n', n);
}

/// A block comment leaves no trace: with the blanks before it, it is as if it were
/// not there; alone on its line, it is as if the line were not there.
pub proof fn law_c_block_comment_leaves_no_trace(
    out: Seq<char>,
    blanks: Seq<char>,
    comment: Seq<char>,
    rest: Seq<char>,
)
    requires
        ends_solid(out),
        all_blank(blanks),
        ends_first_with(comment, seq!['*', '/']),
    ensures
        comments::c_stripped(out, blanks + (seq!['/', '*'] + comment + seq!['*', '/'] + rest))
            == comments::c_stripped(
            out,
            if starts_line(out) {
                behind_line_end(rest)
            } else {
                rest
            },
        ),
{
    let close = seq!['*', '/'];
    lemma_ends_first(comment, close);
    assert(rest.skip(0) =~= rest);
    let s = seq!['/', '*'] + comment + close + rest;
    lemma_c_blanks(out, blanks, s);
    lemma_find_stays(comment + close, close, rest);
    assert(s.skip(2) =~= comment + close + rest);
    let end = comment.len() + 4;
    assert(s.skip(end as int) =~= rest);
    lemma_blanks_trimmed(out, blanks);
    lemma_trimming(out);
}

/// What is found in a text is found there whatever follows.
proof fn lemma_find_stays(s: Seq<char>, part: Seq<char>, rest: Seq<char>)
    requires
        comments::find(s, part) is Some,
    ensures
        comments::find(s + rest, part) == comments::find(s, part),
    decreases s.len(),
{
    comments::lemma_find(s, part);
    if part.is_prefix_of(s) {
        assert(part =~= (s + rest).take(part.len() as int));
    } else {
        lemma_find_stays(s.skip(1), part, rest);
        assert((s + rest).skip(1) =~= s.skip(1) + rest);
        assert(!part.is_prefix_of(s + rest)) by {
            if part.is_prefix_of(s + rest) {
                comments::lemma_find(s.skip(1), part);
                assert(part.len() <= s.len());
                assert(part =~= s.take(part.len() as int)) by {
                    assert((s + rest).take(part.len() as int) =~= s.take(part.len() as int));
                }
            }
        }
    }
}

/// `s` is the rest of a string literal, from behind its opening quote to its
/// closing one.
pub open spec fn closes(s: Seq<char>, quote: char) -> bool
    decreases s.len(),
{
    if s.len() == 0 {
        false
    } else if s[0] == '\\' && s.len() > 1 {
        closes(s.skip(2), quote)
    } else if s[0] == quote {
        s.len() == 1
    } else {
        closes(s.skip(1), quote)
    }
}

proof fn lemma_closed_literal(s: Seq<char>, quote: char, rest: Seq<char>)
    requires
        closes(s, quote),
        quote != '\\',
    ensures
        comments::literal_rest(s + rest, quote) == s.len(),
        s.len() > 0,
        s.last() == quote,
    decreases s.len(),
{
    if s[0] == '\\' && s.len() > 1 {
        lemma_closed_literal(s.skip(2), quote, rest);
        assert((s + rest).skip(2) =~= s.skip(2) + rest);
        assert(s.last() == s.skip(2).last());
    } else if s[0] == quote {
    } else {
        if s.len() > 1 {
            lemma_closed_literal(s.skip(1), quote, rest);
            assert((s + rest).skip(1) =~= s.skip(1) + rest);
            assert(s.last() == s.skip(1).last());
        } else {
            assert(!closes(s.skip(1), quote));
        }
    }
}

proof fn lemma_c_keeps_start(out: Seq<char>, s: Seq<char>)
    ensures
        comments::without_trailing_blanks(out).is_prefix_of(comments::c_stripped(out, s)),
    decreases s.len(),
{
    let kept = comments::without_trailing_blanks(out);
    lemma_trimming(out);
    if s.len() == 0 {
    } else if comments::is_c_quote(s[0]) {
        comments::lemma_literal_rest(s.skip(1), s[0]);
        let n = comments::literal_len(s) as int;
        lemma_c_keeps_start(out + s.take(n), s.skip(n));
        lemma_trimmed_start(out, s.take(n));
        lemma_prefix(
            kept,
            comments::without_trailing_blanks(out + s.take(n)),
            comments::c_stripped(out, s),
        );
    } else if s[0] == '/' && s.len() > 1 && s[1] == '/' {
        comments::lemma_line_comment(s);
        lemma_c_keeps_start(kept, s.skip(text::position(s, '\n') as int));
        lemma_trimming(kept);
    } else if s[0] == '/' && s.len() > 1 && s[1] == '*' {
        comments::lemma_block_comment(s);
        let rest = s.skip(comments::block_comment_len(s) as int);
        lemma_c_keeps_start(kept, comments::behind_comment(kept, rest));
        lemma_trimming(kept);
    } else {
        lemma_c_keeps_start(out.push(s[0]), s.skip(1));
        assert(out.push(s[0]) =~= out + seq![s[0]]);
        lemma_trimmed_start(out, seq![s[0]]);
        lemma_prefix(
            kept,
            comments::without_trailing_blanks(out.push(s[0])),
            comments::c_stripped(out, s),
        );
    }
}

proof fn lemma_prefix(a: Seq<char>, b: Seq<char>, c: Seq<char>)
    requires
        a.is_prefix_of(b),
        b.is_prefix_of(c),
    ensures
        a.is_prefix_of(c),
{
    assert(a =~= c.take(a.len() as int)) by {
        assert forall|i: int| 0 <= i < a.len() implies a[i] == c[i] by {
            assert(a[i] == b.take(a.len() as int)[i]);
            assert(b[i] == c.take(b.len() as int)[i]);
        }
    }
}

proof fn lemma_trimmed_start(out: Seq<char>, more: Seq<char>)
    ensures
        comments::without_trailing_blanks(out).is_prefix_of(
            comments::without_trailing_blanks(out + more),
        ),
    decreases more.len(),
{
    let kept = comments::without_trailing_blanks(out);
    lemma_trimming(out);
    if more.len() == 0 {
        assert(out + more =~= out);
        assert(kept =~= kept.take(kept.len() as int));
    } else if comments::is_blank(more.last()) {
        lemma_trimmed_start(out, more.drop_last());
        assert((out + more).drop_last() =~= out + more.drop_last());
    } else {
        assert(comments::without_trailing_blanks(out + more) == out + more);
        assert(kept =~= (out + more).take(kept.len() as int)) by {
            assert forall|i: int| 0 <= i < kept.len() implies kept[i] == (out + more)[i] by {
                assert(kept[i] == out.take(kept.len() as int)[i]);
            }
        }
    }
}

/// A string literal comes through whole, whatever it holds: what was kept, the
/// literal, and then what is kept of the rest.
pub proof fn law_c_string_literal_is_kept(
    out: Seq<char>,
    quote: char,
    inside: Seq<char>,
    rest: Seq<char>,
)
    requires
        is_c_mark(quote),
        closes(inside, quote),
    ensures
        comments::c_stripped(out, seq![quote] + inside + rest) == comments::c_stripped(
            out + seq![quote] + inside,
            rest,
        ),
        (out + seq![quote] + inside).is_prefix_of(
            comments::c_stripped(out, seq![quote] + inside + rest),
        ),
{
    let s = seq![quote] + inside + rest;
    lemma_closed_literal(inside, quote, rest);
    assert(s.skip(1) =~= inside + rest);
    let n = (1 + inside.len()) as int;
    assert(comments::literal_len(s) == n);
    assert(s.take(n) =~= seq![quote] + inside);
    assert(s.skip(n) =~= rest);
    let kept = out + seq![quote] + inside;
    assert(out + s.take(n) =~= kept);
    assert(kept.last() == quote);
    lemma_c_keeps_start(kept, rest);
    lemma_trimming(kept);
}

/// Outside its string literals the text holds no start of a comment.
pub open spec fn is_c_code(s: Seq<char>) -> bool
    decreases s.len(),
{
    if s.len() == 0 {
        true
    } else if comments::is_c_quote(s[0]) {
        proof {
            comments::lemma_literal_rest(s.skip(1), s[0]);
        }
        is_c_code(s.skip(comments::literal_len(s) as int))
    } else {
        !(s[0] == '/' && s.len() > 1 && (s[1] == '/' || s[1] == '*')) && is_c_code(s.skip(1))
    }
}

/// Text without comments is not changed.
pub proof fn law_c_code_is_unchanged(out: Seq<char>, s: Seq<char>)
    requires
        is_c_code(s),
    ensures
        comments::c_stripped(out, s) == out + s,
    decreases s.len(),
{
    if s.len() == 0 {
        assert(out + s =~= out);
    } else if comments::is_c_quote(s[0]) {
        comments::lemma_literal_rest(s.skip(1), s[0]);
        let n = comments::literal_len(s) as int;
        law_c_code_is_unchanged(out + s.take(n), s.skip(n));
        assert(out + s.take(n) + s.skip(n) =~= out + s);
    } else {
        law_c_code_is_unchanged(out.push(s[0]), s.skip(1));
        assert(out.push(s[0]) + s.skip(1) =~= out + s);
    }
}

/// The text holds no start of a comment outside its string literals, which are
/// all closed, and does not end in a `/` of its own.
pub open spec fn is_whole_c_code(s: Seq<char>) -> bool
    decreases s.len(),
{
    if s.len() == 0 {
        true
    } else if comments::is_c_quote(s[0]) {
        proof {
            comments::lemma_literal_rest(s.skip(1), s[0]);
        }
        let n = comments::literal_len(s) as int;
        closes(s.subrange(1, n), s[0]) && is_whole_c_code(s.skip(n))
    } else {
        &&& s[0] == '/' ==> s.len() > 1 && s[1] != '/' && s[1] != '*'
        &&& is_whole_c_code(s.skip(1))
    }
}

/// Code is kept as it is, whatever follows it.
pub proof fn law_c_code_is_kept(out: Seq<char>, code: Seq<char>, rest: Seq<char>)
    requires
        is_whole_c_code(code),
    ensures
        comments::c_stripped(out, code + rest) == comments::c_stripped(out + code, rest),
    decreases code.len(),
{
    let s = code + rest;
    if code.len() == 0 {
        assert(s =~= rest);
        assert(out + code =~= out);
    } else if comments::is_c_quote(code[0]) {
        comments::lemma_literal_rest(code.skip(1), code[0]);
        let n = comments::literal_len(code) as int;
        let inside = code.subrange(1, n);
        let others = code.skip(n);
        law_c_string_literal_is_kept(out, code[0], inside, others + rest);
        assert(seq![code[0]] + inside + (others + rest) =~= s);
        law_c_code_is_kept(out + seq![code[0]] + inside, others, rest);
        assert(out + seq![code[0]] + inside + others =~= out + code);
    } else {
        law_c_code_is_kept(out.push(code[0]), code.skip(1), rest);
        assert(s.skip(1) =~= code.skip(1) + rest);
        assert(out.push(code[0]) + code.skip(1) =~= out + code);
    }
}

// ---- Style sheets --------------------------------------------------------

proof fn lemma_css_blanks(out: Seq<char>, blanks: Seq<char>, rest: Seq<char>)
    requires
        all_blank(blanks),
    ensures
        comments::css_stripped(out, blanks + rest) == comments::css_stripped(out + blanks, rest),
    decreases blanks.len(),
{
    if blanks.len() == 0 {
        assert(blanks + rest =~= rest);
        assert(out + blanks =~= out);
    } else {
        let s = blanks + rest;
        assert(blanks[0] == ' ' || blanks[0] == '\t');
        lemma_blanks_behind(blanks);
        lemma_css_blanks(out.push(blanks[0]), blanks.skip(1), rest);
        assert(s.skip(1) =~= blanks.skip(1) + rest);
        assert(out.push(blanks[0]) + blanks.skip(1) =~= out + blanks);
    }
}

/// A comment of a style sheet leaves no trace: with the blanks before it and a
/// line end right behind it, it is as if it were not there.
pub proof fn law_css_comment_leaves_no_trace(
    out: Seq<char>,
    blanks: Seq<char>,
    comment: Seq<char>,
    rest: Seq<char>,
)
    requires
        ends_solid(out),
        all_blank(blanks),
        ends_first_with(comment, seq!['*', '/']),
    ensures
        comments::css_stripped(out, blanks + (seq!['/', '*'] + comment + seq!['*', '/'] + rest))
            == comments::css_stripped(out, behind_line_end(rest)),
{
    let close = seq!['*', '/'];
    lemma_ends_first(comment, close);
    assert(rest.skip(0) =~= rest);
    let s = seq!['/', '*'] + comment + close + rest;
    lemma_css_blanks(out, blanks, s);
    lemma_find_stays(comment + close, close, rest);
    assert(s.skip(2) =~= comment + close + rest);
    let end = comment.len() + 4;
    assert(s.skip(end as int) =~= rest);
    lemma_blanks_trimmed(out, blanks);
    lemma_trimming(out);
}

/// A string literal of a style sheet is kept whole, whatever it holds, and the
/// scan goes on behind it.
pub proof fn law_css_string_literal_is_kept(
    out: Seq<char>,
    quote: char,
    inside: Seq<char>,
    rest: Seq<char>,
)
    requires
        is_c_mark(quote),
        closes(inside, quote),
    ensures
        comments::css_stripped(out, seq![quote] + inside + rest) == comments::css_stripped(
            out + seq![quote] + inside,
            rest,
        ),
{
    let s = seq![quote] + inside + rest;
    lemma_closed_literal(inside, quote, rest);
    assert(s.skip(1) =~= inside + rest);
    let n = (1 + inside.len()) as int;
    assert(comments::literal_len(s) == n);
    assert(s.take(n) =~= seq![quote] + inside);
    assert(s.skip(n) =~= rest);
    assert(out + s.take(n) =~= out + seq![quote] + inside);
}

/// Outside its string literals the text holds no `/*`.
pub open spec fn is_css_code(s: Seq<char>) -> bool
    decreases s.len(),
{
    if s.len() == 0 {
        true
    } else if comments::is_c_quote(s[0]) {
        proof {
            comments::lemma_literal_rest(s.skip(1), s[0]);
        }
        is_css_code(s.skip(comments::literal_len(s) as int))
    } else {
        !(s[0] == '/' && s.len() > 1 && s[1] == '*') && is_css_code(s.skip(1))
    }
}

/// A style sheet without comments is not changed.
pub proof fn law_css_code_is_unchanged(out: Seq<char>, s: Seq<char>)
    requires
        is_css_code(s),
    ensures
        comments::css_stripped(out, s) == out + s,
    decreases s.len(),
{
    if s.len() == 0 {
        assert(out + s =~= out);
    } else if comments::is_c_quote(s[0]) {
        comments::lemma_literal_rest(s.skip(1), s[0]);
        let n = comments::literal_len(s) as int;
        law_css_code_is_unchanged(out + s.take(n), s.skip(n));
        assert(out + s.take(n) + s.skip(n) =~= out + s);
    } else {
        law_css_code_is_unchanged(out.push(s[0]), s.skip(1));
        assert(out.push(s[0]) + s.skip(1) =~= out + s);
    }
}

// ---- Hash comments -------------------------------------------------------

proof fn lemma_hash_blanks(out: Seq<char>, blanks: Seq<char>, rest: Seq<char>)
    requires
        all_blank(blanks),
    ensures
        comments::hash_stripped(out, blanks + rest) == comments::hash_stripped(out + blanks, rest),
    decreases blanks.len(),
{
    if blanks.len() == 0 {
        assert(blanks + rest =~= rest);
        assert(out + blanks =~= out);
    } else {
        let s = blanks + rest;
        assert(blanks[0] == ' ' || blanks[0] == '\t');
        lemma_blanks_behind(blanks);
        lemma_hash_blanks(out.push(blanks[0]), blanks.skip(1), rest);
        assert(s.skip(1) =~= blanks.skip(1) + rest);
        assert(out.push(blanks[0]) + blanks.skip(1) =~= out + blanks);
    }
}

/// A `#` comment leaves no trace: with the blanks before it, it is as if it were
/// not there, and the line break behind it stays.
pub proof fn law_hash_comment_leaves_no_trace(
    out: Seq<char>,
    blanks: Seq<char>,
    comment: Seq<char>,
    rest: Seq<char>,
)
    requires
        ends_solid(out),
        all_blank(blanks),
        !comment.contains('\n'),
        at_line_end(rest),
    ensures
        comments::hash_stripped(out, blanks + (seq!['#'] + comment + rest))
            == comments::hash_stripped(out, rest),
{
    let s = seq!['#'] + comment + rest;
    lemma_hash_blanks(out, blanks, s);
    lemma_line_comment_len(seq!['#'], comment, rest);
    assert(s.skip(1 + comment.len() as int) =~= rest);
    lemma_blanks_trimmed(out, blanks);
    lemma_trimming(out);
}

proof fn lemma_hash_keeps_start(out: Seq<char>, s: Seq<char>)
    ensures
        comments::without_trailing_blanks(out).is_prefix_of(comments::hash_stripped(out, s)),
    decreases s.len(),
{
    let kept = comments::without_trailing_blanks(out);
    lemma_trimming(out);
    if s.len() == 0 {
    } else if comments::is_hash_quote(s[0]) {
        comments::lemma_literal_rest(s.skip(1), s[0]);
        let n = comments::literal_len(s) as int;
        lemma_hash_keeps_start(out + s.take(n), s.skip(n));
        lemma_trimmed_start(out, s.take(n));
        lemma_prefix(
            kept,
            comments::without_trailing_blanks(out + s.take(n)),
            comments::hash_stripped(out, s),
        );
    } else if s[0] == '#' {
        comments::lemma_line_comment(s);
        lemma_hash_keeps_start(kept, s.skip(text::position(s, '\n') as int));
        lemma_trimming(kept);
    } else {
        lemma_hash_keeps_start(out.push(s[0]), s.skip(1));
        assert(out.push(s[0]) =~= out + seq![s[0]]);
        lemma_trimmed_start(out, seq![s[0]]);
        lemma_prefix(
            kept,
            comments::without_trailing_blanks(out.push(s[0])),
            comments::hash_stripped(out, s),
        );
    }
}

/// A string literal comes through whole, whatever it holds.
pub proof fn law_hash_string_literal_is_kept(
    out: Seq<char>,
    quote: char,
    inside: Seq<char>,
    rest: Seq<char>,
)
    requires
        is_hash_mark(quote),
        closes(inside, quote),
    ensures
        comments::hash_stripped(out, seq![quote] + inside + rest) == comments::hash_stripped(
            out + seq![quote] + inside,
            rest,
        ),
        (out + seq![quote] + inside).is_prefix_of(
            comments::hash_stripped(out, seq![quote] + inside + rest),
        ),
{
    let s = seq![quote] + inside + rest;
    lemma_closed_literal(inside, quote, rest);
    assert(s.skip(1) =~= inside + rest);
    let n = (1 + inside.len()) as int;
    assert(comments::literal_len(s) == n);
    assert(s.take(n) =~= seq![quote] + inside);
    assert(s.skip(n) =~= rest);
    let kept = out + seq![quote] + inside;
    assert(out + s.take(n) =~= kept);
    assert(kept.last() == quote);
    lemma_hash_keeps_start(kept, rest);
    lemma_trimming(kept);
}

/// Outside its string literals the text holds no `#`.
pub open spec fn is_hash_code(s: Seq<char>) -> bool
    decreases s.len(),
{
    if s.len() == 0 {
        true
    } else if comments::is_hash_quote(s[0]) {
        proof {
            comments::lemma_literal_rest(s.skip(1), s[0]);
        }
        is_hash_code(s.skip(comments::literal_len(s) as int))
    } else {
        s[0] != '#' && is_hash_code(s.skip(1))
    }
}

/// The text holds no `#` outside its string literals, which are all closed.
pub open spec fn is_whole_hash_code(s: Seq<char>) -> bool
    decreases s.len(),
{
    if s.len() == 0 {
        true
    } else if comments::is_hash_quote(s[0]) {
        proof {
            comments::lemma_literal_rest(s.skip(1), s[0]);
        }
        let n = comments::literal_len(s) as int;
        closes(s.subrange(1, n), s[0]) && is_whole_hash_code(s.skip(n))
    } else {
        s[0] != '#' && is_whole_hash_code(s.skip(1))
    }
}

/// Code is kept as it is, whatever follows it.
pub proof fn law_hash_code_is_kept(out: Seq<char>, code: Seq<char>, rest: Seq<char>)
    requires
        is_whole_hash_code(code),
    ensures
        comments::hash_stripped(out, code + rest) == comments::hash_stripped(out + code, rest),
    decreases code.len(),
{
    let s = code + rest;
    if code.len() == 0 {
        assert(s =~= rest);
        assert(out + code =~= out);
    } else if comments::is_hash_quote(code[0]) {
        comments::lemma_literal_rest(code.skip(1), code[0]);
        let n = comments::literal_len(code) as int;
        let inside = code.subrange(1, n);
        let others = code.skip(n);
        law_hash_string_literal_is_kept(out, code[0], inside, others + rest);
        assert(seq![code[0]] + inside + (others + rest) =~= s);
        law_hash_code_is_kept(out + seq![code[0]] + inside, others, rest);
        assert(out + seq![code[0]] + inside + others =~= out + code);
    } else {
        law_hash_code_is_kept(out.push(code[0]), code.skip(1), rest);
        assert(s.skip(1) =~= code.skip(1) + rest);
        assert(out.push(code[0]) + code.skip(1) =~= out + code);
    }
}

/// Text without `#` comments is not changed.
pub proof fn law_hash_code_is_unchanged(out: Seq<char>, s: Seq<char>)
    requires
        is_hash_code(s),
    ensures
        comments::hash_stripped(out, s) == out + s,
    decreases s.len(),
{
    if s.len() == 0 {
        assert(out + s =~= out);
    } else if comments::is_hash_quote(s[0]) {
        comments::lemma_literal_rest(s.skip(1), s[0]);
        let n = comments::literal_len(s) as int;
        law_hash_code_is_unchanged(out + s.take(n), s.skip(n));
        assert(out + s.take(n) + s.skip(n) =~= out + s);
    } else {
        law_hash_code_is_unchanged(out.push(s[0]), s.skip(1));
        assert(out.push(s[0]) + s.skip(1) =~= out + s);
    }
}

// ---- Block comments alone ------------------------------------------------

/// A block comment leaves no trace: with the blanks before it and a line end
/// right behind it, it is as if it were not there. `kept` and `blanks` are what
/// was kept up to the comment.
pub proof fn law_block_comment_leaves_no_trace(
    out: Seq<char>,
    before: Seq<char>,
    kept: Seq<char>,
    blanks: Seq<char>,
    comment: Seq<char>,
    rest: Seq<char>,
    open: Seq<char>,
    close: Seq<char>,
)
    requires
        open.len() > 0,
        out + before == kept + blanks,
        ends_solid(kept),
        all_blank(blanks),
        ends_first_with(before, open),
        ends_first_with(comment, close),
    ensures
        comments::block_stripped(out, before + open + (comment + close + rest), open, close)
            == comments::block_stripped(kept, behind_line_end(rest), open, close),
{
    let body = comment + close + rest;
    let s = before + open + body;
    lemma_ends_first(before, open);
    lemma_ends_first(comment, close);
    lemma_find_stays(before + open, open, body);
    lemma_find_stays(comment + close, close, rest);
    assert(s.take(before.len() as int) =~= before);
    assert(s.skip(before.len() + open.len() as int) =~= body);
    assert(body.skip(comment.len() + close.len() as int) =~= rest);
    lemma_blanks_trimmed(kept, blanks);
    lemma_trimming(kept);
    assert(rest.skip(0) =~= rest);
}

/// A block comment without an end goes on to the end of the text.
pub proof fn law_open_block_comment_takes_the_rest(
    out: Seq<char>,
    before: Seq<char>,
    kept: Seq<char>,
    blanks: Seq<char>,
    comment: Seq<char>,
    open: Seq<char>,
    close: Seq<char>,
)
    requires
        open.len() > 0,
        out + before == kept + blanks,
        ends_solid(kept),
        all_blank(blanks),
        ends_first_with(before, open),
        holds_no(comment, close),
    ensures
        comments::block_stripped(out, before + open + comment, open, close) == kept,
{
    let s = before + open + comment;
    lemma_ends_first(before, open);
    lemma_find_stays(before + open, open, comment);
    assert(s.take(before.len() as int) =~= before);
    assert(s.skip(before.len() + open.len() as int) =~= comment);
    law_search_gives_the_first_place(comment, close, 0);
    lemma_blanks_trimmed(kept, blanks);
    lemma_trimming(kept);
}

/// Text without the opening mark is not changed.
pub proof fn law_text_without_opening_mark_is_unchanged(
    out: Seq<char>,
    s: Seq<char>,
    open: Seq<char>,
    close: Seq<char>,
)
    requires
        open.len() > 0,
        holds_no(s, open),
    ensures
        comments::block_stripped(out, s, open, close) == out + s,
{
    law_search_gives_the_first_place(s, open, 0);
}

// ---- Every text ----------------------------------------------------------

/// The rest of a string literal that is never closed.
pub open spec fn stays_open(s: Seq<char>, quote: char) -> bool
    decreases s.len(),
{
    if s.len() == 0 {
        true
    } else if s[0] == '\\' && s.len() > 1 {
        stays_open(s.skip(2), quote)
    } else {
        s[0] != quote && stays_open(s.skip(1), quote)
    }
}

proof fn lemma_open_literal(s: Seq<char>, quote: char)
    requires
        stays_open(s, quote),
    ensures
        comments::literal_rest(s, quote) == s.len(),
    decreases s.len(),
{
    if s.len() > 0 {
        if s[0] == '\\' && s.len() > 1 {
            lemma_open_literal(s.skip(2), quote);
        } else {
            lemma_open_literal(s.skip(1), quote);
        }
    }
}

/// A character outside of literals and comments is kept, and nothing is left of
/// the text at its end: in the C family any character but a quote and a `/` before
/// `/` or `*`.
pub proof fn law_c_character_is_kept(out: Seq<char>, c: char, rest: Seq<char>)
    requires
        !is_c_mark(c),
        c == '/' ==> rest.len() == 0 || rest[0] != '/' && rest[0] != '*',
    ensures
        comments::c_stripped(out, seq![c] + rest) == comments::c_stripped(out.push(c), rest),
        comments::c_stripped(out, seq![]) == out,
{
    let s = seq![c] + rest;
    assert(s.skip(1) =~= rest);
    if rest.len() > 0 {
        assert(s[1] == rest[0]);
    }
}

/// A string literal or a block comment without an end goes on to the end of the
/// text; the literal is kept, the comment is not.
pub proof fn law_c_open_end(out: Seq<char>, blanks: Seq<char>, quote: char, s: Seq<char>)
    requires
        ends_solid(out),
        all_blank(blanks),
        is_c_mark(quote),
    ensures
        stays_open(s, quote) ==> comments::c_stripped(out, seq![quote] + s) == out + seq![quote]
            + s,
        holds_no(s, seq!['*', '/']) ==> comments::c_stripped(
            out,
            blanks + (seq!['/', '*'] + s),
        ) == out,
{
    if stays_open(s, quote) {
        let t = seq![quote] + s;
        lemma_open_literal(s, quote);
        assert(t.skip(1) =~= s);
        assert(t.take(t.len() as int) =~= t);
        assert(t.skip(t.len() as int) =~= seq![]);
        assert(out + t =~= out + seq![quote] + s);
        assert(comments::c_stripped(out + t, seq![]) == out + t);
    }
    if holds_no(s, seq!['*', '/']) {
        let t = seq!['/', '*'] + s;
        lemma_c_blanks(out, blanks, t);
        law_search_gives_the_first_place(s, seq!['*', '/'], 0);
        assert(t.skip(2) =~= s);
        assert(t.skip(t.len() as int) =~= seq![]);
        assert(seq![].skip(0) =~= Seq::<char>::empty());
        lemma_blanks_trimmed(out, blanks);
        lemma_trimming(out);
        assert(comments::c_stripped(out, seq![]) == out);
        assert(comments::c_stripped(out + blanks, t) == out);
    }
}

/// A character of a style sheet outside of literals and comments is kept: any but
/// a quote and a `/` before `*`.
pub proof fn law_css_character_is_kept(out: Seq<char>, c: char, rest: Seq<char>)
    requires
        !is_c_mark(c),
        c == '/' ==> rest.len() == 0 || rest[0] != '*',
    ensures
        comments::css_stripped(out, seq![c] + rest) == comments::css_stripped(out.push(c), rest),
        comments::css_stripped(out, seq![]) == out,
{
    let s = seq![c] + rest;
    assert(s.skip(1) =~= rest);
    if rest.len() > 0 {
        assert(s[1] == rest[0]);
    }
}

/// A string literal or a comment of a style sheet without an end goes on to the end
/// of the text; the literal is kept, the comment is not.
pub proof fn law_css_open_end(out: Seq<char>, blanks: Seq<char>, quote: char, s: Seq<char>)
    requires
        ends_solid(out),
        all_blank(blanks),
        is_c_mark(quote),
    ensures
        stays_open(s, quote) ==> comments::css_stripped(out, seq![quote] + s) == out + seq![quote]
            + s,
        holds_no(s, seq!['*', '/']) ==> comments::css_stripped(
            out,
            blanks + (seq!['/', '*'] + s),
        ) == out,
{
    if stays_open(s, quote) {
        let t = seq![quote] + s;
        lemma_open_literal(s, quote);
        assert(t.skip(1) =~= s);
        assert(t.take(t.len() as int) =~= t);
        assert(t.skip(t.len() as int) =~= seq![]);
        assert(out + t =~= out + seq![quote] + s);
        assert(comments::css_stripped(out + t, seq![]) == out + t);
    }
    if holds_no(s, seq!['*', '/']) {
        let t = seq!['/', '*'] + s;
        lemma_css_blanks(out, blanks, t);
        law_search_gives_the_first_place(s, seq!['*', '/'], 0);
        assert(t.skip(2) =~= s);
        assert(t.skip(t.len() as int) =~= seq![]);
        assert(seq![].skip(0) =~= Seq::<char>::empty());
        lemma_blanks_trimmed(out, blanks);
        lemma_trimming(out);
        assert(comments::css_stripped(out, seq![]) == out);
        assert(comments::css_stripped(out + blanks, t) == out);
    }
}

/// A character outside of literals is kept where `#` starts a comment: any but a
/// quote and a `#`. A string literal without an end goes on to the end of the text.
pub proof fn law_hash_character_is_kept(out: Seq<char>, c: char, rest: Seq<char>)
    ensures
        !is_hash_mark(c) && c != '#' ==> comments::hash_stripped(out, seq![c] + rest)
            == comments::hash_stripped(out.push(c), rest),
        is_hash_mark(c) && stays_open(rest, c) ==> comments::hash_stripped(out, seq![c] + rest)
            == out + seq![c] + rest,
        comments::hash_stripped(out, seq![]) == out,
{
    let s = seq![c] + rest;
    assert(s.skip(1) =~= rest);
    if is_hash_mark(c) && stays_open(rest, c) {
        lemma_open_literal(rest, c);
        assert(s.take(s.len() as int) =~= s);
        assert(s.skip(s.len() as int) =~= seq![]);
        assert(out + s =~= out + seq![c] + rest);
        assert(comments::hash_stripped(out + s, seq![]) == out + s);
    }
}

/// Each style has its own comments: those of the C family, those of style sheets,
/// `#` comments, and `<!-- -->`.
pub proof fn law_styles_have_their_comments(s: Seq<char>)
    ensures
        comments::uncommented(s, CommentStyle::CLike) == comments::c_stripped(seq![], s),
        comments::uncommented(s, CommentStyle::CssBlock) == comments::css_stripped(seq![], s),
        comments::uncommented(s, CommentStyle::Hash) == comments::hash_stripped(seq![], s),
        comments::uncommented(s, CommentStyle::HtmlBlock) == comments::block_stripped(
            seq![],
            s,
            seq!['<', '!', '-', '-'],
            seq!['-', '-', '>'],
        ),
{
    reveal_strlit("<!--");
    reveal_strlit("-->");
    assert("<!--"@ =~= seq!['<', '!', '-', '-']);
    assert("-->"@ =~= seq!['-', '-', '>']);
}

// ---- Styles --------------------------------------------------------------

/// The style that goes with an extension in lower case.
pub open spec fn style_table(ext: Seq<char>) -> CommentStyle {
    if ext == seq!['j', 's'] || ext == seq!['j', 's', 'x'] || ext == seq!['t', 's'] || ext
        == seq!['t', 's', 'x'] || ext == seq!['r', 's'] || ext == seq!['c'] || ext == seq!['h']
        || ext == seq!['c', 'p', 'p'] || ext == seq!['h', 'p', 'p'] || ext
        == seq!['j', 'a', 'v', 'a'] || ext == seq!['g', 'o'] || ext == seq!['k', 't'] || ext
        == seq!['s', 'w', 'i', 'f', 't'] || ext == seq!['c', 's'] {
        CommentStyle::CLike
    } else if ext == seq!['c', 's', 's'] || ext == seq!['s', 'c', 's', 's'] || ext
        == seq!['l', 'e', 's', 's'] {
        CommentStyle::CssBlock
    } else if ext == seq!['p', 'y'] || ext == seq!['s', 'h'] || ext == seq!['b', 'a', 's', 'h']
        || ext == seq!['r', 'b'] || ext == seq!['y', 'a', 'm', 'l'] || ext == seq!['y', 'm', 'l']
        || ext == seq!['t', 'o', 'm', 'l'] {
        CommentStyle::Hash
    } else if ext == seq!['h', 't', 'm', 'l'] || ext == seq!['h', 't', 'm'] || ext
        == seq!['x', 'm', 'l'] || ext == seq!['s', 'v', 'g'] {
        CommentStyle::HtmlBlock
    } else {
        CommentStyle::Unknown
    }
}

/// The style of a file goes by what stands behind the last dot of its path, in any
/// case, and by nothing before it. A path without a dot has no style.
pub proof fn law_style_goes_by_the_extension(stem: Seq<char>, ext: Seq<char>)
    requires
        !ext.contains('.'),
    ensures
        comments::style_of_path(stem + seq!['.'] + ext) == style_table(text::lowercase(ext)),
        comments::style_of_extension(ext) == style_table(ext),
        comments::style_of_path(ext) == CommentStyle::Unknown,
{
    let path = stem + seq!['.'] + ext;
    assert(path[stem.len() as int] == '.');
    lemma_behind_last_dot(stem, ext);
    lemma_style_table(text::lowercase(ext));
    lemma_style_table(ext);
    let none = Seq::<char>::empty();
    assert(text::lowercase(none) =~= none);
    lemma_style_table(none);
    assert(style_table(none) == CommentStyle::Unknown) by {
        assert(none.len() == 0);
    }
}

proof fn lemma_behind_last_dot(stem: Seq<char>, ext: Seq<char>)
    requires
        !ext.contains('.'),
    ensures
        comments::behind_last_dot(stem + seq!['.'] + ext) == ext,
    decreases ext.len(),
{
    let path = stem + seq!['.'] + ext;
    if ext.len() == 0 {
        assert(path.last() == '.');
        assert(comments::behind_last_dot(path) =~= ext);
    } else {
        assert(path.drop_last() =~= stem + seq!['.'] + ext.drop_last());
        assert(ext.contains(ext.last()));
        assert(!ext.drop_last().contains('.')) by {
            if ext.drop_last().contains('.') {
                let i = choose|i: int| 0 <= i < ext.drop_last().len() && ext.drop_last()[i] == '.';
                assert(ext[i] == '.');
            }
        }
        lemma_behind_last_dot(stem, ext.drop_last());
        assert(ext.drop_last().push(ext.last()) =~= ext);
    }
}

proof fn lemma_style_table(ext: Seq<char>)
    ensures
        comments::style_of_extension(ext) == style_table(ext),
{
    reveal_strlit("js");
    reveal_strlit("jsx");
    reveal_strlit("ts");
    reveal_strlit("tsx");
    reveal_strlit("rs");
    reveal_strlit("c");
    reveal_strlit("h");
    reveal_strlit("cpp");
    reveal_strlit("hpp");
    reveal_strlit("java");
    reveal_strlit("go");
    reveal_strlit("kt");
    reveal_strlit("swift");
    reveal_strlit("cs");
    reveal_strlit("css");
    reveal_strlit("scss");
    reveal_strlit("less");
    reveal_strlit("py");
    reveal_strlit("sh");
    reveal_strlit("bash");
    reveal_strlit("rb");
    reveal_strlit("yaml");
    reveal_strlit("yml");
    reveal_strlit("toml");
    reveal_strlit("html");
    reveal_strlit("htm");
    reveal_strlit("xml");
    reveal_strlit("svg");
    assert("js"@ =~= seq!['j', 's']);
    assert("jsx"@ =~= seq!['j', 's', 'x']);
    assert("ts"@ =~= seq!['t', 's']);
    assert("tsx"@ =~= seq!['t', 's', 'x']);
    assert("rs"@ =~= seq!['r', 's']);
    assert("c"@ =~= seq!['c']);
    assert("h"@ =~= seq!['h']);
    assert("cpp"@ =~= seq!['c', 'p', 'p']);
    assert("hpp"@ =~= seq!['h', 'p', 'p']);
    assert("java"@ =~= seq!['j', 'a', 'v', 'a']);
    assert("go"@ =~= seq!['g', 'o']);
    assert("kt"@ =~= seq!['k', 't']);
    assert("swift"@ =~= seq!['s', 'w', 'i', 'f', 't']);
    assert("cs"@ =~= seq!['c', 's']);
    assert("css"@ =~= seq!['c', 's', 's']);
    assert("scss"@ =~= seq!['s', 'c', 's', 's']);
    assert("less"@ =~= seq!['l', 'e', 's', 's']);
    assert("py"@ =~= seq!['p', 'y']);
    assert("sh"@ =~= seq!['s', 'h']);
    assert("bash"@ =~= seq!['b', 'a', 's', 'h']);
    assert("rb"@ =~= seq!['r', 'b']);
    assert("yaml"@ =~= seq!['y', 'a', 'm', 'l']);
    assert("yml"@ =~= seq!['y', 'm', 'l']);
    assert("toml"@ =~= seq!['t', 'o', 'm', 'l']);
    assert("html"@ =~= seq!['h', 't', 'm', 'l']);
    assert("htm"@ =~= seq!['h', 't', 'm']);
    assert("xml"@ =~= seq!['x', 'm', 'l']);
    assert("svg"@ =~= seq!['s', 'v', 'g']);
}

/// A file of unknown style keeps its comments.
pub proof fn law_unknown_style_is_unchanged(s: Seq<char>)
    ensures
        comments::uncommented(s, CommentStyle::Unknown) == s,
{
}

} // verus!
