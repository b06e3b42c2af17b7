//! Normal forms of source text: without comments, and with white space evened
//! out. The two are independent of each other, so that a difference between
//! two texts can be put down to the one or to the other.

use crate::text;
use crate::text::{chars_of, find_char, matches_at, text_is, text_of_range};
use vstd::prelude::*;

verus! {

// ---- Comment styles ------------------------------------------------------

/// How the comments of a language are written.
#[derive(Debug, Clone, Copy, PartialEq, Eq, Structural)]
pub enum CommentStyle {
    /// `//` to the end of the line, and `/* */`.
    CLike,
    /// `/* */` alone.
    CssBlock,
    /// `#` to the end of the line.
    Hash,
    /// `<!-- -->`.
    HtmlBlock,
    /// Not known: no comments are removed.
    Unknown,
}

/// The text behind the last dot, or the whole text where there is no dot.
pub open spec fn behind_last_dot(path: Seq<char>) -> Seq<char>
    decreases path.len(),
{
    if path.len() == 0 || path.last() == '.' {
        seq![]
    } else {
        behind_last_dot(path.drop_last()).push(path.last())
    }
}

/// The extension of a file name: the text behind its last dot. A name without a
/// dot has none.
pub open spec fn extension(path: Seq<char>) -> Seq<char> {
    if path.contains('.') {
        behind_last_dot(path)
    } else {
        seq![]
    }
}

/// The comment style that goes with a file name extension in lower case.
pub open spec fn style_of_extension(ext: Seq<char>) -> CommentStyle {
    if ext == "js"@ || ext == "jsx"@ || ext == "ts"@ || ext == "tsx"@ || ext == "rs"@ || ext
        == "c"@ || ext == "h"@ || ext == "cpp"@ || ext == "hpp"@ || ext == "java"@ || ext == "go"@
        || ext == "kt"@ || ext == "swift"@ || ext == "cs"@ {
        CommentStyle::CLike
    } else if ext == "css"@ || ext == "scss"@ || ext == "less"@ {
        CommentStyle::CssBlock
    } else if ext == "py"@ || ext == "sh"@ || ext == "bash"@ || ext == "rb"@ || ext == "yaml"@
        || ext == "yml"@ || ext == "toml"@ {
        CommentStyle::Hash
    } else if ext == "html"@ || ext == "htm"@ || ext == "xml"@ || ext == "svg"@ {
        CommentStyle::HtmlBlock
    } else {
        CommentStyle::Unknown
    }
}

/// The comment style of a file, by its extension in any case.
pub open spec fn style_of_path(path: Seq<char>) -> CommentStyle {
    style_of_extension(text::lowercase(extension(path)))
}

/// The comment style for an extension in lower case.
pub fn comment_style_for_extension(ext: &String) -> (style: CommentStyle)
    ensures
        style == style_of_extension(ext@),
{
    if text_is(ext, "js") || text_is(ext, "jsx") || text_is(ext, "ts") || text_is(ext, "tsx")
        || text_is(ext, "rs") || text_is(ext, "c") || text_is(ext, "h") || text_is(ext, "cpp")
        || text_is(ext, "hpp") || text_is(ext, "java") || text_is(ext, "go") || text_is(ext, "kt")
        || text_is(ext, "swift") || text_is(ext, "cs") {
        CommentStyle::CLike
    } else if text_is(ext, "css") || text_is(ext, "scss") || text_is(ext, "less") {
        CommentStyle::CssBlock
    } else if text_is(ext, "py") || text_is(ext, "sh") || text_is(ext, "bash") || text_is(ext, "rb")
        || text_is(ext, "yaml") || text_is(ext, "yml") || text_is(ext, "toml") {
        CommentStyle::Hash
    } else if text_is(ext, "html") || text_is(ext, "htm") || text_is(ext, "xml") || text_is(
        ext,
        "svg",
    ) {
        CommentStyle::HtmlBlock
    } else {
        CommentStyle::Unknown
    }
}

/// The comment style for a file.
pub fn comment_style_for(path: &str) -> (style: CommentStyle)
    ensures
        style == style_of_path(path@),
{
    let chars = chars_of(path);
    let mut start: usize = chars.len();
    assert(chars@.take(chars@.len() as int) =~= chars@);
    assert(behind_last_dot(path@) =~= behind_last_dot(chars@.take(start as int)) + chars@.skip(
        start as int,
    ));
    while start > 0 && chars[start - 1] != '.'
        invariant
            chars@ == path@,
            start <= chars@.len(),
            forall|k: int| start <= k < chars@.len() ==> chars@[k] != '.',
            behind_last_dot(path@) == behind_last_dot(chars@.take(start as int)) + chars@.skip(
                start as int,
            ),
        decreases start,
    {
        let ghost head = chars@.take(start as int);
        start = start - 1;
        proof {
            assert(head.drop_last() =~= chars@.take(start as int));
            assert(behind_last_dot(head) + chars@.skip(start + 1) =~= behind_last_dot(
                chars@.take(start as int),
            ) + chars@.skip(start as int));
        }
    }
    if start == 0 {
        start = chars.len();
        assert(chars@.skip(start as int) =~= seq![]);
    } else {
        assert(path@[start - 1] == '.');
        assert(behind_last_dot(chars@.take(start as int)) =~= seq![]);
    }
    let ext = text_of_range(&chars, start, chars.len());
    assert(ext@ =~= extension(path@));
    let lower = ext.as_str().to_lowercase();
    comment_style_for_extension(&lower)
}

// ---- White space ---------------------------------------------------------

/// The words of a text, a single space between them: every run of white space
/// is one space, and none is left at the ends.
pub open spec fn evened(s: Seq<char>) -> Seq<char>
    decreases s.len(),
{
    if s.len() == 0 {
        seq![]
    } else {
        let before = evened(s.drop_last());
        if text::is_space(s.last()) {
            before
        } else if before.len() > 0 && text::is_space(s[s.len() - 2]) {
            before.push(' ').push(s.last())
        } else {
            before.push(s.last())
        }
    }
}

/// Collapses every run of white space to one space and trims the ends. Comments
/// are not touched.
pub fn strip_whitespace(content: &str) -> (out: String)
    ensures
        out@ == evened(content@),
{
    let mut out = String::new();
    let mut empty = true;
    let mut gap = false;
    let chars = chars_of(content);
    for i in 0..chars.len()
        invariant
            chars@ == content@,
            out@ == evened(chars@.take(i as int)),
            empty == (out@.len() == 0),
            gap == (i > 0 && text::is_space(chars@[i - 1])),
    {
        let c = chars[i];
        proof {
            assert(chars@.take(i + 1).drop_last() =~= chars@.take(i as int));
        }
        if c.is_whitespace() {
            gap = true;
        } else {
            if gap && !empty {
                out.push(' ');
            }
            out.push(c);
            empty = false;
            gap = false;
        }
    }
    assert(chars@.take(chars@.len() as int) =~= chars@);
    out
}

// ---- Pieces of a scan ----------------------------------------------------

/// A space or a tab.
pub open spec fn is_blank(c: char) -> bool {
    c == ' ' || c == '\t'
}

/// The text without the spaces and tabs at its end.
pub open spec fn without_trailing_blanks(s: Seq<char>) -> Seq<char>
    decreases s.len(),
{
    if s.len() > 0 && is_blank(s.last()) {
        without_trailing_blanks(s.drop_last())
    } else {
        s
    }
}

/// Drops the spaces and tabs at the end.
fn drop_trailing_blanks(out: &mut Vec<char>)
    ensures
        final(out)@ == without_trailing_blanks(old(out)@),
{
    let ghost all = out@;
    while out.len() > 0 && (out[out.len() - 1] == ' ' || out[out.len() - 1] == '\t')
        invariant
            without_trailing_blanks(out@) == without_trailing_blanks(all),
        decreases out@.len(),
    {
        let ghost before = out@;
        out.pop();
        assert(out@ =~= before.drop_last());
    }
}

/// Appends `chars[from..to]`.
fn push_range(out: &mut Vec<char>, chars: &Vec<char>, from: usize, to: usize)
    requires
        from <= to <= chars@.len(),
    ensures
        final(out)@ == old(out)@ + chars@.subrange(from as int, to as int),
{
    let ghost before = out@;
    assert(out@ =~= before + chars@.subrange(from as int, from as int));
    for i in from..to
        invariant
            from <= to <= chars@.len(),
            out@ == before + chars@.subrange(from as int, i as int),
    {
        out.push(chars[i]);
        assert(out@ =~= before + chars@.subrange(from as int, i + 1));
    }
}

/// Where `part` first occurs in `s`.
pub open spec fn find(s: Seq<char>, part: Seq<char>) -> Option<nat>
    decreases s.len(),
{
    if part.is_prefix_of(s) {
        Some(0)
    } else if s.len() == 0 {
        None
    } else {
        match find(s.skip(1), part) {
            Some(at) => Some(at + 1),
            None => None,
        }
    }
}

/// An occurrence lies within the text.
pub proof fn lemma_find(s: Seq<char>, part: Seq<char>)
    ensures
        find(s, part) matches Some(at) ==> at + part.len() <= s.len() && part.is_prefix_of(
            s.skip(at as int),
        ),
    decreases s.len(),
{
    if part.is_prefix_of(s) {
        assert(s.skip(0) =~= s);
    } else if s.len() > 0 {
        lemma_find(s.skip(1), part);
        match find(s.skip(1), part) {
            Some(at) => {
                assert(s.skip(1).skip(at as int) =~= s.skip(at as int + 1));
            },
            None => {},
        }
    }
}

/// Where `part` first occurs in `chars` at or behind `from`.
fn find_at(chars: &Vec<char>, from: usize, part: &Vec<char>) -> (found: Option<usize>)
    requires
        from <= chars@.len(),
    ensures
        match found {
            Some(at) => from <= at && at + part@.len() <= chars@.len() && find(
                chars@.skip(from as int),
                part@,
            ) == Some((at - from) as nat),
            None => find(chars@.skip(from as int), part@) is None,
        },
{
    let mut at: usize = from;
    let len: usize = chars.len();
    proof {
        lemma_find(chars@.skip(from as int), part@);
    }
    loop
        invariant
            len == chars@.len(),
            from <= at <= len,
            match find(chars@.skip(at as int), part@) {
                Some(k) => find(chars@.skip(from as int), part@) == Some((at - from + k) as nat),
                None => find(chars@.skip(from as int), part@) is None,
            },
        decreases len - at,
    {
        proof {
            lemma_find(chars@.skip(at as int), part@);
        }
        if matches_at(chars, at, part) {
            return Some(at);
        }
        if at == len {
            return None;
        }
        assert(chars@.skip(at as int).skip(1) =~= chars@.skip(at + 1));
        at = at + 1;
    }
}

/// The characters from behind an opening quote up to and with the closing one;
/// a backslash takes the character behind it along. Without a closing quote it
/// is all of them.
pub open spec fn literal_rest(s: Seq<char>, quote: char) -> nat
    decreases s.len(),
{
    if s.len() == 0 {
        0
    } else if s[0] == '\\' && s.len() > 1 {
        2 + literal_rest(s.skip(2), quote)
    } else if s[0] == quote {
        1
    } else {
        1 + literal_rest(s.skip(1), quote)
    }
}

/// The length of the string literal that the text starts with.
pub open spec fn literal_len(s: Seq<char>) -> nat {
    1 + literal_rest(s.skip(1), s[0])
}

/// A literal lies within the text.
pub proof fn lemma_literal_rest(s: Seq<char>, quote: char)
    ensures
        literal_rest(s, quote) <= s.len(),
    decreases s.len(),
{
    if s.len() > 0 {
        if s[0] == '\\' && s.len() > 1 {
            lemma_literal_rest(s.skip(2), quote);
        } else if s[0] != quote {
            lemma_literal_rest(s.skip(1), quote);
        }
    }
}

/// The position behind the string literal that starts at `at`.
fn end_of_literal(chars: &Vec<char>, at: usize) -> (end: usize)
    requires
        at < chars@.len(),
    ensures
        at < end <= chars@.len(),
        end - at == literal_len(chars@.skip(at as int)),
{
    let quote = chars[at];
    let len: usize = chars.len();
    let mut i: usize = at + 1;
    assert(chars@.skip(at as int).skip(1) =~= chars@.skip(at + 1));
    while i < len
        invariant
            len == chars@.len(),
            at < i <= len,
            quote == chars@[at as int],
            literal_len(chars@.skip(at as int)) == (i - at) + literal_rest(
                chars@.skip(i as int),
                quote,
            ),
        decreases len - i,
    {
        let c = chars[i];
        if c == '\\' && i + 1 < len {
            assert(chars@.skip(i as int).skip(2) =~= chars@.skip(i + 2));
            i = i + 2;
        } else if c == quote {
            return i + 1;
        } else {
            assert(chars@.skip(i as int).skip(1) =~= chars@.skip(i + 1));
            i = i + 1;
        }
    }
    i
}

// ---- Block comments alone ------------------------------------------------

/// How much of a line end follows a removed block comment.
pub open spec fn line_end_len(s: Seq<char>) -> nat {
    if s.len() > 0 && s[0] == '\n' {
        1
    } else if s.len() > 1 && s[0] == '\r' && s[1] == '\n' {
        2
    } else {
        0
    }
}

/// `out` and then `s` without its block comments. With a comment go the blanks
/// before it and a line end right behind it, so that a comment on a line of its
/// own leaves no trace. A comment without an end goes on to the end of the text.
pub open spec fn block_stripped(
    out: Seq<char>,
    s: Seq<char>,
    open: Seq<char>,
    close: Seq<char>,
) -> Seq<char>
    decreases s.len(),
    when open.len() > 0
{
    match find(s, open) {
        None => out + s,
        Some(start) => {
            let kept = without_trailing_blanks(out + s.take(start as int));
            let body = s.skip(start + open.len() as int);
            proof {
                lemma_find(s, open);
                lemma_find(body, close);
            }
            match find(body, close) {
                None => kept,
                Some(end) => {
                    let rest = body.skip(end + close.len() as int);
                    block_stripped(kept, rest.skip(line_end_len(rest) as int), open, close)
                },
            }
        },
    }
}

/// Removes block comments.
pub fn strip_block_only(content: &str, open: &str, close: &str) -> (stripped: String)
    requires
        open@.len() > 0,
    ensures
        stripped@ == block_stripped(seq![], content@, open@, close@),
{
    let chars = chars_of(content);
    let opening = chars_of(open);
    let closing = chars_of(close);
    let len: usize = chars.len();
    let mut out: Vec<char> = Vec::new();
    let mut at: usize = 0;
    assert(chars@.skip(0) =~= chars@);
    loop
        invariant
            chars@ == content@,
            opening@ == open@,
            closing@ == close@,
            open@.len() > 0,
            len == chars@.len(),
            at <= len,
            block_stripped(out@, chars@.skip(at as int), open@, close@) == block_stripped(
                seq![],
                content@,
                open@,
                close@,
            ),
        decreases len - at,
    {
        let ghost s = chars@.skip(at as int);
        let ghost before = out@;
        proof {
            lemma_find(s, open@);
        }
        match find_at(&chars, at, &opening) {
            None => {
                push_range(&mut out, &chars, at, len);
                assert(chars@.subrange(at as int, len as int) =~= s);
                return text_of_range(&out, 0, out.len());
            },
            Some(start) => {
                push_range(&mut out, &chars, at, start);
                assert(chars@.subrange(at as int, start as int) =~= s.take(start - at));
                drop_trailing_blanks(&mut out);
                let body_start: usize = start + opening.len();
                let ghost body = s.skip(start - at + open@.len());
                assert(chars@.skip(body_start as int) =~= body);
                proof {
                    lemma_find(body, close@);
                }
                match find_at(&chars, body_start, &closing) {
                    None => {
                        return text_of_range(&out, 0, out.len());
                    },
                    Some(end) => {
                        let next: usize = end + closing.len();
                        let ghost rest = body.skip(end - body_start + close@.len());
                        assert(chars@.skip(next as int) =~= rest);
                        at = skip_line_end(&chars, next);
                        assert(chars@.skip(at as int) =~= rest.skip(line_end_len(rest) as int));
                    },
                }
            },
        }
    }
}

// ---- Line and block comments of the C family -----------------------------

/// A character that starts a string literal in the C family.
pub open spec fn is_c_quote(c: char) -> bool {
    c == '"' || c == '\'' || c == '`'
}

/// The length of the block comment that the text starts with. A comment without
/// an end goes on to the end of the text.
pub open spec fn block_comment_len(s: Seq<char>) -> nat {
    match find(s.skip(2), seq!['*', '/']) {
        None => s.len(),
        Some(at) => at + 4,
    }
}

/// What follows `out` stands at the start of a line.
pub open spec fn at_line_start(out: Seq<char>) -> bool {
    out.len() == 0 || out.last() == '\n'
}

/// What is left of the text behind a block comment: where the comment began its
/// line, a line end right behind it goes too.
pub open spec fn behind_comment(out: Seq<char>, rest: Seq<char>) -> Seq<char> {
    if at_line_start(out) {
        rest.skip(line_end_len(rest) as int)
    } else {
        rest
    }
}

/// `out` and then `s` without its comments. A string literal is kept whole,
/// whatever it holds. With a comment go the blanks before it. A line comment
/// leaves its line break; a block comment that stands alone on its line takes
/// its line end along, so that no blank line is left.
pub open spec fn c_stripped(out: Seq<char>, s: Seq<char>) -> Seq<char>
    decreases s.len(),
{
    if s.len() == 0 {
        out
    } else if is_c_quote(s[0]) {
        proof {
            lemma_literal_rest(s.skip(1), s[0]);
        }
        let n = literal_len(s) as int;
        c_stripped(out + s.take(n), s.skip(n))
    } else if s[0] == '/' && s.len() > 1 && s[1] == '/' {
        proof {
            lemma_line_comment(s);
        }
        c_stripped(without_trailing_blanks(out), s.skip(text::position(s, '\n') as int))
    } else if s[0] == '/' && s.len() > 1 && s[1] == '*' {
        proof {
            lemma_block_comment(s);
        }
        let kept = without_trailing_blanks(out);
        c_stripped(kept, behind_comment(kept, s.skip(block_comment_len(s) as int)))
    } else {
        c_stripped(out.push(s[0]), s.skip(1))
    }
}

/// What does not start with a line break has characters before the first one.
pub proof fn lemma_line_comment(s: Seq<char>)
    requires
        s.len() > 0,
        s[0] != '\n',
    ensures
        0 < text::position(s, '\n') <= s.len(),
{
    text::lemma_position(s, '\n');
}

/// A block comment lies within the text.
pub proof fn lemma_block_comment(s: Seq<char>)
    requires
        s.len() >= 2,
    ensures
        2 <= block_comment_len(s) <= s.len(),
{
    lemma_find(s.skip(2), seq!['*', '/']);
}

/// The position behind the block comment that starts at `at`.
fn end_of_block_comment(chars: &Vec<char>, at: usize) -> (end: usize)
    requires
        at + 2 <= chars@.len(),
    ensures
        at + 2 <= end <= chars@.len(),
        end - at == block_comment_len(chars@.skip(at as int)),
{
    let len: usize = chars.len();
    let ghost s = chars@.skip(at as int);
    assert(s.skip(2) =~= chars@.skip(at + 2));
    let closing = vec!['*', '/'];
    assert(closing@ =~= seq!['*', '/']);
    match find_at(chars, at + 2, &closing) {
        None => len,
        Some(close) => close + 2,
    }
}

/// The position behind the line end at `at`, where there is one.
fn skip_line_end(chars: &Vec<char>, at: usize) -> (end: usize)
    requires
        at <= chars@.len(),
    ensures
        at <= end <= chars@.len(),
        end - at == line_end_len(chars@.skip(at as int)),
{
    let len: usize = chars.len();
    if at < len && chars[at] == '\n' {
        at + 1
    } else if at < len && chars[at] == '\r' && at + 1 < len && chars[at + 1] == '\n' {
        at + 2
    } else {
        at
    }
}

/// Removes `//` and `/* */` comments; string literals in single, double and
/// back quotes are kept.
pub fn strip_c_like(content: &str) -> (stripped: String)
    ensures
        stripped@ == c_stripped(seq![], content@),
{
    let chars = chars_of(content);
    let len: usize = chars.len();
    let mut out: Vec<char> = Vec::new();
    let mut i: usize = 0;
    assert(chars@.skip(0) =~= chars@);
    while i < len
        invariant
            chars@ == content@,
            len == chars@.len(),
            i <= len,
            c_stripped(out@, chars@.skip(i as int)) == c_stripped(seq![], content@),
        decreases len - i,
    {
        let ghost s = chars@.skip(i as int);
        let c = chars[i];
        if c == '"' || c == '\'' || c == '`' {
            let end = end_of_literal(&chars, i);
            push_range(&mut out, &chars, i, end);
            assert(chars@.subrange(i as int, end as int) =~= s.take(end - i));
            assert(chars@.skip(end as int) =~= s.skip(end - i));
            i = end;
        } else if c == '/' && i + 1 < len && chars[i + 1] == '/' {
            drop_trailing_blanks(&mut out);
            proof {
                lemma_line_comment(s);
            }
            let end = find_char(&chars, i, '\n');
            assert(chars@.skip(end as int) =~= s.skip(end - i));
            i = end;
        } else if c == '/' && i + 1 < len && chars[i + 1] == '*' {
            drop_trailing_blanks(&mut out);
            let end = end_of_block_comment(&chars, i);
            let ghost rest = s.skip(end - i);
            assert(chars@.skip(end as int) =~= rest);
            let count: usize = out.len();
            if count == 0 || out[count - 1] == '\n' {
                i = skip_line_end(&chars, end);
                assert(chars@.skip(i as int) =~= rest.skip(line_end_len(rest) as int));
            } else {
                i = end;
            }
        } else {
            out.push(c);
            assert(chars@.skip(i + 1) =~= s.skip(1));
            i = i + 1;
        }
    }
    text_of_range(&out, 0, out.len())
}

// ---- Block comments of style sheets --------------------------------------

/// `out` and then `s` without its `/* */` comments. A string literal is kept
/// whole, whatever it holds. With a comment go the blanks before it and a line
/// end right behind it.
pub open spec fn css_stripped(out: Seq<char>, s: Seq<char>) -> Seq<char>
    decreases s.len(),
{
    if s.len() == 0 {
        out
    } else if is_c_quote(s[0]) {
        proof {
            lemma_literal_rest(s.skip(1), s[0]);
        }
        let n = literal_len(s) as int;
        css_stripped(out + s.take(n), s.skip(n))
    } else if s[0] == '/' && s.len() > 1 && s[1] == '*' {
        proof {
            lemma_block_comment(s);
        }
        let rest = s.skip(block_comment_len(s) as int);
        css_stripped(without_trailing_blanks(out), rest.skip(line_end_len(rest) as int))
    } else {
        css_stripped(out.push(s[0]), s.skip(1))
    }
}

/// Removes `/* */` comments; string literals in single, double and back quotes
/// are kept.
pub fn strip_css(content: &str) -> (stripped: String)
    ensures
        stripped@ == css_stripped(seq![], content@),
{
    let chars = chars_of(content);
    let len: usize = chars.len();
    let mut out: Vec<char> = Vec::new();
    let mut i: usize = 0;
    assert(chars@.skip(0) =~= chars@);
    while i < len
        invariant
            chars@ == content@,
            len == chars@.len(),
            i <= len,
            css_stripped(out@, chars@.skip(i as int)) == css_stripped(seq![], content@),
        decreases len - i,
    {
        let ghost s = chars@.skip(i as int);
        let c = chars[i];
        if c == '"' || c == '\'' || c == '`' {
            let end = end_of_literal(&chars, i);
            push_range(&mut out, &chars, i, end);
            assert(chars@.subrange(i as int, end as int) =~= s.take(end - i));
            assert(chars@.skip(end as int) =~= s.skip(end - i));
            i = end;
        } else if c == '/' && i + 1 < len && chars[i + 1] == '*' {
            drop_trailing_blanks(&mut out);
            let end = end_of_block_comment(&chars, i);
            let ghost rest = s.skip(end - i);
            assert(chars@.skip(end as int) =~= rest);
            i = skip_line_end(&chars, end);
            assert(chars@.skip(i as int) =~= rest.skip(line_end_len(rest) as int));
        } else {
            out.push(c);
            assert(chars@.skip(i + 1) =~= s.skip(1));
            i = i + 1;
        }
    }
    text_of_range(&out, 0, out.len())
}

// ---- Hash comments -------------------------------------------------------

/// A character that starts a string literal where `#` starts a comment.
pub open spec fn is_hash_quote(c: char) -> bool {
    c == '"' || c == '\''
}

/// `out` and then `s` without its `#` comments. A string literal is kept whole;
/// with a comment go the blanks before it, and its line break stays.
pub open spec fn hash_stripped(out: Seq<char>, s: Seq<char>) -> Seq<char>
    decreases s.len(),
{
    if s.len() == 0 {
        out
    } else if is_hash_quote(s[0]) {
        proof {
            lemma_literal_rest(s.skip(1), s[0]);
        }
        let n = literal_len(s) as int;
        hash_stripped(out + s.take(n), s.skip(n))
    } else if s[0] == '#' {
        proof {
            lemma_line_comment(s);
        }
        hash_stripped(without_trailing_blanks(out), s.skip(text::position(s, '\n') as int))
    } else {
        hash_stripped(out.push(s[0]), s.skip(1))
    }
}

/// Removes `#` comments; string literals in single and double quotes are kept.
pub fn strip_hash_line_comments(content: &str) -> (stripped: String)
    ensures
        stripped@ == hash_stripped(seq![], content@),
{
    let chars = chars_of(content);
    let len: usize = chars.len();
    let mut out: Vec<char> = Vec::new();
    let mut i: usize = 0;
    assert(chars@.skip(0) =~= chars@);
    while i < len
        invariant
            chars@ == content@,
            len == chars@.len(),
            i <= len,
            hash_stripped(out@, chars@.skip(i as int)) == hash_stripped(seq![], content@),
        decreases len - i,
    {
        let ghost s = chars@.skip(i as int);
        let c = chars[i];
        if c == '"' || c == '\'' {
            let end = end_of_literal(&chars, i);
            push_range(&mut out, &chars, i, end);
            assert(chars@.subrange(i as int, end as int) =~= s.take(end - i));
            assert(chars@.skip(end as int) =~= s.skip(end - i));
            i = end;
        } else if c == '#' {
            drop_trailing_blanks(&mut out);
            proof {
                lemma_line_comment(s);
            }
            let end = find_char(&chars, i, '\n');
            assert(chars@.skip(end as int) =~= s.skip(end - i));
            i = end;
        } else {
            out.push(c);
            assert(chars@.skip(i + 1) =~= s.skip(1));
            i = i + 1;
        }
    }
    text_of_range(&out, 0, out.len())
}

// ---- Any style -----------------------------------------------------------

/// A text without its comments.
pub open spec fn uncommented(content: Seq<char>, style: CommentStyle) -> Seq<char> {
    match style {
        CommentStyle::Unknown => content,
        CommentStyle::HtmlBlock => block_stripped(seq![], content, "<!--"@, "-->"@),
        CommentStyle::CssBlock => css_stripped(seq![], content),
        CommentStyle::CLike => c_stripped(seq![], content),
        CommentStyle::Hash => hash_stripped(seq![], content),
    }
}

/// Removes the comments of a style. White space is not evened out.
pub fn strip_comments(content: &str, style: CommentStyle) -> (stripped: String)
    ensures
        stripped@ == uncommented(content@, style),
{
    match style {
        CommentStyle::Unknown => content.to_owned(),
        CommentStyle::HtmlBlock => {
            proof {
                reveal_strlit("<!--");
            }
            strip_block_only(content, "<!--", "-->")
        },
        CommentStyle::CssBlock => strip_css(content),
        CommentStyle::CLike => strip_c_like(content),
        CommentStyle::Hash => strip_hash_line_comments(content),
    }
}

} // verus!
