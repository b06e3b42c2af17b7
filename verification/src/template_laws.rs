//! What holds of every commit message template.

use crate::commit_template;
use crate::commit_template::{
    CivilTime, Effect, Gathered, IssueView, Piece, SegmentView, Severity, TimeToken,
};
use crate::text;
use crate::time_laws;
use vstd::prelude::*;
use vstd::utf8::*;

verus! {

// ---- Pieces --------------------------------------------------------------

/// The pieces of a template cover it: put together, what they are read from is
/// the template.
pub proof fn law_pieces_cover_template(template: Seq<char>)
    ensures
        commit_template::sources(commit_template::pieces(template)) == template,
    decreases template.len(),
{
    if template.len() > 0 {
        commit_template::lemma_first_piece(template);
        let first = commit_template::first_piece(template);
        let rest = template.skip(first.source().len() as int);
        law_pieces_cover_template(rest);
        lemma_sources_prepend(first, commit_template::pieces(rest));
        assert(first.source() + rest =~= template);
    }
}

proof fn lemma_sources_prepend(first: Piece, others: Seq<Piece>)
    ensures
        commit_template::sources(seq![first] + others) == first.source()
            + commit_template::sources(others),
    decreases others.len(),
{
    let all = seq![first] + others;
    if others.len() == 0 {
        assert(all.drop_last() =~= others);
        assert(commit_template::sources(all) =~= first.source() + commit_template::sources(others));
    } else {
        lemma_sources_prepend(first, others.drop_last());
        assert(all.drop_last() =~= seq![first] + others.drop_last());
        assert(commit_template::sources(all) =~= first.source() + commit_template::sources(others));
    }
}

/// The bytes before piece `k` of a sequence.
pub open spec fn bytes_before(ps: Seq<Piece>, k: int) -> nat {
    encode_utf8(commit_template::sources(ps.take(k))).len()
}

/// The span covers exactly the piece that it is about.
pub open spec fn spans_piece(ps: Seq<Piece>, k: int, span: (nat, nat)) -> bool {
    &&& 0 <= k < ps.len()
    &&& span.0 == bytes_before(ps, k)
    &&& span.1 == span.0 + encode_utf8(ps[k].source()).len()
}

/// Every issue is about one piece of the template, and its span is the bytes
/// that the piece takes in the template.
pub proof fn law_issue_spans_cover_pieces(template: Seq<char>, i: int)
    requires
        0 <= i < commit_template::parsed(template).issues.len(),
    ensures
        ({
            let span = commit_template::parsed(template).issues[i].span;
            let ps = commit_template::pieces(template);
            &&& exists|k: int| #[trigger]
                spans_piece(ps, k, span) && encode_utf8(template).subrange(
                    span.0 as int,
                    span.1 as int,
                ) == encode_utf8(ps[k].source())
            &&& span.0 <= span.1 <= encode_utf8(template).len()
        }),
{
    let ps = commit_template::pieces(template);
    let span = commit_template::parsed(template).issues[i].span;
    lemma_issue_of_some_piece(ps, i);
    let k = choose|k: int| spans_piece(ps, k, span);
    law_pieces_cover_template(template);
    lemma_sources_split(ps, k);
    let before = commit_template::sources(ps.take(k));
    let after = commit_template::sources(ps.skip(k + 1));
    let source = ps[k].source();
    text::lemma_encode_concat(before, source);
    text::lemma_encode_concat(before + source, after);
    assert(encode_utf8(template).subrange(span.0 as int, span.1 as int) =~= encode_utf8(source));
}

proof fn lemma_sources_split(ps: Seq<Piece>, k: int)
    requires
        0 <= k < ps.len(),
    ensures
        commit_template::sources(ps) == commit_template::sources(ps.take(k)) + ps[k].source()
            + commit_template::sources(ps.skip(k + 1)),
    decreases ps.len(),
{
    if k == ps.len() - 1 {
        assert(ps.take(k) =~= ps.drop_last());
        assert(ps.skip(k + 1) =~= seq![]);
        assert(commit_template::sources(ps) =~= commit_template::sources(ps.take(k))
            + ps[k].source() + commit_template::sources(ps.skip(k + 1)));
    } else {
        lemma_sources_split(ps.drop_last(), k);
        assert(ps.drop_last().take(k) =~= ps.take(k));
        assert(ps.drop_last().skip(k + 1) =~= ps.skip(k + 1).drop_last());
        assert(commit_template::sources(ps) =~= commit_template::sources(ps.take(k))
            + ps[k].source() + commit_template::sources(ps.skip(k + 1)));
    }
}

proof fn lemma_issue_of_some_piece(ps: Seq<Piece>, i: int)
    requires
        0 <= i < commit_template::issues_of(ps).len(),
    ensures
        exists|k: int| #[trigger] spans_piece(ps, k, commit_template::issues_of(ps)[i].span),
    decreases ps.len(),
{
    let span = commit_template::issues_of(ps)[i].span;
    let known = commit_template::issues_of(ps.drop_last());
    if i < known.len() {
        lemma_issue_of_some_piece(ps.drop_last(), i);
        let k = choose|k: int| spans_piece(ps.drop_last(), k, known[i].span);
        assert(ps.drop_last().take(k) =~= ps.take(k));
        assert(spans_piece(ps, k, span));
    } else {
        let k = ps.len() - 1;
        assert(ps.take(k) =~= ps.drop_last());
        assert(spans_piece(ps, k, span));
    }
}

// ---- Severity ------------------------------------------------------------

/// The piece asks for a timestamp with a token of the wrong shape.
pub open spec fn is_faulty(piece: Piece) -> bool {
    piece matches Piece::Bracket(inner) && inner != "filename"@
        && commit_template::is_time_variable(inner) && commit_template::has_near_miss(
        commit_template::stray_words(commit_template::time_format(inner)),
    )
}

/// A push is blocked exactly where some timestamp holds a token of the wrong
/// shape; everything else that cannot be read is a warning.
pub proof fn law_only_time_faults_block(template: Seq<char>)
    ensures
        commit_template::any_hard_error(commit_template::parsed(template).issues) <==> exists|
            k: int,
        |
            0 <= k < commit_template::pieces(template).len() && #[trigger] is_faulty(
                commit_template::pieces(template)[k],
            ),
{
    lemma_only_faulty_pieces_block(commit_template::pieces(template));
}

proof fn lemma_only_faulty_pieces_block(ps: Seq<Piece>)
    ensures
        commit_template::any_hard_error(commit_template::issues_of(ps)) <==> exists|k: int|
            0 <= k < ps.len() && #[trigger] is_faulty(ps[k]),
    decreases ps.len(),
{
    if ps.len() > 0 {
        let rest = ps.drop_last();
        lemma_only_faulty_pieces_block(rest);
        let at = encode_utf8(commit_template::sources(rest)).len();
        let known = commit_template::issues_of(rest);
        let added = ps.last().issues(at);
        let all = commit_template::issues_of(ps);
        assert(all == known + added);
        if is_faulty(ps.last()) {
            let words = commit_template::stray_words(
                commit_template::time_format(ps.last()->Bracket_0),
            );
            let i = choose|i: int|
                0 <= i < words.len() && commit_template::is_near_miss(#[trigger] words[i]);
            assert(added[i].severity == Severity::HardError);
            assert(all[known.len() + i].severity == Severity::HardError);
            assert(is_faulty(ps[ps.len() - 1]));
        } else {
            assert forall|i: int| 0 <= i < added.len() implies #[trigger] added[i].severity
                != Severity::HardError by {}
        }
        if commit_template::any_hard_error(all) {
            let i = choose|i: int|
                0 <= i < all.len() && #[trigger] all[i].severity == Severity::HardError;
            if i < known.len() {
                assert(known[i].severity == Severity::HardError);
                let k = choose|k: int| 0 <= k < rest.len() && #[trigger] is_faulty(rest[k]);
                assert(is_faulty(ps[k]));
            } else {
                assert(added[i - known.len()].severity == Severity::HardError);
            }
        }
        if exists|k: int| 0 <= k < ps.len() && #[trigger] is_faulty(ps[k]) {
            let k = choose|k: int| 0 <= k < ps.len() && #[trigger] is_faulty(ps[k]);
            if k < rest.len() {
                assert(is_faulty(rest[k]));
                let i = choose|i: int|
                    0 <= i < known.len() && #[trigger] known[i].severity == Severity::HardError;
                assert(all[i].severity == Severity::HardError);
            }
        }
    }
}

/// `n` times the character `c`.
pub open spec fn repeated(c: char, n: nat) -> Seq<char> {
    Seq::new(n, |i: int| c)
}

/// A time format that repeats one token letter and cannot be cut into whole
/// tokens (any number of `m` or `h`, an odd number of `y`, `d` or `s`) is a
/// hard error.
pub proof fn law_repeated_letter_blocks(c: char, n: nat)
    requires
        commit_template::is_token_letter(c),
        n > 0,
        c == 'm' || c == 'h' || n % 2 == 1,
    ensures
        commit_template::has_near_miss(commit_template::stray_words(repeated(c, n))),
    decreases n,
{
    let s = repeated(c, n);
    if c == 'm' || c == 'h' {
        assert(commit_template::token_at(s) is None) by {
            lemma_no_token(s, c);
        }
        lemma_run_is_fault(s, c);
    } else if n == 1 {
        assert(commit_template::token_at(s) is None) by {
            commit_template::lemma_token_at(s);
        }
        lemma_run_is_fault(s, c);
    } else if c == 'y' && n >= 4 {
        assert(s.take(4) =~= TimeToken::Year4.spelling());
        assert(s.skip(4) =~= repeated(c, (n - 4) as nat));
        assert(commit_template::token_at(s) == Some(TimeToken::Year4));
        law_repeated_letter_blocks(c, (n - 4) as nat);
    } else {
        let token = if c == 'y' {
            TimeToken::Year2
        } else if c == 'd' {
            TimeToken::Day
        } else {
            TimeToken::Second
        };
        assert(s.take(2) =~= token.spelling());
        assert(s.skip(2) =~= repeated(c, (n - 2) as nat));
        assert(commit_template::token_at(s) == Some(token)) by {
            lemma_token_starts_with(s, c, token);
        }
        law_repeated_letter_blocks(c, (n - 2) as nat);
    }
}

/// A time format of letters that begins with no time token and is no near miss is
/// used as it is, with one warning.
pub proof fn law_unrecognized_time_word_warns(word: Seq<char>, at: nat)
    requires
        word.len() > 0,
        forall|i: int| 0 <= i < word.len() ==> text::is_letter(#[trigger] word[i]),
        commit_template::token_at(word) is None,
        !commit_template::is_near_miss(word),
    ensures
        ({
            let piece = Piece::Bracket("time="@ + word);
            let bytes = encode_utf8(piece.source()).len();
            &&& piece.effect() == Effect::Variable(Some(SegmentView::Time(word)))
            &&& piece.issues(at) == seq![
                IssueView {
                    severity: Severity::Warning,
                    message: commit_template::stray_message(word),
                    span: (at, at + bytes),
                },
            ]
        }),
{
    let inner = "time="@ + word;
    lemma_whole_run(word);
    let words = commit_template::stray_words(word);
    assert(word.skip(word.len() as int) =~= seq![]);
    assert(commit_template::stray_words(seq![]) =~= seq![]);
    assert(words =~= seq![word]);
    assert(inner.take("time="@.len() as int) =~= "time="@);
    assert(commit_template::time_format(inner) =~= word);
    reveal_strlit("time=");
    reveal_strlit("filename");
    assert(inner[0] == 't');
    assert(inner != "filename"@) by {
        assert("filename"@[0] == 'f');
    }
    let piece = Piece::Bracket(inner);
    assert(!commit_template::has_near_miss(words));
    assert(piece.issues(at) =~= seq![
        IssueView {
            severity: Severity::Warning,
            message: commit_template::stray_message(word),
            span: (at, at + encode_utf8(piece.source()).len()),
        },
    ]);
}

proof fn lemma_no_token(s: Seq<char>, c: char)
    requires
        c == 'm' || c == 'h',
        commit_template::all_are(s, c),
    ensures
        commit_template::token_at(s) is None,
{
    commit_template::lemma_token_at(s);
    if commit_template::token_at(s) is Some {
        let spelling = commit_template::token_at(s)->0.spelling();
        assert(spelling[0] == s[0]);
        assert(spelling[1] == s[1]);
    }
}

proof fn lemma_token_starts_with(s: Seq<char>, c: char, token: TimeToken)
    requires
        s.len() >= 2,
        s.len() < 4 || c != 'y',
        commit_template::all_are(s, c),
        token.spelling() == s.take(2),
        token.spelling().len() == 2,
    ensures
        commit_template::token_at(s) == Some(token),
{
    commit_template::lemma_token_at(s);
    assert(token.spelling().is_prefix_of(s));
    let found = commit_template::token_at(s)->0;
    assert(found.spelling()[0] == s[0]);
    assert(found.spelling()[1] == s[1]);
    assert(token.spelling()[0] == s[0]);
    assert(token.spelling()[1] == s[1]);
}

proof fn lemma_run_is_fault(s: Seq<char>, c: char)
    requires
        s.len() > 0,
        commit_template::is_token_letter(c),
        commit_template::all_are(s, c),
        commit_template::token_at(s) is None,
    ensures
        commit_template::has_near_miss(commit_template::stray_words(s)),
{
    lemma_whole_run(s);
    let pred = |x: char| text::is_letter(x);
    lemma_filter_keeps_all(s, pred);
    assert(s.filter(pred) == s);
    assert(commit_template::is_near_miss(s));
    assert(commit_template::stray_words(s)[0] == s);
}

proof fn lemma_whole_run(s: Seq<char>)
    requires
        forall|i: int| 0 <= i < s.len() ==> text::is_letter(#[trigger] s[i]),
    ensures
        commit_template::letter_run(s) == s,
    decreases s.len(),
{
    if s.len() > 0 {
        lemma_whole_run(s.skip(1));
        assert(seq![s[0]] + s.skip(1) =~= s);
    }
}

proof fn lemma_filter_keeps_all(s: Seq<char>, pred: spec_fn(char) -> bool)
    requires
        forall|i: int| 0 <= i < s.len() ==> pred(#[trigger] s[i]),
    ensures
        s.filter(pred) == s,
    decreases s.len(),
{
    reveal_with_fuel(Seq::filter, 2);
    if s.len() > 0 {
        lemma_filter_keeps_all(s.drop_last(), pred);
        assert(s.drop_last().push(s.last()) =~= s);
    } else {
        assert(s.filter(pred) =~= s);
    }
}

// ---- Rendering -----------------------------------------------------------

/// The text that a piece puts into the message.
pub open spec fn piece_text(
    piece: Piece,
    filename: Option<Seq<char>>,
    now: CivilTime,
) -> Seq<char> {
    match piece.effect() {
        Effect::Text(text) => text,
        Effect::Variable(None) => seq![],
        Effect::Variable(Some(segment)) => commit_template::segment_text(segment, filename, now),
    }
}

/// The texts of a sequence of pieces, one after the other.
pub open spec fn piece_texts(
    ps: Seq<Piece>,
    filename: Option<Seq<char>>,
    now: CivilTime,
) -> Seq<char>
    decreases ps.len(),
{
    if ps.len() == 0 {
        seq![]
    } else {
        piece_texts(ps.drop_last(), filename, now) + piece_text(ps.last(), filename, now)
    }
}

/// The message of a template is made piece by piece, in the order of the
/// template.
pub proof fn law_message_is_made_piece_by_piece(
    template: Seq<char>,
    filename: Option<Seq<char>>,
    now: CivilTime,
)
    ensures
        commit_template::rendered(commit_template::parsed(template).segments, filename, now)
            == piece_texts(commit_template::pieces(template), filename, now),
{
    let ps = commit_template::pieces(template);
    lemma_gathered_text(ps, filename, now);
    lemma_flushed_text(commit_template::gathered(ps), filename, now);
}

proof fn lemma_flushed_text(held: Gathered, filename: Option<Seq<char>>, now: CivilTime)
    ensures
        commit_template::rendered(held.flushed(), filename, now) == commit_template::rendered(
            held.segments,
            filename,
            now,
        ) + held.text,
{
    assert(held.segments.push(SegmentView::Literal(held.text)).drop_last() =~= held.segments);
    assert(commit_template::rendered(held.flushed(), filename, now) =~= commit_template::rendered(
        held.segments,
        filename,
        now,
    ) + held.text);
}

proof fn lemma_gathered_text(ps: Seq<Piece>, filename: Option<Seq<char>>, now: CivilTime)
    ensures
        commit_template::rendered(commit_template::gathered(ps).segments, filename, now)
            + commit_template::gathered(ps).text == piece_texts(ps, filename, now),
    decreases ps.len(),
{
    let held = commit_template::gathered(ps);
    if ps.len() > 0 {
        lemma_gathered_text(ps.drop_last(), filename, now);
        let before = commit_template::gathered(ps.drop_last());
        lemma_flushed_text(before, filename, now);
        match ps.last().effect() {
            Effect::Variable(Some(segment)) => {
                assert(before.flushed().push(segment).drop_last() =~= before.flushed());
            },
            _ => {},
        }
        assert(commit_template::rendered(held.segments, filename, now) + held.text =~= piece_texts(
            ps,
            filename,
            now,
        ));
    } else {
        assert(commit_template::rendered(held.segments, filename, now) + held.text =~= piece_texts(
            ps,
            filename,
            now,
        ));
    }
}

proof fn lemma_texts_prepend(
    first: Piece,
    others: Seq<Piece>,
    filename: Option<Seq<char>>,
    now: CivilTime,
)
    ensures
        piece_texts(seq![first] + others, filename, now) == piece_text(first, filename, now)
            + piece_texts(others, filename, now),
    decreases others.len(),
{
    let all = seq![first] + others;
    if others.len() == 0 {
        assert(all.drop_last() =~= others);
    } else {
        lemma_texts_prepend(first, others.drop_last(), filename, now);
        assert(all.drop_last() =~= seq![first] + others.drop_last());
    }
    assert(piece_texts(all, filename, now) =~= piece_text(first, filename, now) + piece_texts(
        others,
        filename,
        now,
    ));
}

/// No piece has an issue, wherever it stands.
pub open spec fn is_clean(piece: Piece) -> bool {
    forall|at: nat| #[trigger] piece.issues(at) == Seq::<IssueView>::empty()
}

proof fn lemma_clean_pieces(ps: Seq<Piece>)
    requires
        forall|k: int| 0 <= k < ps.len() ==> is_clean(#[trigger] ps[k]),
    ensures
        commit_template::issues_of(ps) == Seq::<IssueView>::empty(),
    decreases ps.len(),
{
    if ps.len() > 0 {
        assert forall|k: int| 0 <= k < ps.drop_last().len() implies is_clean(
            #[trigger] ps.drop_last()[k],
        ) by {
            assert(is_clean(ps[k]));
        }
        lemma_clean_pieces(ps.drop_last());
        assert(is_clean(ps[ps.len() - 1]));
        let at = encode_utf8(commit_template::sources(ps.drop_last())).len();
        assert(ps.last().issues(at) == Seq::<IssueView>::empty());
        assert(commit_template::issues_of(ps) =~= Seq::<IssueView>::empty());
    }
}

/// Read from the left, the text holds no opening bracket, no escaped bracket
/// and no backslash at its end.
pub open spec fn is_plain(template: Seq<char>) -> bool
    decreases template.len(),
{
    if template.len() == 0 {
        true
    } else if template[0] == '\\' {
        template.len() > 1 && template[1] != '[' && template[1] != ']' && is_plain(
            template.skip(2),
        )
    } else {
        template[0] != '[' && is_plain(template.skip(1))
    }
}

/// Text without opening brackets and escapes is its own message and has no
/// issues: a backslash before any other character is two literal characters.
pub proof fn law_plain_text_is_kept(
    template: Seq<char>,
    filename: Option<Seq<char>>,
    now: CivilTime,
)
    requires
        is_plain(template),
    ensures
        commit_template::rendered(commit_template::parsed(template).segments, filename, now)
            == template,
        commit_template::parsed(template).issues == Seq::<IssueView>::empty(),
{
    lemma_plain_pieces(template, filename, now);
    law_message_is_made_piece_by_piece(template, filename, now);
    lemma_clean_pieces(commit_template::pieces(template));
}

proof fn lemma_plain_pieces(template: Seq<char>, filename: Option<Seq<char>>, now: CivilTime)
    requires
        is_plain(template),
    ensures
        piece_texts(commit_template::pieces(template), filename, now) == template,
        forall|k: int|
            0 <= k < commit_template::pieces(template).len() ==> is_clean(
                #[trigger] commit_template::pieces(template)[k],
            ),
    decreases template.len(),
{
    if template.len() > 0 {
        commit_template::lemma_first_piece(template);
        let first = commit_template::first_piece(template);
        let width = first.source().len() as int;
        let rest = template.skip(width);
        lemma_plain_pieces(rest, filename, now);
        lemma_texts_prepend(first, commit_template::pieces(rest), filename, now);
        assert(first.source() + rest =~= template);
        assert(is_clean(first));
        assert forall|k: int| 0 <= k < commit_template::pieces(template).len() implies is_clean(
            #[trigger] commit_template::pieces(template)[k],
        ) by {
            if k > 0 {
                assert(commit_template::pieces(template)[k] == commit_template::pieces(rest)[k
                    - 1]);
            }
        }
    }
}

/// The text with a backslash before each bracket.
pub open spec fn escaped(text: Seq<char>) -> Seq<char>
    decreases text.len(),
{
    if text.len() == 0 {
        seq![]
    } else if text[0] == '[' || text[0] == ']' {
        seq!['\\', text[0]] + escaped(text.skip(1))
    } else {
        seq![text[0]] + escaped(text.skip(1))
    }
}

/// Escaping its brackets makes any text without backslashes literal: the
/// message of the escaped text is the text, and there are no issues.
pub proof fn law_escaped_text_is_literal(
    text: Seq<char>,
    filename: Option<Seq<char>>,
    now: CivilTime,
)
    requires
        !text.contains('\\'),
    ensures
        commit_template::rendered(
            commit_template::parsed(escaped(text)).segments,
            filename,
            now,
        ) == text,
        commit_template::parsed(escaped(text)).issues == Seq::<IssueView>::empty(),
{
    lemma_escaped_pieces(text, filename, now);
    law_message_is_made_piece_by_piece(escaped(text), filename, now);
    lemma_clean_pieces(commit_template::pieces(escaped(text)));
}

proof fn lemma_escaped_pieces(text: Seq<char>, filename: Option<Seq<char>>, now: CivilTime)
    requires
        !text.contains('\\'),
    ensures
        piece_texts(commit_template::pieces(escaped(text)), filename, now) == text,
        forall|k: int|
            0 <= k < commit_template::pieces(escaped(text)).len() ==> is_clean(
                #[trigger] commit_template::pieces(escaped(text))[k],
            ),
    decreases text.len(),
{
    if text.len() > 0 {
        let template = escaped(text);
        let rest = escaped(text.skip(1));
        assert forall|c: char| text.skip(1).contains(c) implies text.contains(c) by {
            let i = choose|i: int| 0 <= i < text.skip(1).len() && text.skip(1)[i] == c;
            assert(text[i + 1] == c);
        }
        lemma_escaped_pieces(text.skip(1), filename, now);
        assert(text.contains(text[0]));
        let first = commit_template::first_piece(template);
        assert(template.skip(first.source().len() as int) =~= rest);
        assert(commit_template::pieces(template) == seq![first] + commit_template::pieces(rest));
        lemma_texts_prepend(first, commit_template::pieces(rest), filename, now);
        assert(seq![text[0]] + text.skip(1) =~= text);
        assert(is_clean(first));
        assert forall|k: int| 0 <= k < commit_template::pieces(template).len() implies is_clean(
            #[trigger] commit_template::pieces(template)[k],
        ) by {
            if k > 0 {
                assert(commit_template::pieces(template)[k] == commit_template::pieces(rest)[k
                    - 1]);
            }
        }
    }
}

/// A bracketed name that is no variable stays in the message as it is written,
/// with one warning that covers it.
pub proof fn law_unrecognized_variable_is_kept(
    name: Seq<char>,
    filename: Option<Seq<char>>,
    now: CivilTime,
)
    requires
        !name.contains(']'),
        name != "filename"@,
        !commit_template::is_time_variable(name),
    ensures
        ({
            let template = seq!['['] + name + seq![']'];
            let read = commit_template::parsed(template);
            &&& commit_template::rendered(read.segments, filename, now) == template
            &&& read.issues == seq![
                IssueView {
                    severity: Severity::Warning,
                    message: commit_template::unrecognized_message(name),
                    span: (0, encode_utf8(template).len()),
                },
            ]
        }),
{
    let template = seq!['['] + name + seq![']'];
    lemma_bracket_alone(name);
    let piece = Piece::Bracket(name);
    let ps = commit_template::pieces(template);
    law_message_is_made_piece_by_piece(template, filename, now);
    assert(ps.drop_last() =~= seq![]);
    assert(encode_utf8(Seq::<char>::empty()) =~= seq![]);
    assert(commit_template::sources(ps.drop_last()) =~= seq![]);
    assert(piece_texts(ps.drop_last(), filename, now) =~= seq![]);
    assert(piece_texts(ps, filename, now) =~= template);
    assert(commit_template::issues_of(ps.drop_last()) =~= seq![]);
    assert(commit_template::issues_of(ps) =~= piece.issues(0));
}

proof fn lemma_bracket_alone(inner: Seq<char>)
    requires
        !inner.contains(']'),
    ensures
        commit_template::pieces(seq!['['] + inner + seq![']']) == seq![Piece::Bracket(inner)],
{
    let template = seq!['['] + inner + seq![']'];
    let close = inner.len() + 1;
    assert forall|k: int| 0 <= k < close implies template[k] != ']' by {
        if k > 0 {
            assert(template[k] == inner[k - 1]);
            assert(inner.contains(inner[k - 1]));
        }
    }
    text::lemma_position_is(template, ']', close as int);
    assert(template[close as int] == ']');
    assert(template.subrange(1, close as int) =~= inner);
    let first = commit_template::first_piece(template);
    assert(first == Piece::Bracket(inner));
    assert(template.skip(first.source().len() as int) =~= Seq::<char>::empty());
    assert(commit_template::pieces(Seq::<char>::empty()) =~= seq![]);
    assert(commit_template::pieces(template) =~= seq![Piece::Bracket(inner)]);
}

/// `[filename]` is the name of the file, or `multiple files` where no single
/// file is meant.
pub proof fn law_filename_variable(filename: Option<Seq<char>>, now: CivilTime)
    ensures
        ({
            let read = commit_template::parsed(seq!['['] + "filename"@ + seq![']']);
            &&& commit_template::rendered(read.segments, filename, now) == (match filename {
                Some(name) => name,
                None => "multiple files"@,
            })
            &&& read.issues == Seq::<IssueView>::empty()
        }),
{
    let inner = "filename"@;
    reveal_strlit("filename");
    assert(!inner.contains(']'));
    lemma_bracket_alone(inner);
    let template = seq!['['] + inner + seq![']'];
    let ps = commit_template::pieces(template);
    law_message_is_made_piece_by_piece(template, filename, now);
    assert(ps.drop_last() =~= seq![]);
    assert(piece_texts(ps.drop_last(), filename, now) =~= seq![]);
    assert(piece_texts(ps, filename, now) =~= piece_text(ps.last(), filename, now));
    assert(commit_template::issues_of(ps.drop_last()) =~= seq![]);
    assert(commit_template::issues_of(ps) =~= seq![]);
}

/// In the years 0 to 9999 a token is as wide as it is written (two digits for
/// the two tokens of the hour).
pub proof fn law_token_width(token: TimeToken, now: CivilTime)
    requires
        now.well_formed(),
        0 <= now.year <= 9999,
    ensures
        commit_template::token_text(token, now).len() == if token == TimeToken::Year4 {
            4
        } else {
            2nat
        },
{
    let n: int = match token {
        TimeToken::Year4 => now.year as int,
        TimeToken::Year2 => now.short_year(),
        TimeToken::Month => now.month as int,
        TimeToken::Day => now.day as int,
        TimeToken::Minute => now.minute as int,
        TimeToken::Second => now.second as int,
        TimeToken::Hour24 => now.hour as int,
        TimeToken::Hour12 => now.hour12() as int,
    };
    reveal_with_fuel(text::decimal, 5);
    assert(0 <= n <= 9999);
    assert(n < 100 ==> text::decimal(n as nat).len() <= 2);
    assert(text::decimal(n as nat).len() <= 4);
}

// ---- Civil time ----------------------------------------------------------

/// The days of a year before a day of it.
proof fn lemma_days_before_month(year: int, month: int)
    requires
        1 <= month <= 12,
    ensures
        commit_template::days_before_month(year, month) == if month == 1 {
            0
        } else if month == 2 {
            31
        } else {
            (if commit_template::is_leap_year(year) {
                60
            } else {
                59int
            }) + (if month == 3 {
                0
            } else if month == 4 {
                31
            } else if month == 5 {
                61
            } else if month == 6 {
                92
            } else if month == 7 {
                122
            } else if month == 8 {
                153
            } else if month == 9 {
                184
            } else if month == 10 {
                214
            } else if month == 11 {
                245
            } else {
                275int
            })
        },
{
    reveal_with_fuel(commit_template::days_before_month, 13);
}

/// How often a period has passed, from one year to the next.
proof fn lemma_period(a: int, period: int)
    requires
        period == 4 || period == 100 || period == 400,
    ensures
        a / period - (a - 1) / period == if a % period == 0 {
            1
        } else {
            0int
        },
{
    let q: int = a / period;
    let r: int = a % period;
    vstd::arithmetic::div_mod::lemma_fundamental_div_mod(a, period);
    if r == 0 {
        vstd::arithmetic::div_mod::lemma_fundamental_div_mod_converse(
            a - 1,
            period,
            q - 1,
            period - 1,
        );
    } else {
        vstd::arithmetic::div_mod::lemma_fundamental_div_mod_converse(a - 1, period, q, r - 1);
    }
}

/// A year has 365 days, and one more where it is a leap year.
#[verifier::spinoff_prover]
proof fn lemma_next_year(a: int)
    ensures
        commit_template::days_before_year(a + 1) == commit_template::days_before_year(a) + 365 + (
        if commit_template::is_leap_year(a) {
            1
        } else {
            0int
        }),
{
    lemma_period(a, 4);
    lemma_period(a, 100);
    lemma_period(a, 400);
    if a % 400 == 0 {
        lemma_multiple(a, 100, 4);
    }
    if a % 100 == 0 {
        lemma_multiple(a, 4, 25);
    }
}

/// A multiple of a product is one of each factor.
proof fn lemma_multiple(a: int, factor: int, other: int)
    requires
        factor > 0,
        other > 0,
        a % (factor * other) == 0,
    ensures
        a % factor == 0,
{
    let q: int = a / (factor * other);
    assert(factor * other > 0) by (nonlinear_arith)
        requires
            factor > 0,
            other > 0,
    ;
    vstd::arithmetic::div_mod::lemma_fundamental_div_mod(a, factor * other);
    assert(a == factor * (other * q)) by (nonlinear_arith)
        requires
            a == factor * other * q,
    ;
    vstd::arithmetic::div_mod::lemma_mod_multiples_basic(other * q, factor);
    vstd::arithmetic::mul::lemma_mul_is_commutative(factor, other * q);
}

/// A year that comes later starts later, by at least a whole year.
#[verifier::spinoff_prover]
proof fn lemma_years(a: int, b: int)
    requires
        a < b,
    ensures
        commit_template::days_before_year(a) + 365 + (if commit_template::is_leap_year(a) {
            1
        } else {
            0int
        }) <= commit_template::days_before_year(b),
    decreases b - a,
{
    if b == a + 1 {
        lemma_next_year(a);
    } else {
        lemma_years(a, b - 1);
        lemma_next_year(b - 1);
    }
}

/// The clock shows one time at a time.
#[verifier::spinoff_prover]
pub proof fn law_civil_time_is_unique(a: CivilTime, b: CivilTime, seconds: int)
    requires
        a.is_at(seconds),
        b.is_at(seconds),
    ensures
        a == b,
{
    let (ya, yb) = (a.year as int, b.year as int);
    lemma_days_before_month(ya, a.month as int);
    lemma_days_before_month(yb, b.month as int);
    if ya < yb {
        lemma_years(ya, yb);
    }
    if yb < ya {
        lemma_years(yb, ya);
    }
}

/// The number of days of a month in the Gregorian calendar.
pub open spec fn days_in(year: int, month: int) -> int {
    if month == 2 {
        if year % 4 == 0 && year % 100 != 0 || year % 400 == 0 {
            29
        } else {
            28
        }
    } else if month == 4 || month == 6 || month == 9 || month == 11 {
        30
    } else {
        31
    }
}

/// The clock starts with the year 1970. Within a day it counts seconds, minutes and
/// hours; a day later it shows the same time of the next day, which is the first of
/// the next month behind the last day of a month, and the first of January behind the
/// last day of a year.
#[verifier::spinoff_prover]
pub proof fn law_clock_and_calendar_go_on(now: CivilTime, later: CivilTime, seconds: int)
    requires
        now.year < i32::MAX,
    ensures
        now.is_at(seconds) ==> {
            &&& now.second == seconds % 60
            &&& now.minute == (seconds / 60) % 60
            &&& now.hour == (seconds / 3600) % 24
            &&& 1 <= now.month <= 12
            &&& 1 <= now.day <= days_in(now.year as int, now.month as int)
        },
        now.is_at(0) ==> now == (CivilTime {
            year: 1970,
            month: 1,
            day: 1,
            hour: 0,
            minute: 0,
            second: 0,
        }),
        now.is_at(seconds) && later.is_at(seconds + 86400) ==> later == if now.day < days_in(
            now.year as int,
            now.month as int,
        ) {
            CivilTime { day: (now.day + 1) as u32, ..now }
        } else if now.month < 12 {
            CivilTime { month: (now.month + 1) as u32, day: 1, ..now }
        } else {
            CivilTime { year: (now.year + 1) as i32, month: 1, day: 1, ..now }
        },
{
    let start = CivilTime { year: 1970, month: 1, day: 1, hour: 0, minute: 0, second: 0 };
    assert(commit_template::days_before_month(1970, 1) == 0);
    assert(start.is_at(0));
    if now.is_at(0) {
        law_civil_time_is_unique(now, start, 0);
    }
    if now.is_at(seconds) {
        lemma_time_of_day(now, seconds);
        if later.is_at(seconds + 86400) {
            let (year, month) = (now.year as int, now.month as int);
            assert((seconds + 86400) / 86400 == seconds / 86400 + 1);
            assert((seconds + 86400) % 86400 == seconds % 86400);
            let next = if now.day < days_in(year, month) {
                CivilTime { day: (now.day + 1) as u32, ..now }
            } else if now.month < 12 {
                CivilTime { month: (now.month + 1) as u32, day: 1, ..now }
            } else {
                CivilTime { year: (now.year + 1) as i32, month: 1, day: 1, ..now }
            };
            if now.day == days_in(year, month) {
                if now.month < 12 {
                    assert(commit_template::days_before_month(year, month + 1)
                        == commit_template::days_before_month(year, month) + days_in(year, month));
                } else {
                    lemma_days_before_month(year, 12);
                    lemma_next_year(year);
                    assert(commit_template::days_before_month(year + 1, 1) == 0);
                }
            }
            assert(next.is_at(seconds + 86400));
            law_civil_time_is_unique(later, next, seconds + 86400);
        }
    }
}

#[verifier::spinoff_prover]
proof fn lemma_time_of_day(now: CivilTime, seconds: int)
    requires
        now.is_at(seconds),
    ensures
        now.second == seconds % 60,
        now.minute == (seconds / 60) % 60,
        now.hour == (seconds / 3600) % 24,
{
    let day: int = seconds / 86400;
    let (h, m, s) = (now.hour as int, now.minute as int, now.second as int);
    assert(seconds == day * 86400 + h * 3600 + m * 60 + s);
    assert(seconds == 60 * (day * 1440 + h * 60 + m) + s);
    assert(seconds / 60 == day * 1440 + h * 60 + m);
    assert(seconds / 60 == 60 * (day * 24 + h) + m);
    assert(seconds / 3600 == day * 24 + h);
}

/// Every time within ninety thousand years of 1970 has a date.
pub proof fn law_calendar_reaches_far(seconds: int)
    requires
        -3000000000000 <= seconds <= 3000000000000,
    ensures
        commit_template::in_calendar(seconds),
{
    lemma_days_before_month(-262143, 1);
    lemma_days_before_month(262142, 12);
}

// ---- Templates put together ----------------------------------------------

/// The piece reaches to the end of the template, whatever might follow.
spec fn is_open_ended(piece: Piece) -> bool {
    piece is Trailing || piece is Unclosed
}

proof fn lemma_pieces_concat(a: Seq<char>, b: Seq<char>)
    requires
        forall|k: int|
            0 <= k < commit_template::pieces(a).len() ==> !is_open_ended(
                #[trigger] commit_template::pieces(a)[k],
            ),
    ensures
        commit_template::pieces(a + b) == commit_template::pieces(a) + commit_template::pieces(b),
    decreases a.len(),
{
    if a.len() == 0 {
        assert(a + b =~= b);
        assert(commit_template::pieces(a) + commit_template::pieces(b) =~= commit_template::pieces(
            b,
        ));
    } else {
        let first = commit_template::first_piece(a);
        let n = first.source().len() as int;
        commit_template::lemma_first_piece(a);
        assert(commit_template::pieces(a)[0] == first);
        let others = commit_template::pieces(a.skip(n));
        assert forall|k: int| 0 <= k < others.len() implies !is_open_ended(#[trigger] others[k]) by {
            assert(commit_template::pieces(a)[k + 1] == others[k]);
        }
        lemma_pieces_concat(a.skip(n), b);
        assert(commit_template::first_piece(a + b) == first) by {
            if a[0] == '[' {
                let p = text::position(a, ']') as int;
                text::lemma_position(a, ']');
                assert(a.contains(']'));
                let k = choose|k: int| 0 <= k < a.len() && a[k] == ']';
                assert(p < a.len());
                assert((a + b)[p] == ']');
                text::lemma_position_is(a + b, ']', p);
                assert((a + b).subrange(1, p) =~= a.subrange(1, p));
            }
        }
        assert((a + b).skip(n) =~= a.skip(n) + b);
        assert(commit_template::pieces(a + b) =~= commit_template::pieces(a)
            + commit_template::pieces(b));
    }
}

proof fn lemma_no_issues_closed(ps: Seq<Piece>, k: int)
    requires
        commit_template::issues_of(ps).len() == 0,
        0 <= k < ps.len(),
    ensures
        !is_open_ended(ps[k]),
    decreases ps.len(),
{
    if k < ps.len() - 1 {
        lemma_no_issues_closed(ps.drop_last(), k);
    } else {
        let at = encode_utf8(commit_template::sources(ps.drop_last())).len();
        assert(ps.last().issues(at).len() == 0);
    }
}

proof fn lemma_sources_concat(ps: Seq<Piece>, qs: Seq<Piece>)
    ensures
        commit_template::sources(ps + qs) == commit_template::sources(ps)
            + commit_template::sources(qs),
    decreases qs.len(),
{
    if qs.len() == 0 {
        assert(ps + qs =~= ps);
        assert(commit_template::sources(ps) + commit_template::sources(qs)
            =~= commit_template::sources(ps));
    } else {
        lemma_sources_concat(ps, qs.drop_last());
        assert((ps + qs).drop_last() =~= ps + qs.drop_last());
        assert(commit_template::sources(ps + qs) =~= commit_template::sources(ps)
            + commit_template::sources(qs));
    }
}

/// Pieces behind a variable are gathered by themselves.
proof fn lemma_gathered_concat(ps: Seq<Piece>, qs: Seq<Piece>)
    requires
        commit_template::gathered(ps).text.len() == 0,
    ensures
        ({
            let all = commit_template::gathered(ps + qs);
            let first = commit_template::gathered(ps);
            let second = commit_template::gathered(qs);
            all.segments == first.segments + second.segments && all.text == second.text
        }),
    decreases qs.len(),
{
    let first = commit_template::gathered(ps);
    if qs.len() == 0 {
        assert(ps + qs =~= ps);
        assert(first.segments + commit_template::gathered(qs).segments =~= first.segments);
        assert(first.text =~= seq![]);
    } else {
        lemma_gathered_concat(ps, qs.drop_last());
        assert((ps + qs).drop_last() =~= ps + qs.drop_last());
        let all = commit_template::gathered(ps + qs);
        assert(all.segments =~= first.segments + commit_template::gathered(qs).segments);
    }
}

/// The issues, with their spans moved by some bytes.
pub open spec fn moved(issues: Seq<IssueView>, bytes: nat) -> Seq<IssueView> {
    issues.map_values(
        |i: IssueView| IssueView { span: (i.span.0 + bytes, i.span.1 + bytes), ..i },
    )
}

proof fn lemma_piece_issues_moved(piece: Piece, at: nat, bytes: nat)
    ensures
        piece.issues(at + bytes) == moved(piece.issues(at), bytes),
{
    assert(piece.issues(at + bytes) =~= moved(piece.issues(at), bytes));
}

proof fn lemma_issues_concat(ps: Seq<Piece>, qs: Seq<Piece>)
    ensures
        commit_template::issues_of(ps + qs) == commit_template::issues_of(ps) + moved(
            commit_template::issues_of(qs),
            encode_utf8(commit_template::sources(ps)).len(),
        ),
    decreases qs.len(),
{
    let bytes = encode_utf8(commit_template::sources(ps)).len();
    let all = commit_template::issues_of(ps + qs);
    let known = commit_template::issues_of(ps);
    if qs.len() == 0 {
        assert(ps + qs =~= ps);
        assert(all =~= known + moved(commit_template::issues_of(qs), bytes));
    } else {
        let less = qs.drop_last();
        lemma_issues_concat(ps, less);
        assert((ps + qs).drop_last() =~= ps + less);
        lemma_sources_concat(ps, less);
        text::lemma_encode_concat(commit_template::sources(ps), commit_template::sources(less));
        let at = encode_utf8(commit_template::sources(less)).len();
        lemma_piece_issues_moved(qs.last(), at, bytes);
        assert(moved(commit_template::issues_of(qs), bytes) =~= moved(
            commit_template::issues_of(less),
            bytes,
        ) + moved(qs.last().issues(at), bytes));
        assert(all =~= known + moved(commit_template::issues_of(qs), bytes));
    }
}

/// A template without issues, the file name variable and a further template, put
/// together, say what they say by themselves: the segments follow each other, and
/// the spans of the later issues are moved by the bytes that stand before.
pub proof fn law_templates_around_filename(a: Seq<char>, b: Seq<char>)
    requires
        commit_template::parsed(a).issues.len() == 0,
    ensures
        commit_template::parsed(a + "[filename]"@ + b).segments == commit_template::parsed(
            a,
        ).segments + seq![SegmentView::Filename] + commit_template::parsed(b).segments,
        commit_template::parsed(a + "[filename]"@ + b).issues == moved(
            commit_template::parsed(b).issues,
            encode_utf8(a).len() + 10,
        ),
{
    let variable = "[filename]"@;
    let ps = commit_template::pieces(a);
    let piece = Piece::Bracket("filename"@);
    let qs = commit_template::pieces(b);
    reveal_strlit("[filename]");
    reveal_strlit("filename");
    assert forall|k: int| 0 <= k < ps.len() implies !is_open_ended(#[trigger] ps[k]) by {
        lemma_no_issues_closed(ps, k);
    }
    assert(variable =~= piece.source());
    let s = variable + b;
    assert(s[9] == ']');
    text::lemma_position_is(s, ']', 9);
    assert(s.subrange(1, 9) =~= "filename"@);
    assert(commit_template::first_piece(s) == piece);
    assert(s.skip(10) =~= b);
    lemma_pieces_concat(a, s);
    assert(a + variable + b =~= a + s);
    assert(commit_template::pieces(a + s) == ps + (seq![piece] + qs));
    let head = ps.push(piece);
    assert(ps + (seq![piece] + qs) =~= head + qs);
    assert(head.drop_last() =~= ps);
    assert(commit_template::gathered(head).segments == commit_template::gathered(ps).flushed().push(
        SegmentView::Filename,
    ));
    lemma_gathered_concat(head, qs);
    let together = commit_template::parsed(a + variable + b);
    assert(together.segments =~= commit_template::parsed(a).segments + seq![SegmentView::Filename]
        + commit_template::parsed(b).segments);
    law_pieces_cover_template(a);
    lemma_issues_concat(head, qs);
    assert(commit_template::sources(head) == a + variable);
    text::lemma_encode_concat(a, variable);
    lemma_ten_bytes(variable);
    assert(commit_template::issues_of(head) =~= seq![]);
    assert(together.issues =~= moved(
        commit_template::parsed(b).issues,
        encode_utf8(a).len() + 10,
    ));
}

proof fn lemma_ten_bytes(s: Seq<char>)
    requires
        s == "[filename]"@,
    ensures
        encode_utf8(s).len() == 10,
{
    reveal_strlit("[filename]");
    is_ascii_chars_encode_utf8(s);
}

// ---- Validation of time formats ------------------------------------------

/// The template that asks for a timestamp alone.
pub open spec fn timestamp(format: Seq<char>) -> Seq<char> {
    seq!['[', 't', 'i', 'm', 'e', '='] + format + seq![']']
}

/// What is found wrong with a time format: the gravity and the message of each
/// issue, in order.
pub open spec fn findings(format: Seq<char>) -> Seq<(Severity, Seq<char>)> {
    commit_template::parsed(timestamp(format)).issues.map_values(
        |i: IssueView| (i.severity, i.message),
    )
}

/// The character is a letter: one of ASCII, or one that Unicode classes as
/// alphabetic.
pub open spec fn is_alphabetic(c: char) -> bool {
    if (c as u32) < 128 {
        'a' <= c <= 'z' || 'A' <= c <= 'Z'
    } else {
        text::unicode_alphabetic(c)
    }
}

/// The word repeats one letter of the time tokens.
pub open spec fn repeats_token_letter(word: Seq<char>) -> bool {
    let c = word[0];
    &&& c == 'y' || c == 'm' || c == 'd' || c == 's' || c == 'h'
    &&& forall|i: int| 0 <= i < word.len() ==> #[trigger] word[i] == c
}

/// What is said of a word in a time format that is no token.
pub open spec fn finding_of(word: Seq<char>) -> (Severity, Seq<char>) {
    if repeats_token_letter(word) {
        (
            Severity::HardError,
            "'"@ + word
                + "' is not a valid time token (did you mean 'yyyy'/'yy', 'mo', 'dd', 'mi', 'ss', '24hh', or '12hh'?)."@,
        )
    } else {
        (Severity::Warning, "'"@ + word + "' is not a recognized time token."@)
    }
}

proof fn lemma_timestamp(format: Seq<char>)
    requires
        !format.contains(']'),
    ensures
        ({
            let inner = "time="@ + format;
            &&& timestamp(format) == Piece::Bracket(inner).source()
            &&& commit_template::pieces(timestamp(format)) == seq![Piece::Bracket(inner)]
            &&& inner != "filename"@
            &&& commit_template::is_time_variable(inner)
            &&& commit_template::time_format(inner) == format
            &&& !inner.contains(']')
        }),
{
    let inner = "time="@ + format;
    reveal_strlit("time=");
    reveal_strlit("filename");
    assert(inner[0] == 't');
    assert("filename"@[0] == 'f');
    assert(inner.take(5) =~= "time="@);
    assert(inner.skip(5) =~= format);
    assert(!inner.contains(']')) by {
        if inner.contains(']') {
            let i = choose|i: int| 0 <= i < inner.len() && inner[i] == ']';
            assert(format[i - 5] == ']');
        }
    }
    lemma_bracket_alone(inner);
    assert(seq!['['] + inner + seq![']'] =~= timestamp(format));
}

proof fn lemma_findings(format: Seq<char>)
    requires
        !format.contains(']'),
    ensures
        findings(format) == commit_template::stray_words(format).map_values(
            |w: Seq<char>|
                {
                    let issue = commit_template::word_issue(w, (0, 0));
                    (issue.severity, issue.message)
                },
        ),
        ({
            let read = commit_template::parsed(timestamp(format));
            let piece = Piece::Bracket("time="@ + format);
            &&& read.issues == piece.issues(0)
            &&& read.segments == if commit_template::has_near_miss(
                commit_template::stray_words(format),
            ) {
                Seq::<SegmentView>::empty()
            } else {
                seq![SegmentView::Time(format)]
            }
        }),
{
    lemma_timestamp(format);
    let template = timestamp(format);
    let piece = Piece::Bracket("time="@ + format);
    let ps = commit_template::pieces(template);
    assert(ps.drop_last() =~= seq![]);
    assert(ps.last() == piece);
    assert(encode_utf8(Seq::<char>::empty()) =~= seq![]);
    assert(commit_template::sources(ps.drop_last()) =~= seq![]);
    assert(commit_template::issues_of(ps.drop_last()) =~= seq![]);
    assert(commit_template::issues_of(ps) =~= piece.issues(0));
    assert(commit_template::gathered(ps.drop_last()).segments =~= seq![]);
    assert(commit_template::gathered(ps.drop_last()).text =~= seq![]);
    assert(commit_template::parsed(template).segments =~= if commit_template::has_near_miss(
        commit_template::stray_words(format),
    ) {
        Seq::<SegmentView>::empty()
    } else {
        seq![SegmentView::Time(format)]
    });
    assert(findings(format) =~= commit_template::stray_words(format).map_values(
        |w: Seq<char>|
            {
                let issue = commit_template::word_issue(w, (0, 0));
                (issue.severity, issue.message)
            },
    ));
}

/// A timestamp whose format holds a hard error is left out; any other is used as it
/// is written. Every issue is about the whole of the timestamp.
pub proof fn law_timestamp_is_used_unless_it_blocks(format: Seq<char>)
    requires
        !format.contains(']'),
    ensures
        ({
            let read = commit_template::parsed(timestamp(format));
            let blocks = exists|i: int|
                0 <= i < findings(format).len() && (#[trigger] findings(format)[i]).0
                    == Severity::HardError;
            &&& blocks ==> read.segments == Seq::<SegmentView>::empty()
            &&& !blocks ==> read.segments == seq![SegmentView::Time(format)]
            &&& forall|i: int|
                0 <= i < read.issues.len() ==> (#[trigger] read.issues[i]).span == (
                    0nat,
                    encode_utf8(timestamp(format)).len(),
                )
        }),
{
    lemma_findings(format);
    lemma_timestamp(format);
    let words = commit_template::stray_words(format);
    let found = findings(format);
    if commit_template::has_near_miss(words) {
        let i = choose|i: int|
            0 <= i < words.len() && commit_template::is_near_miss(#[trigger] words[i]);
        assert(found[i].0 == Severity::HardError);
    } else {
        assert forall|i: int| 0 <= i < found.len() implies (#[trigger] found[i]).0
            != Severity::HardError by {
            assert(!commit_template::is_near_miss(words[i]));
        }
    }
}

proof fn lemma_no_bracket(a: Seq<char>, b: Seq<char>)
    requires
        !(a + b).contains(']'),
    ensures
        !a.contains(']'),
        !b.contains(']'),
{
    if a.contains(']') {
        let i = choose|i: int| 0 <= i < a.len() && a[i] == ']';
        assert((a + b)[i] == ']');
    }
    if b.contains(']') {
        let i = choose|i: int| 0 <= i < b.len() && b[i] == ']';
        assert((a + b)[a.len() + i] == ']');
    }
}

proof fn lemma_token_passed(token: TimeToken, format: Seq<char>)
    requires
        !format.contains(']'),
        token == TimeToken::Year2 ==> !time_laws::year2_mark().is_prefix_of(format),
    ensures
        findings(token.spelling() + format) == findings(format),
{
    let s = token.spelling() + format;
    time_laws::lemma_mark_is_read(token, format);
    assert(!s.contains(']')) by {
        if s.contains(']') {
            let i = choose|i: int| 0 <= i < s.len() && s[i] == ']';
            if i >= token.spelling().len() {
                assert(format[i - token.spelling().len()] == ']');
            }
        }
    }
    lemma_findings(s);
    lemma_findings(format);
}

/// A whole token is nothing wrong, and what follows it is read as if it stood alone;
/// so nothing that is wrong is missed behind a token.
pub proof fn law_tokens_are_no_findings(format: Seq<char>)
    requires
        !format.contains(']'),
    ensures
        findings(seq![]) == Seq::<(Severity, Seq<char>)>::empty(),
        findings(time_laws::year4_mark() + format) == findings(format),
        !time_laws::year2_mark().is_prefix_of(format) ==> findings(
            time_laws::year2_mark() + format,
        ) == findings(format),
        findings(time_laws::month_mark() + format) == findings(format),
        findings(time_laws::day_mark() + format) == findings(format),
        findings(time_laws::minute_mark() + format) == findings(format),
        findings(time_laws::second_mark() + format) == findings(format),
        findings(time_laws::hour24_mark() + format) == findings(format),
        findings(time_laws::hour12_mark() + format) == findings(format),
{
    lemma_token_passed(TimeToken::Year4, format);
    if !time_laws::year2_mark().is_prefix_of(format) {
        lemma_token_passed(TimeToken::Year2, format);
    }
    lemma_token_passed(TimeToken::Month, format);
    lemma_token_passed(TimeToken::Day, format);
    lemma_token_passed(TimeToken::Minute, format);
    lemma_token_passed(TimeToken::Second, format);
    lemma_token_passed(TimeToken::Hour24, format);
    lemma_token_passed(TimeToken::Hour12, format);
    lemma_findings(seq![]);
    assert(findings(seq![]) =~= seq![]);
}

/// A separator (a character that is no letter and begins no token) is nothing wrong,
/// and what follows it is read as if it stood alone; so nothing that is wrong is
/// missed behind a separator.
pub proof fn law_separators_are_no_findings(c: char, format: Seq<char>)
    requires
        !(seq![c] + format).contains(']'),
        !is_alphabetic(c),
        !time_laws::begins_with_mark(seq![c] + format),
    ensures
        findings(seq![c] + format) == findings(format),
{
    let s = seq![c] + format;
    lemma_no_bracket(seq![c], format);
    time_laws::lemma_no_mark(s);
    assert(s.skip(1) =~= format);
    lemma_findings(s);
    lemma_findings(format);
}

/// One of the findings is a hard error.
pub open spec fn blocks(format: Seq<char>) -> bool {
    exists|i: int|
        0 <= i < findings(format).len() && (#[trigger] findings(format)[i]).0
            == Severity::HardError
}

/// A near miss is a hard error behind any tokens and separators: what blocks alone
/// blocks behind one token or separator more, and so behind as many as there are.
pub proof fn law_near_miss_blocks_wherever_it_stands(c: char, word: Seq<char>, format: Seq<char>)
    requires
        !(seq![c] + format).contains(']'),
    ensures
        repeats_token_letter(word) && word.len() > 0 && !time_laws::begins_with_mark(word)
            ==> blocks(word),
        blocks(format) ==> {
            &&& !is_alphabetic(c) && !time_laws::begins_with_mark(seq![c] + format) ==> blocks(
                seq![c] + format,
            )
            &&& blocks(time_laws::year4_mark() + format)
            &&& !time_laws::year2_mark().is_prefix_of(format) ==> blocks(
                time_laws::year2_mark() + format,
            )
            &&& blocks(time_laws::month_mark() + format)
            &&& blocks(time_laws::day_mark() + format)
            &&& blocks(time_laws::minute_mark() + format)
            &&& blocks(time_laws::second_mark() + format)
            &&& blocks(time_laws::hour24_mark() + format)
            &&& blocks(time_laws::hour12_mark() + format)
        },
{
    lemma_no_bracket(seq![c], format);
    law_tokens_are_no_findings(format);
    if !is_alphabetic(c) && !time_laws::begins_with_mark(seq![c] + format) {
        law_separators_are_no_findings(c, format);
    }
    if repeats_token_letter(word) && word.len() > 0 && !time_laws::begins_with_mark(word) {
        let none = Seq::<char>::empty();
        assert(word + none =~= word);
        assert forall|i: int| 0 <= i < word.len() implies is_alphabetic(#[trigger] word[i]) by {
            assert(word[i] == word[0]);
        }
        assert(!word.contains(']'));
        law_words_are_found(word, none);
        assert(findings(word)[0] == finding_of(word));
    }
}

/// A word that begins no token is found once: as a hard error where it repeats one
/// letter of the tokens, else as a warning. What follows it is read as if it stood
/// alone.
pub proof fn law_words_are_found(word: Seq<char>, format: Seq<char>)
    requires
        !(word + format).contains(']'),
        word.len() > 0,
        forall|i: int| 0 <= i < word.len() ==> is_alphabetic(#[trigger] word[i]),
        format.len() > 0 ==> !is_alphabetic(format[0]),
        !time_laws::begins_with_mark(word + format),
    ensures
        findings(word + format) == seq![finding_of(word)] + findings(format),
{
    let s = word + format;
    lemma_no_bracket(word, format);
    time_laws::lemma_no_mark(s);
    lemma_run_of_word(word, format);
    assert(s[0] == word[0]);
    assert(is_alphabetic(word[0]));
    assert(s.skip(word.len() as int) =~= format);
    lemma_findings(s);
    lemma_findings(format);
    lemma_word_is_near_miss(word, format);
    let words = commit_template::stray_words(format);
    assert(commit_template::stray_words(s) == seq![word] + words);
    assert(findings(s) =~= seq![finding_of(word)] + findings(format));
}

proof fn lemma_run_of_word(word: Seq<char>, format: Seq<char>)
    requires
        forall|i: int| 0 <= i < word.len() ==> is_alphabetic(#[trigger] word[i]),
        format.len() > 0 ==> !is_alphabetic(format[0]),
    ensures
        commit_template::letter_run(word + format) == word,
    decreases word.len(),
{
    let s = word + format;
    if word.len() == 0 {
        assert(s =~= format);
        assert(commit_template::letter_run(s) =~= word);
    } else {
        let less = word.skip(1);
        assert forall|i: int| 0 <= i < less.len() implies is_alphabetic(#[trigger] less[i]) by {
            assert(is_alphabetic(word[i + 1]));
        }
        lemma_run_of_word(less, format);
        assert(s.skip(1) =~= less + format);
        assert(is_alphabetic(word[0]));
        assert(seq![word[0]] + less =~= word);
    }
}

proof fn lemma_word_is_near_miss(word: Seq<char>, format: Seq<char>)
    requires
        word.len() > 0,
        forall|i: int| 0 <= i < word.len() ==> is_alphabetic(#[trigger] word[i]),
        !time_laws::begins_with_mark(word + format),
    ensures
        commit_template::is_near_miss(word) <==> repeats_token_letter(word),
{
    let pred = |x: char| text::is_letter(x);
    assert forall|i: int| 0 <= i < word.len() implies pred(#[trigger] word[i]) by {
        assert(is_alphabetic(word[i]));
    }
    lemma_filter_keeps_all(word, pred);
    if commit_template::is_time_token(word) {
        let token = commit_template::token_at(word)->0;
        assert((word + format).take(word.len() as int) =~= word);
        assert(token.spelling().is_prefix_of(word + format));
        if token == TimeToken::Year4 {
            assert((word + format).take(2) =~= time_laws::year2_mark());
        }
    }
}

/// A text was meant as a time token and has the wrong shape where its letters are
/// one letter of the tokens, repeated, and it is none of the eight tokens.
pub proof fn law_malformed_tokens(tok: Seq<char>)
    ensures
        ({
            let letters = tok.filter(|c: char| is_alphabetic(c));
            commit_template::is_near_miss(tok) <==> {
                &&& letters.len() > 0
                &&& repeats_token_letter(letters)
                &&& tok != time_laws::year4_mark()
                &&& tok != time_laws::year2_mark()
                &&& tok != time_laws::month_mark()
                &&& tok != time_laws::day_mark()
                &&& tok != time_laws::minute_mark()
                &&& tok != time_laws::second_mark()
                &&& tok != time_laws::hour24_mark()
                &&& tok != time_laws::hour12_mark()
            }
        }),
{
    let f = |c: char| is_alphabetic(c);
    let g = |c: char| text::is_letter(c);
    assert(f =~= g);
    lemma_whole_token(TimeToken::Year4, tok);
    lemma_whole_token(TimeToken::Year2, tok);
    lemma_whole_token(TimeToken::Month, tok);
    lemma_whole_token(TimeToken::Day, tok);
    lemma_whole_token(TimeToken::Minute, tok);
    lemma_whole_token(TimeToken::Second, tok);
    lemma_whole_token(TimeToken::Hour24, tok);
    lemma_whole_token(TimeToken::Hour12, tok);
    assert(commit_template::is_time_token(tok) ==> tok
        == commit_template::token_at(tok)->0.spelling());
}

proof fn lemma_whole_token(token: TimeToken, tok: Seq<char>)
    ensures
        tok == token.spelling() ==> commit_template::is_time_token(tok),
{
    if tok == token.spelling() {
        let none = Seq::<char>::empty();
        assert(tok + none =~= tok);
        time_laws::lemma_mark_is_read(token, none);
    }
}

// ---- The message and the issues, from the front --------------------------

/// The message of a template.
pub open spec fn message_of(
    template: Seq<char>,
    filename: Option<Seq<char>>,
    now: CivilTime,
) -> Seq<char> {
    commit_template::rendered(commit_template::parsed(template).segments, filename, now)
}

/// A template of which a start is known: what the start adds to the message, and
/// what is wrong with it; the issues of the rest are moved by the bytes of the start.
pub open spec fn starts_with_piece(
    start: Seq<char>,
    rest: Seq<char>,
    shown: Seq<char>,
    issues: Seq<IssueView>,
    filename: Option<Seq<char>>,
    now: CivilTime,
) -> bool {
    let whole = start + rest;
    &&& message_of(whole, filename, now) == shown + message_of(rest, filename, now)
    &&& commit_template::parsed(whole).issues == issues + moved(
        commit_template::parsed(rest).issues,
        encode_utf8(start).len(),
    )
}

proof fn lemma_first_of(piece: Piece, rest: Seq<char>, filename: Option<Seq<char>>, now: CivilTime)
    requires
        ({
            let whole = piece.source() + rest;
            &&& whole.len() > 0
            &&& commit_template::first_piece(whole) == piece
        }),
    ensures
        starts_with_piece(
            piece.source(),
            rest,
            piece_text(piece, filename, now),
            piece.issues(0),
            filename,
            now,
        ),
        commit_template::pieces(piece.source() + rest) == seq![piece] + commit_template::pieces(
            rest,
        ),
{
    let whole = piece.source() + rest;
    let qs = commit_template::pieces(rest);
    assert(whole.skip(piece.source().len() as int) =~= rest);
    assert(commit_template::pieces(whole) == seq![piece] + qs);
    law_message_is_made_piece_by_piece(whole, filename, now);
    law_message_is_made_piece_by_piece(rest, filename, now);
    lemma_texts_prepend(piece, qs, filename, now);
    let one = seq![piece];
    lemma_issues_concat(one, qs);
    assert(one.drop_last() =~= seq![]);
    assert(encode_utf8(Seq::<char>::empty()) =~= seq![]);
    assert(commit_template::sources(one.drop_last()) =~= seq![]);
    assert(commit_template::issues_of(one.drop_last()) =~= seq![]);
    assert(commit_template::issues_of(one) =~= piece.issues(0));
    assert(commit_template::sources(one) =~= piece.source());
}

/// Literal text: a character that is neither a backslash nor an opening bracket
/// stands for itself, an escaped bracket for the bracket, and a backslash before any
/// other character for itself and the character. Nothing is wrong with them. A
/// template without text has an empty message.
pub proof fn law_literal_text(
    c: char,
    rest: Seq<char>,
    filename: Option<Seq<char>>,
    now: CivilTime,
)
    ensures
        c != '\\' && c != '[' ==> starts_with_piece(
            seq![c],
            rest,
            seq![c],
            seq![],
            filename,
            now,
        ),
        starts_with_piece(
            seq!['\\', c],
            rest,
            if c == '[' || c == ']' {
                seq![c]
            } else {
                seq!['\\', c]
            },
            seq![],
            filename,
            now,
        ),
        message_of(seq![], filename, now) == Seq::<char>::empty(),
        commit_template::parsed(seq![]).issues == Seq::<IssueView>::empty(),
{
    if c != '\\' && c != '[' {
        assert((seq![c] + rest)[0] == c);
        lemma_first_of(Piece::Plain(c), rest, filename, now);
        assert(Piece::Plain(c).issues(0) =~= seq![]);
    }
    let whole = seq!['\\', c] + rest;
    assert(whole[0] == '\\' && whole[1] == c);
    if c == '[' || c == ']' {
        lemma_first_of(Piece::Escape(c), rest, filename, now);
        assert(Piece::Escape(c).issues(0) =~= seq![]);
    } else {
        lemma_first_of(Piece::Backslash(c), rest, filename, now);
        assert(Piece::Backslash(c).issues(0) =~= seq![]);
    }
    assert(commit_template::pieces(seq![]) =~= seq![]);
    law_message_is_made_piece_by_piece(seq![], filename, now);
    assert(piece_texts(seq![], filename, now) =~= seq![]);
    assert(commit_template::issues_of(seq![]) =~= seq![]);
}

/// What cannot be read at the end of a template stays in the message, with one
/// warning that covers it: a backslash with nothing behind it, and an opening bracket
/// without a closing one, with all that follows.
pub proof fn law_open_ends_stay(
    unclosed: Seq<char>,
    filename: Option<Seq<char>>,
    now: CivilTime,
)
    requires
        !unclosed.contains(']'),
    ensures
        ({
            let template = seq!['['] + unclosed;
            &&& message_of(template, filename, now) == template
            &&& commit_template::parsed(template).issues == seq![
                IssueView {
                    severity: Severity::Warning,
                    message: "Unmatched '[' with no closing ']'; treated as literal text."@,
                    span: (0, encode_utf8(template).len()),
                },
            ]
        }),
        message_of(seq!['\\'], filename, now) == seq!['\\'],
        commit_template::parsed(seq!['\\']).issues == seq![
            IssueView {
                severity: Severity::Warning,
                message: "Trailing '\\' with nothing to escape; kept as literal."@,
                span: (0, 1),
            },
        ],
{
    let none = Seq::<char>::empty();
    law_literal_text(' ', none, filename, now);
    let template = seq!['['] + unclosed;
    assert(!template.contains(']')) by {
        if template.contains(']') {
            let i = choose|i: int| 0 <= i < template.len() && template[i] == ']';
            assert(unclosed[i - 1] == ']');
        }
    }
    let piece = Piece::Unclosed(template);
    assert(template + none =~= template);
    lemma_first_of(piece, none, filename, now);
    assert(template + none =~= template);
    assert(moved(seq![], encode_utf8(template).len()) =~= seq![]);
    assert(piece.issues(0) + Seq::<IssueView>::empty() =~= piece.issues(0));
    let lone = seq!['\\'];
    assert(lone + none =~= lone);
    lemma_first_of(Piece::Trailing, none, filename, now);
    is_ascii_chars_encode_utf8(lone);
    assert(moved(seq![], encode_utf8(lone).len()) =~= seq![]);
    assert(Piece::Trailing.issues(0) + Seq::<IssueView>::empty() =~= Piece::Trailing.issues(0));
}

/// What stands between brackets: the name of the file, or `multiple files` where
/// none is given; a timestamp, which shows its format unless it blocks and is found
/// wrong as it is alone; and anything else, which stays with a warning.
pub proof fn law_variables(
    inner: Seq<char>,
    rest: Seq<char>,
    filename: Option<Seq<char>>,
    now: CivilTime,
)
    requires
        !inner.contains(']'),
    ensures
        ({
            let start = seq!['['] + inner + seq![']'];
            let time = seq!['t', 'i', 'm', 'e', '='];
            if inner == seq!['f', 'i', 'l', 'e', 'n', 'a', 'm', 'e'] {
                starts_with_piece(
                    start,
                    rest,
                    match filename {
                        Some(name) => name,
                        None => "multiple files"@,
                    },
                    seq![],
                    filename,
                    now,
                )
            } else if time.is_prefix_of(inner) {
                let format = inner.skip(5);
                starts_with_piece(
                    start,
                    rest,
                    if commit_template::parsed(timestamp(format)).segments.len() == 0 {
                        seq![]
                    } else {
                        commit_template::time_text(format, now)
                    },
                    commit_template::parsed(timestamp(format)).issues,
                    filename,
                    now,
                )
            } else {
                starts_with_piece(
                    start,
                    rest,
                    start,
                    seq![
                        IssueView {
                            severity: Severity::Warning,
                            message: "'["@ + inner
                                + "]' is not a recognized variable; treated as literal text."@,
                            span: (0, encode_utf8(start).len()),
                        },
                    ],
                    filename,
                    now,
                )
            }
        }),
{
    let start = seq!['['] + inner + seq![']'];
    let piece = Piece::Bracket(inner);
    reveal_strlit("filename");
    reveal_strlit("time=");
    assert("filename"@ =~= seq!['f', 'i', 'l', 'e', 'n', 'a', 'm', 'e']);
    assert("time="@ =~= seq!['t', 'i', 'm', 'e', '=']);
    lemma_bracket_first(inner, rest);
    lemma_first_of(piece, rest, filename, now);
    if inner == "filename"@ {
        assert(piece.issues(0) =~= seq![]);
    } else if commit_template::is_time_variable(inner) {
        let format = inner.skip(5);
        assert("time="@ + format =~= inner);
        assert(!format.contains(']')) by {
            if format.contains(']') {
                let i = choose|i: int| 0 <= i < format.len() && format[i] == ']';
                assert(inner[i + 5] == ']');
            }
        }
        lemma_findings(format);
    } else {
        assert(piece.issues(0) =~= seq![
            IssueView {
                severity: Severity::Warning,
                message: "'["@ + inner
                    + "]' is not a recognized variable; treated as literal text."@,
                span: (0, encode_utf8(start).len()),
            },
        ]);
    }
}

// ---- Segments ------------------------------------------------------------

/// The message of segments is that of each, one after the other: literal text as it
/// is, the name of the file or `multiple files`, and the timestamp.
pub proof fn law_segments_are_rendered_in_order(
    segments: Seq<SegmentView>,
    segment: SegmentView,
    filename: Option<Seq<char>>,
    now: CivilTime,
)
    ensures
        commit_template::rendered(seq![], filename, now) == Seq::<char>::empty(),
        commit_template::rendered(segments.push(segment), filename, now)
            == commit_template::rendered(segments, filename, now) + match segment {
            SegmentView::Literal(text) => text,
            SegmentView::Filename => match filename {
                Some(name) => name,
                None => "multiple files"@,
            },
            SegmentView::Time(format) => commit_template::time_text(format, now),
        },
{
    assert(segments.push(segment).drop_last() =~= segments);
}

/// The name of the file is taken as it is given.
pub proof fn law_given_name_is_taken(name: &str)
    ensures
        commit_template::name_view(Some(name)) == Some(name@),
        commit_template::name_view(None) is None,
{
}

/// The segments with some literal text in front: it joins literal text that they
/// start with, and is a segment of its own otherwise.
pub open spec fn with_text_in_front(text: Seq<char>, segments: Seq<SegmentView>) -> Seq<
    SegmentView,
> {
    if segments.len() > 0 && segments[0] is Literal {
        seq![SegmentView::Literal(text + segments[0]->Literal_0)] + segments.skip(1)
    } else {
        seq![SegmentView::Literal(text)] + segments
    }
}

/// None of the pieces is a timestamp that is left out.
spec fn all_used(ps: Seq<Piece>) -> bool {
    forall|k: int| 0 <= k < ps.len() ==> (#[trigger] ps[k]).effect() != Effect::Variable(None)
}

/// Pieces behind others, as they are gathered.
proof fn lemma_gathered_behind(piece: Piece, qs: Seq<Piece>)
    requires
        all_used(seq![piece] + qs),
        piece.effect() matches Effect::Text(t) ==> t.len() > 0,
    ensures
        ({
            let all = commit_template::gathered(seq![piece] + qs);
            let others = commit_template::gathered(qs);
            match piece.effect() {
                Effect::Text(t) => if others.segments.len() == 0 {
                    &&& all.segments.len() == 0
                    &&& all.text == t + others.text
                } else {
                    &&& all.segments == with_text_in_front(t, others.segments)
                    &&& all.text == others.text
                },
                Effect::Variable(Some(segment)) => {
                    &&& all.segments == seq![segment] + others.segments
                    &&& all.text == others.text
                },
                Effect::Variable(None) => true,
            }
        }),
    decreases qs.len(),
{
    let ps = seq![piece] + qs;
    assert(ps[0] == piece);
    assert(piece.effect() != Effect::Variable(None));
    let all = commit_template::gathered(ps);
    let others = commit_template::gathered(qs);
    reveal_with_fuel(commit_template::gathered, 2);
    if qs.len() == 0 {
        assert(ps.drop_last() =~= seq![]);
        assert(ps.last() == piece);
        match piece.effect() {
            Effect::Text(t) => {
                assert(all.text =~= t + others.text);
            },
            Effect::Variable(Some(segment)) => {
                assert(all.segments =~= seq![segment] + others.segments);
            },
            Effect::Variable(None) => {},
        }
    } else {
        let less = qs.drop_last();
        assert(ps.drop_last() =~= seq![piece] + less);
        assert(all_used(seq![piece] + less)) by {
            assert forall|k: int| 0 <= k < (seq![piece] + less).len() implies (
            #[trigger] (seq![piece] + less)[k]).effect() != Effect::Variable(None) by {
                assert(ps[k].effect() != Effect::Variable(None));
            }
        }
        lemma_gathered_behind(piece, less);
        let before_all = commit_template::gathered(ps.drop_last());
        let before = commit_template::gathered(less);
        assert(ps.last() == qs.last());
        assert(ps[ps.len() - 1].effect() != Effect::Variable(None));
        match (piece.effect(), qs.last().effect()) {
            (Effect::Text(t), Effect::Text(more)) => {
                if before.segments.len() == 0 {
                    assert(all.text =~= t + others.text);
                }
            },
            (Effect::Text(t), Effect::Variable(Some(segment))) => {
                assert(others.segments.len() > 0);
                assert(all.segments =~= with_text_in_front(t, others.segments)) by {
                    if before.segments.len() == 0 {
                        if before.text.len() > 0 {
                            assert(before_all.text == t + before.text);
                        } else {
                            assert(before_all.text =~= t);
                            assert(others.segments =~= seq![segment]);
                            lemma_variable_is_no_literal(qs.last());
                        }
                    }
                }
            },
            (Effect::Variable(Some(first)), Effect::Variable(Some(segment))) => {
                assert(all.segments =~= seq![first] + others.segments);
            },
            _ => {},
        }
    }
}

proof fn lemma_variable_is_no_literal(piece: Piece)
    ensures
        piece.effect() matches Effect::Variable(Some(segment)) ==> !(segment is Literal),
{
}

/// The segments of a template by its first piece.
proof fn lemma_segments_from_the_front(piece: Piece, rest: Seq<char>)
    requires
        ({
            let whole = piece.source() + rest;
            &&& whole.len() > 0
            &&& commit_template::first_piece(whole) == piece
            &&& forall|i: int|
                0 <= i < commit_template::parsed(whole).issues.len() ==> (
                #[trigger] commit_template::parsed(whole).issues[i]).severity == Severity::Warning
        }),
    ensures
        ({
            let segments = commit_template::parsed(piece.source() + rest).segments;
            let others = commit_template::parsed(rest).segments;
            match piece {
                Piece::Escape(c) => segments == with_text_in_front(seq![c], others),
                Piece::Bracket(inner) => if inner == seq![
                    'f',
                    'i',
                    'l',
                    'e',
                    'n',
                    'a',
                    'm',
                    'e',
                ] {
                    segments == seq![SegmentView::Filename] + others
                } else if seq!['t', 'i', 'm', 'e', '='].is_prefix_of(inner) {
                    segments == seq![SegmentView::Time(inner.skip(5))] + others
                } else {
                    segments == with_text_in_front(piece.source(), others)
                },
                _ => segments == with_text_in_front(piece.source(), others),
            }
        }),
{
    let whole = piece.source() + rest;
    let ps = commit_template::pieces(whole);
    let qs = commit_template::pieces(rest);
    let now = CivilTime { year: 0, month: 0, day: 0, hour: 0, minute: 0, second: 0 };
    lemma_first_of(piece, rest, None, now);
    reveal_strlit("filename");
    reveal_strlit("time=");
    assert("filename"@ =~= seq!['f', 'i', 'l', 'e', 'n', 'a', 'm', 'e']);
    assert("time="@ =~= seq!['t', 'i', 'm', 'e', '=']);
    law_only_time_faults_block(whole);
    assert(all_used(ps)) by {
        assert forall|k: int| 0 <= k < ps.len() implies (#[trigger] ps[k]).effect()
            != Effect::Variable(None) by {
            assert(!is_faulty(ps[k]));
        }
    }
    assert(ps[0] == piece);
    commit_template::lemma_first_piece(whole);
    lemma_gathered_behind(piece, qs);
    let all = commit_template::gathered(ps);
    let others = commit_template::gathered(qs);
    let segments = commit_template::parsed(whole).segments;
    let behind = commit_template::parsed(rest).segments;
    match piece.effect() {
        Effect::Text(t) => {
            assert(segments =~= with_text_in_front(t, behind)) by {
                if others.segments.len() == 0 {
                    if others.text.len() == 0 {
                        assert(all.text =~= t);
                    }
                }
            }
        },
        Effect::Variable(Some(segment)) => {
            assert(segments =~= seq![segment] + behind);
        },
        Effect::Variable(None) => {},
    }
}

/// None of the issues of a template is a hard error.
pub open spec fn does_not_block(template: Seq<char>) -> bool {
    let issues = commit_template::parsed(template).issues;
    forall|i: int| 0 <= i < issues.len() ==> (#[trigger] issues[i]).severity == Severity::Warning
}

/// Where a template does not block, literal text at its start joins the literal text
/// that the rest starts with, and is a segment of its own before a variable. No text
/// has no segments.
pub proof fn law_literal_text_is_joined(c: char, rest: Seq<char>)
    ensures
        commit_template::parsed(seq![]).segments == Seq::<SegmentView>::empty(),
        ({
            let whole = seq![c] + rest;
            c != '\\' && c != '[' && does_not_block(whole) ==> commit_template::parsed(
                whole,
            ).segments == with_text_in_front(seq![c], commit_template::parsed(rest).segments)
        }),
        ({
            let whole = seq!['\\', c] + rest;
            does_not_block(whole) ==> commit_template::parsed(whole).segments
                == with_text_in_front(
                if c == '[' || c == ']' {
                    seq![c]
                } else {
                    seq!['\\', c]
                },
                commit_template::parsed(rest).segments,
            )
        }),
{
    assert(commit_template::pieces(seq![]) =~= seq![]);
    assert(commit_template::gathered(seq![]).flushed() =~= seq![]);
    let plain = seq![c] + rest;
    assert(plain[0] == c);
    if c != '\\' && c != '[' && does_not_block(plain) {
        lemma_segments_from_the_front(Piece::Plain(c), rest);
    }
    let whole = seq!['\\', c] + rest;
    assert(whole[0] == '\\' && whole[1] == c);
    if does_not_block(whole) {
        if c == '[' || c == ']' {
            lemma_segments_from_the_front(Piece::Escape(c), rest);
        } else {
            lemma_segments_from_the_front(Piece::Backslash(c), rest);
        }
    }
}

/// Where a template does not block, the name of the file and a timestamp at its start
/// are segments of their own; other bracketed text is literal text.
pub proof fn law_variables_are_segments(inner: Seq<char>, rest: Seq<char>)
    requires
        !inner.contains(']'),
        does_not_block(seq!['['] + inner + seq![']'] + rest),
    ensures
        ({
            let start = seq!['['] + inner + seq![']'];
            let segments = commit_template::parsed(start + rest).segments;
            let others = commit_template::parsed(rest).segments;
            if inner == seq!['f', 'i', 'l', 'e', 'n', 'a', 'm', 'e'] {
                segments == seq![SegmentView::Filename] + others
            } else if seq!['t', 'i', 'm', 'e', '='].is_prefix_of(inner) {
                segments == seq![SegmentView::Time(inner.skip(5))] + others
            } else {
                segments == with_text_in_front(start, others)
            }
        }),
{
    lemma_bracket_first(inner, rest);
    lemma_segments_from_the_front(Piece::Bracket(inner), rest);
}

proof fn lemma_bracket_first(inner: Seq<char>, rest: Seq<char>)
    requires
        !inner.contains(']'),
    ensures
        commit_template::first_piece(seq!['['] + inner + seq![']'] + rest) == Piece::Bracket(inner),
{
    let whole = seq!['['] + inner + seq![']'] + rest;
    let close = inner.len() + 1;
    assert forall|k: int| 0 <= k < close implies whole[k] != ']' by {
        if k > 0 {
            assert(whole[k] == inner[k - 1]);
            assert(inner.contains(inner[k - 1]));
        }
    }
    assert(whole[close as int] == ']');
    text::lemma_position_is(whole, ']', close as int);
    assert(whole.subrange(1, close as int) =~= inner);
}

} // verus!
