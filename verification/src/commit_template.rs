//! Commit message templates.
//!
//! A template holds literal text and these forms:
//!   `[filename]`                   the path of the file, from the project root
//!   `[time=yy/mo/dd 24hh:mi:ss]`   a formatted timestamp
//!   `\[` and `\]`                  literal brackets
//!
//! `\x` for any other `x` is two literal characters. What cannot be read is
//! reported: an unrecognised form, or an unrecognised word in a time format, is a
//! warning and stays in the text; a time token of the wrong shape (such as `yyy`)
//! is a hard error, which blocks the push.

use crate::text;
use crate::text::{chars_of, find_char, matches_at, push_zero_padded, text_is, text_of_range};
use vstd::prelude::*;
use vstd::utf8::*;

verus! {

// ---- Types ---------------------------------------------------------------

/// One part of a parsed template.
#[derive(Debug, Clone, PartialEq)]
pub enum Segment {
    Literal(String),
    Filename,
    /// The format text behind `time=`, such as `yy/mo/dd 24hh:mi:ss`.
    Time(String),
}

/// How grave an issue is: a warning lets the push go on, a hard error does not.
#[derive(Debug, Clone, Copy, PartialEq, Eq, Structural)]
pub enum Severity {
    Warning,
    HardError,
}

/// Something that the template says and that cannot be read as meant.
#[derive(Debug, PartialEq)]
pub struct ValidationIssue {
    pub severity: Severity,
    pub message: String,
    /// The bytes of the template that the issue is about, from the first to
    /// behind the last.
    pub span: (usize, usize),
}

impl Clone for ValidationIssue {
    fn clone(&self) -> (copy: ValidationIssue)
        ensures
            copy@ == self@,
    {
        ValidationIssue {
            severity: self.severity,
            message: self.message.clone(),
            span: (self.span.0, self.span.1),
        }
    }
}

/// What a template says.
#[derive(Debug, Clone)]
pub struct ParseResult {
    pub segments: Vec<Segment>,
    pub issues: Vec<ValidationIssue>,
}

/// The model of a segment.
pub enum SegmentView {
    Literal(Seq<char>),
    Filename,
    Time(Seq<char>),
}

impl View for Segment {
    type V = SegmentView;

    open spec fn view(&self) -> SegmentView {
        match self {
            Segment::Literal(text) => SegmentView::Literal(text@),
            Segment::Filename => SegmentView::Filename,
            Segment::Time(format) => SegmentView::Time(format@),
        }
    }
}

/// The model of an issue.
pub struct IssueView {
    pub severity: Severity,
    pub message: Seq<char>,
    pub span: (nat, nat),
}

impl View for ValidationIssue {
    type V = IssueView;

    open spec fn view(&self) -> IssueView {
        IssueView {
            severity: self.severity,
            message: self.message@,
            span: (self.span.0 as nat, self.span.1 as nat),
        }
    }
}

/// The model of a parse result.
pub struct ParseView {
    pub segments: Seq<SegmentView>,
    pub issues: Seq<IssueView>,
}

impl View for ParseResult {
    type V = ParseView;

    open spec fn view(&self) -> ParseView {
        ParseView {
            segments: segment_views(self.segments@),
            issues: issue_views(self.issues@),
        }
    }
}

/// The models of a sequence of segments.
pub open spec fn segment_views(segments: Seq<Segment>) -> Seq<SegmentView> {
    segments.map_values(|s: Segment| s@)
}

/// The models of a sequence of issues.
pub open spec fn issue_views(issues: Seq<ValidationIssue>) -> Seq<IssueView> {
    issues.map_values(|i: ValidationIssue| i@)
}

/// One of the issues is a hard error.
pub open spec fn any_hard_error(issues: Seq<IssueView>) -> bool {
    exists|i: int| 0 <= i < issues.len() && #[trigger] issues[i].severity == Severity::HardError
}

impl ParseResult {
    /// Whether the template may not be pushed with.
    pub fn has_hard_error(&self) -> (found: bool)
        ensures
            found == any_hard_error(self@.issues),
            found == exists|i: int|
                0 <= i < self.issues@.len() && (#[trigger] self.issues@[i]).severity
                    == Severity::HardError,
    {
        for i in 0..self.issues.len()
            invariant
                forall|k: int|
                    0 <= k < i ==> (#[trigger] self.issues@[k]).severity != Severity::HardError,
        {
            if self.issues[i].severity == Severity::HardError {
                assert(self@.issues[i as int].severity == Severity::HardError);
                return true;
            }
        }
        assert forall|k: int| 0 <= k < self@.issues.len() implies #[trigger]
            self@.issues[k].severity != Severity::HardError by {
            assert(self.issues@[k].severity != Severity::HardError);
        }
        false
    }
}

// ---- Time tokens ---------------------------------------------------------

/// The tokens of a time format.
#[derive(Debug, Clone, Copy, PartialEq, Eq, Structural)]
pub enum TimeToken {
    Year4,
    Year2,
    Month,
    Day,
    Minute,
    Second,
    Hour24,
    Hour12,
}

impl TimeToken {
    /// How the token is written.
    pub open spec fn spelling(self) -> Seq<char> {
        match self {
            TimeToken::Year4 => seq!['y', 'y', 'y', 'y'],
            TimeToken::Year2 => seq!['y', 'y'],
            TimeToken::Month => seq!['m', 'o'],
            TimeToken::Day => seq!['d', 'd'],
            TimeToken::Minute => seq!['m', 'i'],
            TimeToken::Second => seq!['s', 's'],
            TimeToken::Hour24 => seq!['2', '4', 'h', 'h'],
            TimeToken::Hour12 => seq!['1', '2', 'h', 'h'],
        }
    }

    fn chars(self) -> (chars: Vec<char>)
        ensures
            chars@ == self.spelling(),
    {
        match self {
            TimeToken::Year4 => vec!['y', 'y', 'y', 'y'],
            TimeToken::Year2 => vec!['y', 'y'],
            TimeToken::Month => vec!['m', 'o'],
            TimeToken::Day => vec!['d', 'd'],
            TimeToken::Minute => vec!['m', 'i'],
            TimeToken::Second => vec!['s', 's'],
            TimeToken::Hour24 => vec!['2', '4', 'h', 'h'],
            TimeToken::Hour12 => vec!['1', '2', 'h', 'h'],
        }
    }
}

/// The longest time token that the text begins with.
pub open spec fn token_at(s: Seq<char>) -> Option<TimeToken> {
    if TimeToken::Year4.spelling().is_prefix_of(s) {
        Some(TimeToken::Year4)
    } else if TimeToken::Hour24.spelling().is_prefix_of(s) {
        Some(TimeToken::Hour24)
    } else if TimeToken::Hour12.spelling().is_prefix_of(s) {
        Some(TimeToken::Hour12)
    } else if TimeToken::Year2.spelling().is_prefix_of(s) {
        Some(TimeToken::Year2)
    } else if TimeToken::Month.spelling().is_prefix_of(s) {
        Some(TimeToken::Month)
    } else if TimeToken::Day.spelling().is_prefix_of(s) {
        Some(TimeToken::Day)
    } else if TimeToken::Minute.spelling().is_prefix_of(s) {
        Some(TimeToken::Minute)
    } else if TimeToken::Second.spelling().is_prefix_of(s) {
        Some(TimeToken::Second)
    } else {
        None
    }
}

/// The longest time token at a position.
fn find_token(chars: &Vec<char>, at: usize) -> (token: Option<TimeToken>)
    requires
        at <= chars@.len(),
    ensures
        token == token_at(chars@.skip(at as int)),
{
    if matches_at(chars, at, &TimeToken::Year4.chars()) {
        Some(TimeToken::Year4)
    } else if matches_at(chars, at, &TimeToken::Hour24.chars()) {
        Some(TimeToken::Hour24)
    } else if matches_at(chars, at, &TimeToken::Hour12.chars()) {
        Some(TimeToken::Hour12)
    } else if matches_at(chars, at, &TimeToken::Year2.chars()) {
        Some(TimeToken::Year2)
    } else if matches_at(chars, at, &TimeToken::Month.chars()) {
        Some(TimeToken::Month)
    } else if matches_at(chars, at, &TimeToken::Day.chars()) {
        Some(TimeToken::Day)
    } else if matches_at(chars, at, &TimeToken::Minute.chars()) {
        Some(TimeToken::Minute)
    } else if matches_at(chars, at, &TimeToken::Second.chars()) {
        Some(TimeToken::Second)
    } else {
        None
    }
}

/// The text is exactly one time token.
pub open spec fn is_time_token(s: Seq<char>) -> bool {
    token_at(s) matches Some(token) && token.spelling() == s
}

/// The letters that time tokens are made of.
pub open spec fn is_token_letter(c: char) -> bool {
    c == 'y' || c == 'm' || c == 'd' || c == 's' || c == 'h'
}

/// Every character is `c`.
pub open spec fn all_are(s: Seq<char>, c: char) -> bool {
    forall|i: int| 0 <= i < s.len() ==> #[trigger] s[i] == c
}

/// A near miss: the letters in the text are one token letter repeated, and the
/// text is no time token.
pub open spec fn is_near_miss(text: Seq<char>) -> bool {
    let letters = text.filter(|c: char| text::is_letter(c));
    &&& letters.len() > 0
    &&& is_token_letter(letters[0])
    &&& all_are(letters, letters[0])
    &&& !is_time_token(text)
}

/// Whether a text was meant as a time token and has the wrong shape, such as
/// `yyy` or `mmm`.
pub fn looks_like_malformed_time_token(tok: &str) -> (malformed: bool)
    ensures
        malformed == is_near_miss(tok@),
{
    let chars = chars_of(tok);
    let ghost pred = |c: char| text::is_letter(c);
    let mut first: Option<char> = None;
    let mut all_same = true;
    for i in 0..chars.len()
        invariant
            chars@ == tok@,
            pred == (|c: char| text::is_letter(c)),
            ({
                let letters = chars@.take(i as int).filter(pred);
                &&& first is None <==> letters.len() == 0
                &&& first is Some ==> first == Some(letters[0])
                &&& all_same <==> all_are(letters, letters[0])
            }),
    {
        let ghost letters = chars@.take(i as int).filter(pred);
        let c = chars[i];
        proof {
            assert(chars@.take(i + 1) =~= chars@.take(i as int).push(c));
            chars@.take(i as int).lemma_filter_push(c, pred);
        }
        let ghost grown = chars@.take(i + 1).filter(pred);
        if c.is_alphabetic() {
            assert(grown == letters.push(c));
            match first {
                None => {
                    first = Some(c);
                },
                Some(f) => {
                    assert(grown[0] == letters[0]);
                    if c != f {
                        assert(grown[letters.len() as int] != grown[0]);
                        all_same = false;
                    } else if all_same {
                        assert forall|k: int| 0 <= k < grown.len() implies #[trigger] grown[k]
                            == grown[0] by {
                            if k < letters.len() {
                                assert(letters[k] == letters[0]);
                            }
                        }
                    } else {
                        let ghost bad = choose|k: int|
                            0 <= k < letters.len() && #[trigger] letters[k] != letters[0];
                        assert(grown[bad] != grown[0]);
                    }
                },
            }
        }
    }
    assert(chars@.take(chars@.len() as int) =~= chars@);
    match first {
        None => false,
        Some(f) => {
            if all_same && (f == 'y' || f == 'm' || f == 'd' || f == 's' || f == 'h') {
                let token = find_token(&chars, 0);
                assert(chars@.skip(0) =~= chars@);
                match token {
                    None => true,
                    Some(t) => {
                        let whole = t.chars().len() == chars.len();
                        proof {
                            assert(t.spelling().is_prefix_of(chars@));
                            if t.spelling().len() == chars@.len() {
                                assert(t.spelling() =~= chars@);
                            }
                        }
                        !whole
                    },
                }
            } else {
                false
            }
        },
    }
}

/// The letters at the start of the text, up to the first character that is none.
pub open spec fn letter_run(s: Seq<char>) -> Seq<char>
    decreases s.len(),
{
    if s.len() == 0 || !text::is_letter(s[0]) {
        seq![]
    } else {
        seq![s[0]] + letter_run(s.skip(1))
    }
}

/// The words in a time format that are no time tokens, in order: read from the
/// left, a time token is passed over, a run of other letters is one word, and any
/// other character separates.
pub open spec fn stray_words(format: Seq<char>) -> Seq<Seq<char>>
    decreases format.len(),
{
    if format.len() == 0 {
        seq![]
    } else if token_at(format) is Some {
        stray_words(format.skip(token_at(format)->0.spelling().len() as int))
    } else if text::is_letter(format[0]) {
        let run = letter_run(format);
        proof {
            lemma_letter_run(format);
        }
        seq![run] + stray_words(format.skip(run.len() as int))
    } else {
        stray_words(format.skip(1))
    }
}

/// One of the words is a near miss.
pub open spec fn has_near_miss(words: Seq<Seq<char>>) -> bool {
    exists|i: int| 0 <= i < words.len() && is_near_miss(#[trigger] words[i])
}

/// A run of letters is a prefix; it is not empty where a letter stands first.
pub proof fn lemma_letter_run(s: Seq<char>)
    ensures
        letter_run(s).is_prefix_of(s),
        s.len() > 0 && text::is_letter(s[0]) ==> letter_run(s).len() > 0,
        forall|i: int|
            0 <= i < letter_run(s).len() ==> text::is_letter(#[trigger] letter_run(s)[i]),
        letter_run(s).len() < s.len() ==> !text::is_letter(s[letter_run(s).len() as int]),
    decreases s.len(),
{
    if s.len() > 0 && text::is_letter(s[0]) {
        lemma_letter_run(s.skip(1));
        let run = letter_run(s);
        let rest = letter_run(s.skip(1));
        assert(run =~= s.take(run.len() as int)) by {
            assert(rest =~= s.skip(1).take(rest.len() as int));
            assert forall|i: int| 0 <= i < run.len() implies run[i] == s[i] by {
                if i > 0 {
                    assert(run[i] == rest[i - 1]);
                    assert(rest[i - 1] == s.skip(1)[i - 1]);
                }
            }
        }
        assert forall|i: int| 0 <= i < run.len() implies text::is_letter(#[trigger] run[i]) by {
            if i > 0 {
                assert(run[i] == rest[i - 1]);
            }
        }
        if run.len() < s.len() {
            assert(s[run.len() as int] == s.skip(1)[rest.len() as int]);
        }
    }
}

/// A time token is not empty and stands where it was found.
pub proof fn lemma_token_at(s: Seq<char>)
    ensures
        token_at(s) matches Some(token) ==> token.spelling().is_prefix_of(s)
            && token.spelling().len() > 0,
{
}

/// The position behind the letters that start at `at`.
fn end_of_letters(chars: &Vec<char>, at: usize) -> (end: usize)
    requires
        at <= chars@.len(),
    ensures
        at <= end <= chars@.len(),
        chars@.subrange(at as int, end as int) == letter_run(chars@.skip(at as int)),
{
    let mut end: usize = at;
    let ghost rest = chars@.skip(at as int);
    proof {
        lemma_letter_run(rest);
    }
    while end < chars.len() && chars[end].is_alphabetic()
        invariant
            rest == chars@.skip(at as int),
            at <= end <= chars@.len(),
            letter_run(rest).is_prefix_of(rest),
            end - at <= letter_run(rest).len(),
            letter_run(rest).len() < rest.len() ==> !text::is_letter(
                rest[letter_run(rest).len() as int],
            ),
            forall|i: int|
                0 <= i < letter_run(rest).len() ==> text::is_letter(
                    #[trigger] letter_run(rest)[i],
                ),
        decreases chars@.len() - end,
    {
        assert(chars@[end as int] == rest[end - at]);
        end = end + 1;
    }
    proof {
        if end - at < letter_run(rest).len() {
            assert(letter_run(rest)[end - at] == rest[end - at]);
        }
    }
    assert(chars@.subrange(at as int, end as int) =~= rest.take(end - at));
    end
}

/// The words in a time format that are no time tokens.
fn find_stray_words(format: &Vec<char>) -> (words: Vec<String>)
    ensures
        text::text_views(words@) == stray_words(format@),
{
    let mut words: Vec<String> = Vec::new();
    let mut cursor: usize = 0;
    let ghost all = stray_words(format@);
    assert(format@.skip(0) =~= format@);
    assert(text::text_views(words@) + all =~= all);
    while cursor < format.len()
        invariant
            cursor <= format@.len(),
            text::text_views(words@) + stray_words(format@.skip(cursor as int)) == all,
        decreases format@.len() - cursor,
    {
        let ghost rest = format@.skip(cursor as int);
        let ghost found = text::text_views(words@);
        proof {
            lemma_token_at(rest);
            lemma_letter_run(rest);
        }
        match find_token(format, cursor) {
            Some(token) => {
                let width: usize = token.chars().len();
                cursor = cursor + width;
                assert(format@.skip(cursor as int) =~= rest.skip(width as int));
            },
            None => {
                if format[cursor].is_alphabetic() {
                    let end = end_of_letters(format, cursor);
                    let run = text_of_range(format, cursor, end);
                    proof {
                        assert(format@.skip(end as int) =~= rest.skip(run@.len() as int));
                        let others = stray_words(format@.skip(end as int));
                        assert(text::text_views(words@.push(run)) =~= found.push(run@));
                        assert(found.push(run@) + others =~= found + (seq![run@] + others));
                    }
                    words.push(run);
                    cursor = end;
                } else {
                    cursor = cursor + 1;
                    assert(format@.skip(cursor as int) =~= rest.skip(1));
                }
            },
        }
    }
    assert(text::text_views(words@) + stray_words(format@.skip(cursor as int))
        =~= text::text_views(words@));
    words
}

// ---- Pieces of a template ------------------------------------------------

/// A template is read as a sequence of pieces.
pub enum Piece {
    /// A character that stands for itself.
    Plain(char),
    /// A backslash and the bracket that it escapes.
    Escape(char),
    /// A backslash and a character that is no bracket.
    Backslash(char),
    /// A backslash at the very end.
    Trailing,
    /// An opening bracket without a closing one, and all that follows.
    Unclosed(Seq<char>),
    /// What stands between brackets.
    Bracket(Seq<char>),
}

/// What a piece adds to the message: literal text, or a variable (none where
/// the variable cannot be used), which ends the literal text before it.
pub enum Effect {
    Text(Seq<char>),
    Variable(Option<SegmentView>),
}

/// What is said of a backslash at the end.
pub open spec fn trailing_message() -> Seq<char> {
    "Trailing '\\' with nothing to escape; kept as literal."@
}

/// What is said of a bracket that is not closed.
pub open spec fn unmatched_message() -> Seq<char> {
    "Unmatched '[' with no closing ']'; treated as literal text."@
}

/// What is said of a bracketed text that is no variable.
pub open spec fn unrecognized_message(inner: Seq<char>) -> Seq<char> {
    "'["@ + inner + "]' is not a recognized variable; treated as literal text."@
}

/// What is said of a near miss of a time token.
pub open spec fn fault_message(run: Seq<char>) -> Seq<char> {
    "'"@ + run
        + "' is not a valid time token (did you mean 'yyyy'/'yy', 'mo', 'dd', 'mi', 'ss', '24hh', or '12hh'?)."@
}

/// What is said of a word in a time format that is no time token at all.
pub open spec fn stray_message(word: Seq<char>) -> Seq<char> {
    "'"@ + word + "' is not a recognized time token."@
}

/// The bracketed text asks for a timestamp.
pub open spec fn is_time_variable(inner: Seq<char>) -> bool {
    "time="@.is_prefix_of(inner)
}

/// The format of a bracketed timestamp.
pub open spec fn time_format(inner: Seq<char>) -> Seq<char> {
    inner.skip("time="@.len() as int)
}

impl Piece {
    /// The characters of the template that the piece is read from.
    pub open spec fn source(self) -> Seq<char> {
        match self {
            Piece::Plain(c) => seq![c],
            Piece::Escape(c) => seq!['\\', c],
            Piece::Backslash(c) => seq!['\\', c],
            Piece::Trailing => seq!['\\'],
            Piece::Unclosed(rest) => rest,
            Piece::Bracket(inner) => seq!['['] + inner + seq![']'],
        }
    }

    /// What the piece adds to the message.
    pub open spec fn effect(self) -> Effect {
        match self {
            Piece::Escape(c) => Effect::Text(seq![c]),
            Piece::Bracket(inner) => {
                if inner == "filename"@ {
                    Effect::Variable(Some(SegmentView::Filename))
                } else if is_time_variable(inner) {
                    Effect::Variable(
                        if has_near_miss(stray_words(time_format(inner))) {
                            None
                        } else {
                            Some(SegmentView::Time(time_format(inner)))
                        },
                    )
                } else {
                    Effect::Text(self.source())
                }
            },
            _ => Effect::Text(self.source()),
        }
    }

    /// What is wrong with the piece, where it starts at byte `at`.
    pub open spec fn issues(self, at: nat) -> Seq<IssueView> {
        let span = (at, at + encode_utf8(self.source()).len());
        match self {
            Piece::Trailing => seq![
                IssueView { severity: Severity::Warning, message: trailing_message(), span },
            ],
            Piece::Unclosed(_) => seq![
                IssueView { severity: Severity::Warning, message: unmatched_message(), span },
            ],
            Piece::Bracket(inner) => {
                if inner == "filename"@ {
                    seq![]
                } else if is_time_variable(inner) {
                    word_issues(stray_words(time_format(inner)), span)
                } else {
                    seq![
                        IssueView {
                            severity: Severity::Warning,
                            message: unrecognized_message(inner),
                            span,
                        },
                    ]
                }
            },
            _ => seq![],
        }
    }
}

/// What is wrong with a word in a time format that is no time token: a near miss
/// is a hard error, any other word a warning.
pub open spec fn word_issue(word: Seq<char>, span: (nat, nat)) -> IssueView {
    if is_near_miss(word) {
        IssueView { severity: Severity::HardError, message: fault_message(word), span }
    } else {
        IssueView { severity: Severity::Warning, message: stray_message(word), span }
    }
}

/// One issue for each word in a time format that is no time token.
pub open spec fn word_issues(words: Seq<Seq<char>>, span: (nat, nat)) -> Seq<IssueView> {
    words.map_values(|word: Seq<char>| word_issue(word, span))
}

/// The first piece of a text that is not empty.
pub open spec fn first_piece(s: Seq<char>) -> Piece {
    if s[0] == '\\' {
        if s.len() == 1 {
            Piece::Trailing
        } else if s[1] == '[' || s[1] == ']' {
            Piece::Escape(s[1])
        } else {
            Piece::Backslash(s[1])
        }
    } else if s[0] == '[' {
        if s.contains(']') {
            Piece::Bracket(s.subrange(1, text::position(s, ']') as int))
        } else {
            Piece::Unclosed(s)
        }
    } else {
        Piece::Plain(s[0])
    }
}

/// The first piece is read from the start of the text.
pub proof fn lemma_first_piece(s: Seq<char>)
    requires
        s.len() > 0,
    ensures
        0 < first_piece(s).source().len() <= s.len(),
        first_piece(s).source() == s.take(first_piece(s).source().len() as int),
{
    text::lemma_position(s, ']');
    if s[0] == '[' && s.contains(']') {
        let p = text::position(s, ']') as int;
        let k = choose|k: int| 0 <= k < s.len() && s[k] == ']';
        assert(p < s.len());
        assert(first_piece(s).source() =~= s.take(p + 1));
    } else {
        assert(first_piece(s).source() =~= s.take(first_piece(s).source().len() as int));
    }
}

/// The pieces of a template.
pub open spec fn pieces(s: Seq<char>) -> Seq<Piece>
    decreases s.len(),
{
    if s.len() == 0 {
        seq![]
    } else {
        proof {
            lemma_first_piece(s);
        }
        let first = first_piece(s);
        seq![first] + pieces(s.skip(first.source().len() as int))
    }
}

/// The text that a sequence of pieces is read from.
pub open spec fn sources(ps: Seq<Piece>) -> Seq<char>
    decreases ps.len(),
{
    if ps.len() == 0 {
        seq![]
    } else {
        sources(ps.drop_last()) + ps.last().source()
    }
}

/// Segments, and the literal text behind the last of them.
pub struct Gathered {
    pub segments: Seq<SegmentView>,
    pub text: Seq<char>,
}

impl Gathered {
    /// The segments with the literal text as one more, where there is any.
    pub open spec fn flushed(self) -> Seq<SegmentView> {
        if self.text.len() == 0 {
            self.segments
        } else {
            self.segments.push(SegmentView::Literal(self.text))
        }
    }

    /// With what one more piece adds.
    pub open spec fn absorb(self, effect: Effect) -> Gathered {
        match effect {
            Effect::Text(text) => Gathered { segments: self.segments, text: self.text + text },
            Effect::Variable(None) => Gathered { segments: self.flushed(), text: seq![] },
            Effect::Variable(Some(segment)) => Gathered {
                segments: self.flushed().push(segment),
                text: seq![],
            },
        }
    }
}

/// What a sequence of pieces adds up to.
pub open spec fn gathered(ps: Seq<Piece>) -> Gathered
    decreases ps.len(),
{
    if ps.len() == 0 {
        Gathered { segments: seq![], text: seq![] }
    } else {
        gathered(ps.drop_last()).absorb(ps.last().effect())
    }
}

/// The issues of a sequence of pieces, each at its place in the text.
pub open spec fn issues_of(ps: Seq<Piece>) -> Seq<IssueView>
    decreases ps.len(),
{
    if ps.len() == 0 {
        seq![]
    } else {
        issues_of(ps.drop_last()) + ps.last().issues(
            encode_utf8(sources(ps.drop_last())).len(),
        )
    }
}

/// What a template says.
pub open spec fn parsed(template: Seq<char>) -> ParseView {
    ParseView {
        segments: gathered(pieces(template)).flushed(),
        issues: issues_of(pieces(template)),
    }
}

// ---- Parsing -------------------------------------------------------------

/// A piece as the parser holds it.
enum Token {
    Plain(char),
    Escape(char),
    Backslash(char),
    Trailing,
    Unclosed(String),
    Bracket(String),
}

impl View for Token {
    type V = Piece;

    closed spec fn view(&self) -> Piece {
        match self {
            Token::Plain(c) => Piece::Plain(*c),
            Token::Escape(c) => Piece::Escape(*c),
            Token::Backslash(c) => Piece::Backslash(*c),
            Token::Trailing => Piece::Trailing,
            Token::Unclosed(rest) => Piece::Unclosed(rest@),
            Token::Bracket(inner) => Piece::Bracket(inner@),
        }
    }
}

/// Reads the piece at a position and gives the position behind it.
fn read_token(chars: &Vec<char>, at: usize) -> (read: (Token, usize))
    requires
        at < chars@.len(),
    ensures
        read.0@ == first_piece(chars@.skip(at as int)),
        read.1 == at + read.0@.source().len(),
        read.1 <= chars@.len(),
{
    let ghost rest = chars@.skip(at as int);
    proof {
        lemma_first_piece(rest);
    }
    let len: usize = chars.len();
    let c = chars[at];
    if c == '\\' {
        if at + 1 >= len {
            (Token::Trailing, at + 1)
        } else if chars[at + 1] == '[' || chars[at + 1] == ']' {
            (Token::Escape(chars[at + 1]), at + 2)
        } else {
            (Token::Backslash(chars[at + 1]), at + 2)
        }
    } else if c == '[' {
        let close = find_char(chars, at, ']');
        proof {
            text::lemma_position(rest, ']');
        }
        if close < chars.len() {
            assert(rest[close - at] == ']');
            let inner = text_of_range(chars, at + 1, close);
            assert(inner@ =~= rest.subrange(1, close - at));
            (Token::Bracket(inner), close + 1)
        } else {
            let text = text_of_range(chars, at, chars.len());
            assert(text@ =~= rest);
            (Token::Unclosed(text), chars.len())
        }
    } else {
        (Token::Plain(c), at + 1)
    }
}

/// Joins three strings.
fn join3(a: &str, b: &str, c: &str) -> (joined: String)
    ensures
        joined@ == a@ + b@ + c@,
{
    let mut joined = a.to_owned();
    joined.append(b);
    joined.append(c);
    joined
}

/// Ends the literal text: it becomes a segment, where there is any.
fn flush_literal(literal: String, segments: &mut Vec<Segment>)
    ensures
        segment_views(final(segments)@) == (Gathered {
            segments: segment_views(old(segments)@),
            text: literal@,
        }).flushed(),
{
    let ghost before = segments@;
    if !literal.as_str().is_empty() {
        let ghost text = literal@;
        segments.push(Segment::Literal(literal));
        assert(segment_views(segments@) =~= segment_views(before).push(
            SegmentView::Literal(text),
        ));
    }
}

/// Reports each word of a time format that is no time token, and tells whether
/// one is a near miss.
fn report_words(words: &Vec<String>, span: (usize, usize), issues: &mut Vec<ValidationIssue>) -> (
    missed: bool)
    ensures
        missed == has_near_miss(text::text_views(words@)),
        issue_views(final(issues)@) == issue_views(old(issues)@) + word_issues(
            text::text_views(words@),
            (span.0 as nat, span.1 as nat),
        ),
{
    let ghost before = issue_views(issues@);
    let ghost views = text::text_views(words@);
    let ghost all = word_issues(views, (span.0 as nat, span.1 as nat));
    let mut missed = false;
    assert(before + all.take(0) =~= before);
    for i in 0..words.len()
        invariant
            views == text::text_views(words@),
            all == word_issues(views, (span.0 as nat, span.1 as nat)),
            issue_views(issues@) == before + all.take(i as int),
            missed ==> has_near_miss(views),
            !missed ==> forall|k: int| 0 <= k < i ==> !is_near_miss(#[trigger] views[k]),
    {
        let word = words[i].as_str();
        assert(views[i as int] == word@);
        let issue = if looks_like_malformed_time_token(word) {
            missed = true;
            let message = join3(
                "'",
                word,
                "' is not a valid time token (did you mean 'yyyy'/'yy', 'mo', 'dd', 'mi', 'ss', '24hh', or '12hh'?).",
            );
            ValidationIssue { severity: Severity::HardError, message, span }
        } else {
            let message = join3("'", word, "' is not a recognized time token.");
            ValidationIssue { severity: Severity::Warning, message, span }
        };
        let ghost known = issues@;
        proof {
            assert(issue@ == all[i as int]);
            assert(issue_views(known.push(issue)) =~= issue_views(known).push(issue@));
            assert(all.take(i + 1) =~= all.take(i as int).push(all[i as int]));
            assert((before + all.take(i as int)).push(all[i as int]) =~= before + all.take(i + 1));
        }
        issues.push(issue);
    }
    assert(all.take(words@.len() as int) =~= all);
    missed
}

/// Adds a warning.
fn warn(message: String, span: (usize, usize), issues: &mut Vec<ValidationIssue>)
    ensures
        issue_views(final(issues)@) == issue_views(old(issues)@) + seq![
            IssueView {
                severity: Severity::Warning,
                message: message@,
                span: (span.0 as nat, span.1 as nat),
            },
        ],
{
    let ghost before = issues@;
    let issue = ValidationIssue { severity: Severity::Warning, message, span };
    let ghost added = issue@;
    issues.push(issue);
    assert(issue_views(issues@) =~= issue_views(before) + seq![added]);
}

/// Applies what stands between brackets.
fn read_variable(
    inner: &String,
    span: (usize, usize),
    literal: String,
    segments: &mut Vec<Segment>,
    issues: &mut Vec<ValidationIssue>,
) -> (open: String)
    requires
        span.1 == span.0 + encode_utf8(Piece::Bracket(inner@).source()).len(),
    ensures
        (Gathered { segments: segment_views(final(segments)@), text: open@ }) == (Gathered {
            segments: segment_views(old(segments)@),
            text: literal@,
        }).absorb(Piece::Bracket(inner@).effect()),
        issue_views(final(issues)@) == issue_views(old(issues)@) + Piece::Bracket(inner@).issues(
            span.0 as nat,
        ),
{
    let ghost held = Gathered { segments: segment_views(segments@), text: literal@ };
    let chars = chars_of(inner.as_str());
    let prefix = chars_of("time=");
    if text_is(inner, "filename") {
        flush_literal(literal, segments);
        let ghost flushed = segments@;
        segments.push(Segment::Filename);
        assert(segment_views(segments@) =~= segment_views(flushed).push(SegmentView::Filename));
        assert(issue_views(issues@) =~= issue_views(issues@) + seq![]);
        String::new()
    } else if matches_at(&chars, 0, &prefix) {
        assert(chars@.skip(0) =~= chars@);
        let format = text_of_range(&chars, prefix.len(), chars.len());
        assert(format@ =~= time_format(inner@));
        let words = find_stray_words(&chars_of(format.as_str()));
        let missed = report_words(&words, span, issues);
        flush_literal(literal, segments);
        if !missed {
            let ghost flushed = segments@;
            let ghost text = format@;
            segments.push(Segment::Time(format));
            assert(segment_views(segments@) =~= segment_views(flushed).push(
                SegmentView::Time(text),
            ));
        }
        String::new()
    } else {
        assert(chars@.skip(0) =~= chars@);
        let message = join3(
            "'[",
            inner.as_str(),
            "]' is not a recognized variable; treated as literal text.",
        );
        warn(message, span, issues);
        let mut open = literal;
        open.push('[');
        open.append(inner.as_str());
        open.push(']');
        assert(open@ =~= held.text + Piece::Bracket(inner@).source());
        open
    }
}

/// The number of bytes that UTF-8 takes for `chars[from..to]`.
fn byte_len(chars: &Vec<char>, from: usize, to: usize) -> (n: usize)
    requires
        from <= to <= chars@.len(),
        encode_utf8(chars@).len() <= usize::MAX,
    ensures
        n == encode_utf8(chars@.subrange(from as int, to as int)).len(),
{
    let mut n: usize = 0;
    assert(chars@.subrange(from as int, from as int) =~= seq![]);
    for i in from..to
        invariant
            from <= to <= chars@.len(),
            encode_utf8(chars@).len() <= usize::MAX,
            n == encode_utf8(chars@.subrange(from as int, i as int)).len(),
    {
        proof {
            let known = chars@.subrange(from as int, i as int);
            assert(chars@.subrange(from as int, i + 1) =~= known + seq![chars@[i as int]]);
            text::lemma_encode_concat(known, seq![chars@[i as int]]);
            lemma_encoded_part(chars@, from as int, i + 1);
        }
        n = n + chars[i].len_utf8();
    }
    n
}

/// A part of a text takes no more bytes than the whole.
proof fn lemma_encoded_part(s: Seq<char>, from: int, to: int)
    requires
        0 <= from <= to <= s.len(),
    ensures
        encode_utf8(s.take(from)).len() + encode_utf8(s.subrange(from, to)).len()
            == encode_utf8(s.take(to)).len(),
        encode_utf8(s.take(to)).len() <= encode_utf8(s).len(),
{
    assert(s.take(to) =~= s.take(from) + s.subrange(from, to));
    text::lemma_encode_concat(s.take(from), s.subrange(from, to));
    assert(s =~= s.take(to) + s.skip(to));
    text::lemma_encode_concat(s.take(to), s.skip(to));
}

/// One more piece at the end of a sequence.
proof fn lemma_one_more(ps: Seq<Piece>, p: Piece)
    ensures
        sources(ps.push(p)) == sources(ps) + p.source(),
        gathered(ps.push(p)) == gathered(ps).absorb(p.effect()),
        issues_of(ps.push(p)) == issues_of(ps) + p.issues(encode_utf8(sources(ps)).len()),
{
    assert(ps.push(p).drop_last() =~= ps);
}

/// Reads a template.
pub fn parse_template(input: &str) -> (result: ParseResult)
    ensures
        result@ == parsed(input@),
{
    let mut segments: Vec<Segment> = Vec::new();
    let mut issues: Vec<ValidationIssue> = Vec::new();
    let mut literal = String::new();
    let chars = chars_of(input);
    let total: usize = input.as_bytes().len();
    let mut i: usize = 0;
    let mut offset: usize = 0;
    let ghost mut done: Seq<Piece> = seq![];
    proof {
        assert(chars@.skip(0) =~= chars@);
        assert(done + pieces(chars@) =~= pieces(chars@));
        assert(chars@.take(0) =~= seq![]);
        assert(segment_views(segments@) =~= seq![]);
        assert(issue_views(issues@) =~= seq![]);
    }
    while i < chars.len()
        invariant
            chars@ == input@,
            total == encode_utf8(chars@).len(),
            i <= chars@.len(),
            done + pieces(chars@.skip(i as int)) == pieces(chars@),
            sources(done) == chars@.take(i as int),
            offset == encode_utf8(sources(done)).len(),
            segment_views(segments@) == gathered(done).segments,
            literal@ == gathered(done).text,
            issue_views(issues@) == issues_of(done),
        decreases chars@.len() - i,
    {
        let ghost rest = chars@.skip(i as int);
        let (token, next) = read_token(&chars, i);
        let ghost piece = token@;
        proof {
            lemma_first_piece(rest);
            lemma_one_more(done, piece);
            lemma_encoded_part(chars@, i as int, next as int);
            assert(piece.source() =~= chars@.subrange(i as int, next as int));
            assert(chars@.take(i as int) + piece.source() =~= chars@.take(next as int));
            assert(rest.skip(piece.source().len() as int) =~= chars@.skip(next as int));
            assert(done.push(piece) + pieces(chars@.skip(next as int)) =~= done + (seq![piece]
                + pieces(chars@.skip(next as int))));
        }
        let width: usize = byte_len(&chars, i, next);
        let span: (usize, usize) = (offset, offset + width);
        let ghost text_before = literal@;
        let ghost issues_before = issue_views(issues@);
        match token {
            Token::Plain(c) => {
                literal.push(c);
                assert(literal@ =~= text_before + piece.source());
                assert(issues_before =~= issues_before + piece.issues(offset as nat));
            },
            Token::Escape(c) => {
                literal.push(c);
                assert(literal@ =~= text_before + seq![c]);
                assert(issues_before =~= issues_before + piece.issues(offset as nat));
            },
            Token::Backslash(c) => {
                literal.push('\\');
                literal.push(c);
                assert(literal@ =~= text_before + piece.source());
                assert(issues_before =~= issues_before + piece.issues(offset as nat));
            },
            Token::Trailing => {
                warn(
                    "Trailing '\\' with nothing to escape; kept as literal.".to_owned(),
                    span,
                    &mut issues,
                );
                literal.push('\\');
                assert(literal@ =~= text_before + piece.source());
            },
            Token::Unclosed(rest_text) => {
                warn(
                    "Unmatched '[' with no closing ']'; treated as literal text.".to_owned(),
                    span,
                    &mut issues,
                );
                literal.append(rest_text.as_str());
            },
            Token::Bracket(inner) => {
                literal = read_variable(&inner, span, literal, &mut segments, &mut issues);
            },
        }
        proof {
            done = done.push(piece);
        }
        offset = offset + width;
        i = next;
    }
    flush_literal(literal, &mut segments);
    proof {
        assert(done + pieces(chars@.skip(i as int)) =~= done);
    }
    ParseResult { segments, issues }
}

// ---- Civil time ----------------------------------------------------------

/// A date and time as the clock on the wall shows it.
#[derive(Debug, Clone, Copy, PartialEq, Eq, Structural)]
pub struct CivilTime {
    pub year: i32,
    pub month: u32,
    pub day: u32,
    pub hour: u32,
    pub minute: u32,
    pub second: u32,
}

/// The year has a 29th of February, in the Gregorian calendar.
pub open spec fn is_leap_year(year: int) -> bool {
    year % 4 == 0 && (year % 100 != 0 || year % 400 == 0)
}

/// The number of days of a month.
pub open spec fn month_len(year: int, month: int) -> int {
    if month == 2 {
        if is_leap_year(year) {
            29
        } else {
            28
        }
    } else if month == 4 || month == 6 || month == 9 || month == 11 {
        30
    } else {
        31
    }
}

/// The number of days of a year that stand before a month.
pub open spec fn days_before_month(year: int, month: int) -> int
    decreases month,
{
    if month <= 1 {
        0
    } else {
        days_before_month(year, month - 1) + month_len(year, month - 1)
    }
}

/// The number of days before the year, from the first of January of the year 1 on.
pub open spec fn days_before_year(year: int) -> int {
    let past = year - 1;
    365 * past + past / 4 - past / 100 + past / 400
}

/// The number of a day: the first of January of 1970 is day 0.
pub open spec fn day_number(year: int, month: int, day: int) -> int {
    days_before_year(year) - days_before_year(1970) + days_before_month(year, month) + day - 1
}

impl CivilTime {
    /// The parts are those of a day in the calendar and of a clock.
    pub open spec fn well_formed(self) -> bool {
        &&& 1 <= self.month <= 12
        &&& 1 <= self.day <= month_len(self.year as int, self.month as int)
        &&& self.hour <= 23
        &&& self.minute <= 59
        &&& self.second <= 59
    }

    /// The clock shows this time so many seconds after the start of 1970.
    pub open spec fn is_at(self, seconds: int) -> bool {
        &&& self.well_formed()
        &&& day_number(self.year as int, self.month as int, self.day as int) == seconds / 86400
        &&& self.hour * 3600 + self.minute * 60 + self.second == seconds % 86400
    }
}

/// The years that dates are kept for: about 262000 to either side.
pub open spec fn in_calendar(seconds: int) -> bool {
    day_number(-262143, 1, 1) <= seconds / 86400 <= day_number(262142, 12, 31)
}

/// `chrono::DateTime::from_timestamp`, read field by field (`year`, `month`,
/// `day`, `hour`, `minute`, `second`): the Gregorian date and the time of day at
/// a number of seconds since the start of 1970, or nothing where the year is out
/// of the range of the crate.
#[verifier::external_body]
fn civil_of_timestamp(seconds: i64) -> (civil: Option<CivilTime>)
    ensures
        match civil {
            Some(time) => in_calendar(seconds as int) && time.is_at(seconds as int),
            None => !in_calendar(seconds as int),
        },
{
    chrono::DateTime::from_timestamp(seconds, 0).map(|moment| CivilTime {
        year: chrono::Datelike::year(&moment),
        month: chrono::Datelike::month(&moment),
        day: chrono::Datelike::day(&moment),
        hour: chrono::Timelike::hour(&moment),
        minute: chrono::Timelike::minute(&moment),
        second: chrono::Timelike::second(&moment),
    })
}

impl CivilTime {
    /// The time on a clock that has run for so many seconds since the start of
    /// 1970 by local time; nothing where the date is out of range.
    pub fn from_local_seconds(seconds: i64) -> (now: Option<CivilTime>)
        ensures
            match now {
                Some(time) => in_calendar(seconds as int) && time.is_at(seconds as int),
                None => !in_calendar(seconds as int),
            },
    {
        civil_of_timestamp(seconds)
    }

    /// The hour on a twelve-hour clock, from 1 to 12.
    pub open spec fn hour12(self) -> u32 {
        if self.hour % 12 == 0 {
            12
        } else {
            self.hour % 12
        }
    }

    /// The hour is at or after noon.
    pub open spec fn is_pm(self) -> bool {
        self.hour >= 12
    }

    /// The year within its century, with the sign of the year.
    pub open spec fn short_year(self) -> int {
        if self.year >= 0 {
            self.year as int % 100
        } else {
            -((-self.year as int) % 100)
        }
    }
}

// ---- Rendering -----------------------------------------------------------

/// The text of a time token.
pub open spec fn token_text(token: TimeToken, now: CivilTime) -> Seq<char> {
    match token {
        TimeToken::Year4 => text::zero_padded(now.year as int, 4),
        TimeToken::Year2 => text::zero_padded(now.short_year(), 2),
        TimeToken::Month => text::zero_padded(now.month as int, 2),
        TimeToken::Day => text::zero_padded(now.day as int, 2),
        TimeToken::Minute => text::zero_padded(now.minute as int, 2),
        TimeToken::Second => text::zero_padded(now.second as int, 2),
        TimeToken::Hour24 => text::zero_padded(now.hour as int, 2),
        TimeToken::Hour12 => text::zero_padded(now.hour12() as int, 2),
    }
}

/// A time format with each token replaced by its text, all else kept.
pub open spec fn time_body(format: Seq<char>, now: CivilTime) -> Seq<char>
    decreases format.len(),
{
    if format.len() == 0 {
        seq![]
    } else {
        match token_at(format) {
            Some(token) => token_text(token, now) + time_body(
                format.skip(token.spelling().len() as int),
                now,
            ),
            None => seq![format[0]] + time_body(format.skip(1), now),
        }
    }
}

/// The format asks for the hour on a twelve-hour clock.
pub open spec fn uses_hour12(format: Seq<char>) -> bool
    decreases format.len(),
{
    if format.len() == 0 {
        false
    } else {
        match token_at(format) {
            Some(token) => token == TimeToken::Hour12 || uses_hour12(
                format.skip(token.spelling().len() as int),
            ),
            None => uses_hour12(format.skip(1)),
        }
    }
}

/// A formatted timestamp: where it uses the twelve-hour clock, `AM` or `PM`
/// stands at its end.
pub open spec fn time_text(format: Seq<char>, now: CivilTime) -> Seq<char> {
    if uses_hour12(format) {
        time_body(format, now) + if now.is_pm() {
            seq![' ', 'P', 'M']
        } else {
            seq![' ', 'A', 'M']
        }
    } else {
        time_body(format, now)
    }
}

/// Appends the text of a time token.
fn push_token(out: &mut String, token: TimeToken, now: &CivilTime)
    ensures
        final(out)@ == old(out)@ + token_text(token, *now),
{
    match token {
        TimeToken::Year4 => push_zero_padded(out, now.year as i64, 4),
        TimeToken::Year2 => {
            let year: i64 = now.year as i64;
            let short: i64 = if year >= 0 {
                year % 100
            } else {
                -((-year) % 100)
            };
            push_zero_padded(out, short, 2)
        },
        TimeToken::Month => push_zero_padded(out, now.month as i64, 2),
        TimeToken::Day => push_zero_padded(out, now.day as i64, 2),
        TimeToken::Minute => push_zero_padded(out, now.minute as i64, 2),
        TimeToken::Second => push_zero_padded(out, now.second as i64, 2),
        TimeToken::Hour24 => push_zero_padded(out, now.hour as i64, 2),
        TimeToken::Hour12 => {
            let hour: u32 = if now.hour % 12 == 0 {
                12
            } else {
                now.hour % 12
            };
            push_zero_padded(out, hour as i64, 2)
        },
    }
}

/// Renders a timestamp.
pub fn render_time(fmt: &str, now: &CivilTime) -> (out: String)
    ensures
        out@ == time_text(fmt@, *now),
{
    let mut out = String::new();
    let chars = chars_of(fmt);
    let mut i: usize = 0;
    let mut twelve_hour = false;
    proof {
        assert(chars@.skip(0) =~= chars@);
        assert(out@ + time_body(chars@, *now) =~= time_body(chars@, *now));
    }
    while i < chars.len()
        invariant
            chars@ == fmt@,
            i <= chars@.len(),
            out@ + time_body(chars@.skip(i as int), *now) == time_body(fmt@, *now),
            uses_hour12(fmt@) == (twelve_hour || uses_hour12(chars@.skip(i as int))),
        decreases chars@.len() - i,
    {
        let ghost rest = chars@.skip(i as int);
        let ghost before = out@;
        proof {
            lemma_token_at(rest);
        }
        match find_token(&chars, i) {
            Some(token) => {
                push_token(&mut out, token, now);
                if token == TimeToken::Hour12 {
                    twelve_hour = true;
                }
                let width: usize = token.chars().len();
                i = i + width;
                proof {
                    assert(chars@.skip(i as int) =~= rest.skip(width as int));
                    let others = time_body(rest.skip(width as int), *now);
                    assert(out@ + others =~= before + (token_text(token, *now) + others));
                }
            },
            None => {
                out.push(chars[i]);
                i = i + 1;
                proof {
                    assert(chars@.skip(i as int) =~= rest.skip(1));
                    let others = time_body(rest.skip(1), *now);
                    assert(out@ + others =~= before + (seq![rest[0]] + others));
                }
            },
        }
    }
    assert(out@ + time_body(chars@.skip(i as int), *now) =~= out@);
    if twelve_hour {
        let ghost before = out@;
        if now.hour >= 12 {
            out.push(' ');
            out.push('P');
            out.push('M');
            assert(out@ =~= before + seq![' ', 'P', 'M']);
        } else {
            out.push(' ');
            out.push('A');
            out.push('M');
            assert(out@ =~= before + seq![' ', 'A', 'M']);
        }
    }
    out
}

/// The text of a segment.
pub open spec fn segment_text(
    segment: SegmentView,
    filename: Option<Seq<char>>,
    now: CivilTime,
) -> Seq<char> {
    match segment {
        SegmentView::Literal(text) => text,
        SegmentView::Filename => match filename {
            Some(name) => name,
            None => "multiple files"@,
        },
        SegmentView::Time(format) => time_text(format, now),
    }
}

/// The message: the texts of the segments, one after the other.
pub open spec fn rendered(
    segments: Seq<SegmentView>,
    filename: Option<Seq<char>>,
    now: CivilTime,
) -> Seq<char>
    decreases segments.len(),
{
    if segments.len() == 0 {
        seq![]
    } else {
        rendered(segments.drop_last(), filename, now) + segment_text(
            segments.last(),
            filename,
            now,
        )
    }
}

/// The model of an optional name.
pub open spec fn name_view(filename: Option<&str>) -> Option<Seq<char>> {
    match filename {
        Some(name) => Some(name@),
        None => None,
    }
}

/// Resolves a parsed template into the commit message. `filename` is the path
/// of the file from the project root; none stands for more than one file.
pub fn render(parsed: &ParseResult, filename: Option<&str>, now: &CivilTime) -> (message: String)
    ensures
        message@ == rendered(parsed@.segments, name_view(filename), *now),
{
    let mut out = String::new();
    let ghost all = parsed@.segments;
    for i in 0..parsed.segments.len()
        invariant
            all == segment_views(parsed.segments@),
            out@ == rendered(all.take(i as int), name_view(filename), *now),
    {
        proof {
            assert(all.take(i + 1).drop_last() =~= all.take(i as int));
            assert(all.take(i + 1).last() == parsed.segments@[i as int]@);
        }
        match &parsed.segments[i] {
            Segment::Literal(text) => out.append(text.as_str()),
            Segment::Filename => match filename {
                Some(name) => out.append(name),
                None => out.append("multiple files"),
            },
            Segment::Time(format) => {
                let time = render_time(format.as_str(), now);
                out.append(time.as_str());
            },
        }
    }
    assert(all.take(all.len() as int) =~= all);
    out
}

} // verus!
