//! What a time format shows, token by token.

use crate::comment_laws;
use crate::commit_template;
use crate::commit_template::{CivilTime, TimeToken};
use crate::text;
use crate::text_laws;
use vstd::prelude::*;

verus! {

// ---- Tokens --------------------------------------------------------------

/// `yyyy`.
pub open spec fn year4_mark() -> Seq<char> {
    seq!['y', 'y', 'y', 'y']
}

/// `yy`.
pub open spec fn year2_mark() -> Seq<char> {
    seq!['y', 'y']
}

/// `mo`.
pub open spec fn month_mark() -> Seq<char> {
    seq!['m', 'o']
}

/// `dd`.
pub open spec fn day_mark() -> Seq<char> {
    seq!['d', 'd']
}

/// `mi`.
pub open spec fn minute_mark() -> Seq<char> {
    seq!['m', 'i']
}

/// `ss`.
pub open spec fn second_mark() -> Seq<char> {
    seq!['s', 's']
}

/// `24hh`.
pub open spec fn hour24_mark() -> Seq<char> {
    seq!['2', '4', 'h', 'h']
}

/// `12hh`.
pub open spec fn hour12_mark() -> Seq<char> {
    seq!['1', '2', 'h', 'h']
}

/// The text begins with one of the marks of a time format.
pub open spec fn begins_with_mark(s: Seq<char>) -> bool {
    ||| year2_mark().is_prefix_of(s)
    ||| month_mark().is_prefix_of(s)
    ||| day_mark().is_prefix_of(s)
    ||| minute_mark().is_prefix_of(s)
    ||| second_mark().is_prefix_of(s)
    ||| hour24_mark().is_prefix_of(s)
    ||| hour12_mark().is_prefix_of(s)
}

/// Each token is read where its mark stands; where two of `y` stand before two
/// more, it is the year with four digits.
pub proof fn lemma_mark_is_read(token: TimeToken, rest: Seq<char>)
    requires
        token == TimeToken::Year2 ==> !year2_mark().is_prefix_of(rest),
    ensures
        commit_template::token_at(token.spelling() + rest) == Some(token),
        (token.spelling() + rest).skip(token.spelling().len() as int) == rest,
{
    let mark = token.spelling();
    let s = mark + rest;
    assert(s.take(mark.len() as int) =~= mark);
    assert(s.skip(mark.len() as int) =~= rest);
    assert(mark.is_prefix_of(s));
    assert(s[0] == mark[0] && s[1] == mark[1]);
    commit_template::lemma_token_at(s);
    let found = commit_template::token_at(s)->0;
    let other = found.spelling();
    assert(other == s.take(other.len() as int));
    assert(other[0] == s[0] && other[1] == s[1]);
    if token == TimeToken::Year2 && found == TimeToken::Year4 {
        assert(other[2] == s[2] && other[3] == s[3]);
        assert(rest[0] == s[2] && rest[1] == s[3]);
        assert(rest.take(2) =~= year2_mark());
    }
}

/// A token is read only where a mark stands.
pub proof fn lemma_no_mark(s: Seq<char>)
    ensures
        begins_with_mark(s) <==> commit_template::token_at(s) is Some,
{
    if year4_mark().is_prefix_of(s) {
        assert(s.take(2) =~= s.take(4).take(2));
        assert(year4_mark().take(2) =~= year2_mark());
    }
}

// ---- What is shown -------------------------------------------------------

/// The text is a number of that width, and then the rest.
pub open spec fn leads_with(shown: Seq<char>, n: int, width: nat, rest: Seq<char>) -> bool {
    exists|number: Seq<char>| #[trigger]
        text_laws::is_padded_number(number, n, width) && shown == number + rest
}

/// Each token shows the field of the clock that it names: read back as a number, it
/// is the year, the year within its century (with the sign of the year), the month,
/// the day, the minute, the second, or the hour, and what follows is shown behind it.
pub proof fn law_tokens_show_their_fields(now: CivilTime, rest: Seq<char>)
    ensures
        ({
            let others = commit_template::time_text(rest, now);
            let shown = |mark: Seq<char>| commit_template::time_text(mark + rest, now);
            let year = now.year as int;
            &&& leads_with(shown(year4_mark()), year, 4, others)
            &&& !year2_mark().is_prefix_of(rest) ==> leads_with(
                shown(year2_mark()),
                if year >= 0 {
                    year % 100
                } else {
                    -((-year) % 100)
                },
                2,
                others,
            )
            &&& leads_with(shown(month_mark()), now.month as int, 2, others)
            &&& leads_with(shown(day_mark()), now.day as int, 2, others)
            &&& leads_with(shown(minute_mark()), now.minute as int, 2, others)
            &&& leads_with(shown(second_mark()), now.second as int, 2, others)
            &&& leads_with(shown(hour24_mark()), now.hour as int, 2, others)
        }),
{
    lemma_token_shown(TimeToken::Year4, now, rest);
    if !year2_mark().is_prefix_of(rest) {
        lemma_token_shown(TimeToken::Year2, now, rest);
    }
    lemma_token_shown(TimeToken::Month, now, rest);
    lemma_token_shown(TimeToken::Day, now, rest);
    lemma_token_shown(TimeToken::Minute, now, rest);
    lemma_token_shown(TimeToken::Second, now, rest);
    lemma_token_shown(TimeToken::Hour24, now, rest);
    text_laws::law_padded_number_is_read_back(now.year as int, 4);
    text_laws::law_padded_number_is_read_back(now.short_year(), 2);
    text_laws::law_padded_number_is_read_back(now.month as int, 2);
    text_laws::law_padded_number_is_read_back(now.day as int, 2);
    text_laws::law_padded_number_is_read_back(now.minute as int, 2);
    text_laws::law_padded_number_is_read_back(now.second as int, 2);
    text_laws::law_padded_number_is_read_back(now.hour as int, 2);
}

proof fn lemma_token_shown(token: TimeToken, now: CivilTime, rest: Seq<char>)
    requires
        token == TimeToken::Year2 ==> !year2_mark().is_prefix_of(rest),
        token != TimeToken::Hour12,
    ensures
        commit_template::time_text(token.spelling() + rest, now) == commit_template::token_text(
            token,
            now,
        ) + commit_template::time_text(rest, now),
{
    lemma_mark_is_read(token, rest);
    let s = token.spelling() + rest;
    assert(commit_template::time_text(s, now) =~= commit_template::token_text(token, now)
        + commit_template::time_text(rest, now));
}

/// What is no token is shown as it is written.
pub proof fn law_other_characters_are_shown(now: CivilTime, c: char, rest: Seq<char>)
    requires
        !begins_with_mark(seq![c] + rest),
    ensures
        commit_template::time_text(seq![c] + rest, now) == seq![c] + commit_template::time_text(
            rest,
            now,
        ),
        commit_template::time_text(seq![], now) == Seq::<char>::empty(),
{
    let s = seq![c] + rest;
    lemma_no_mark(s);
    assert(s.skip(1) =~= rest);
    assert(commit_template::time_text(s, now) =~= seq![c] + commit_template::time_text(rest, now));
    assert(commit_template::time_text(seq![], now) =~= seq![]);
}

/// The hour on a twelve-hour clock goes from 1 to 12: 12 after midnight and after
/// noon. It shows at its place, and whether it is before or after noon shows once,
/// at the very end of the timestamp.
pub proof fn law_twelve_hour_clock(now: CivilTime, rest: Seq<char>)
    requires
        now.hour <= 23,
    ensures
        ({
            let hour: int = if now.hour == 0 {
                12
            } else if now.hour <= 12 {
                now.hour as int
            } else {
                now.hour - 12
            };
            let half = if now.hour < 12 {
                seq![' ', 'A', 'M']
            } else {
                seq![' ', 'P', 'M']
            };
            let others = commit_template::time_text(rest, now);
            leads_with(
                commit_template::time_text(hour12_mark() + rest, now),
                hour,
                2,
                if comment_laws::holds_no(rest, hour12_mark()) {
                    others + half
                } else {
                    others
                },
            )
        }),
{
    let s = hour12_mark() + rest;
    lemma_mark_is_read(TimeToken::Hour12, rest);
    lemma_uses_hour12(rest);
    text_laws::law_padded_number_is_read_back(now.hour12() as int, 2);
    let half = if now.hour < 12 {
        seq![' ', 'A', 'M']
    } else {
        seq![' ', 'P', 'M']
    };
    let others = commit_template::time_text(rest, now);
    let number = text::zero_padded(now.hour12() as int, 2);
    assert(commit_template::uses_hour12(s));
    if comment_laws::holds_no(rest, hour12_mark()) {
        assert(commit_template::time_text(s, now) =~= number + (others + half));
    } else {
        assert(commit_template::time_text(s, now) =~= number + others);
    }
}

/// A format uses the twelve-hour clock where its mark occurs in it.
proof fn lemma_uses_hour12(format: Seq<char>)
    ensures
        commit_template::uses_hour12(format) <==> !comment_laws::holds_no(format, hour12_mark()),
    decreases format.len(),
{
    let mark = hour12_mark();
    if format.len() > 0 {
        let width: int = match commit_template::token_at(format) {
            Some(token) => token.spelling().len() as int,
            None => 1,
        };
        commit_template::lemma_token_at(format);
        let rest = format.skip(width);
        lemma_uses_hour12(rest);
        let here = commit_template::token_at(format) == Some(TimeToken::Hour12);
        assert(here <==> comment_laws::occurs_at(format, mark, 0)) by {
            if comment_laws::occurs_at(format, mark, 0) {
                assert forall|j: int| 0 <= j < 4 implies format[j] == mark[j] by {
                    assert(format[0 + j] == mark[j]);
                }
                assert(format.take(4) =~= mark);
                assert(mark.is_prefix_of(format));
                let found = commit_template::token_at(format)->0;
                assert(found.spelling()[0] == format[0]);
            }
            if here {
                assert(mark == format.take(4));
                assert forall|j: int| 0 <= j < 4 implies format[0 + j] == #[trigger] mark[j] by {
                    assert(format.take(4)[j] == format[j]);
                }
            }
        }
        assert forall|k: int| 0 < k < width implies !#[trigger] comment_laws::occurs_at(
            format,
            mark,
            k,
        ) by {
            let spelling = commit_template::token_at(format)->0.spelling();
            assert(spelling[k] == format.take(width)[k]);
            if comment_laws::occurs_at(format, mark, k) {
                assert(format[k + 0] == mark[0]);
            }
        }
        assert forall|k: int| k >= width implies #[trigger] comment_laws::occurs_at(format, mark, k)
            == comment_laws::occurs_at(rest, mark, k - width) by {
            if comment_laws::occurs_at(format, mark, k) {
                assert forall|j: int| 0 <= j < 4 implies rest[k - width + j]
                    == #[trigger] mark[j] by {
                    assert(format[k + j] == mark[j]);
                }
            }
            if comment_laws::occurs_at(rest, mark, k - width) {
                assert forall|j: int| 0 <= j < 4 implies format[k + j] == #[trigger] mark[j] by {
                    assert(rest[k - width + j] == mark[j]);
                }
            }
        }
        if commit_template::uses_hour12(format) {
            if !here {
                let k = choose|k: int| #[trigger] comment_laws::occurs_at(rest, mark, k);
                assert(comment_laws::occurs_at(format, mark, k + width));
            }
        } else {
            assert forall|k: int| !#[trigger] comment_laws::occurs_at(format, mark, k) by {
                if k >= width {
                    assert(!comment_laws::occurs_at(rest, mark, k - width));
                }
            }
        }
    }
}

/// Without its mark a format does not ask for the half of the day: what it shows
/// is the same before and after noon, but for the hour of a day of 24 hours.
pub proof fn law_half_of_the_day_shows_only_where_asked(format: Seq<char>, now: CivilTime)
    requires
        comment_laws::holds_no(format, hour12_mark()),
        comment_laws::holds_no(format, hour24_mark()),
    ensures
        forall|hour: u32| #[trigger]
            commit_template::time_text(format, CivilTime { hour, ..now })
                == commit_template::time_text(format, now),
{
    lemma_uses_hour12(format);
    assert forall|hour: u32| #[trigger]
        commit_template::time_text(format, CivilTime { hour, ..now })
        == commit_template::time_text(format, now) by {
        lemma_hour_not_shown(format, now, hour);
    }
}

proof fn lemma_hour_not_shown(format: Seq<char>, now: CivilTime, hour: u32)
    requires
        !commit_template::uses_hour12(format),
        comment_laws::holds_no(format, hour24_mark()),
    ensures
        commit_template::time_body(format, CivilTime { hour, ..now })
            == commit_template::time_body(format, now),
    decreases format.len(),
{
    if format.len() > 0 {
        let mark = hour24_mark();
        commit_template::lemma_token_at(format);
        let width: int = match commit_template::token_at(format) {
            Some(token) => token.spelling().len() as int,
            None => 1,
        };
        if commit_template::token_at(format) == Some(TimeToken::Hour24) {
            assert(mark == format.take(4));
            assert(comment_laws::occurs_at(format, mark, 0)) by {
                assert forall|j: int| 0 <= j < 4 implies format[0 + j] == #[trigger] mark[j] by {
                    assert(format.take(4)[j] == format[j]);
                }
            }
        }
        let rest = format.skip(width);
        assert forall|k: int| !#[trigger] comment_laws::occurs_at(rest, mark, k) by {
            if comment_laws::occurs_at(rest, mark, k) {
                assert(comment_laws::occurs_at(format, mark, k + width)) by {
                    assert forall|j: int| 0 <= j < 4 implies format[k + width + j]
                        == #[trigger] mark[j] by {
                        assert(rest[k + j] == mark[j]);
                    }
                }
            }
        }
        lemma_hour_not_shown(rest, now, hour);
    }
}

} // verus!
