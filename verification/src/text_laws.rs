//! What holds of numbers and letters as text.

use crate::text;
use vstd::prelude::*;
use vstd::utf8::*;

verus! {

// ---- Decimal numbers -----------------------------------------------------

/// Every character is a decimal digit.
pub open spec fn all_digits(s: Seq<char>) -> bool {
    forall|i: int| 0 <= i < s.len() ==> '0' <= #[trigger] s[i] <= '9'
}

/// The number that decimal digits stand for.
pub open spec fn digits_value(s: Seq<char>) -> int
    decreases s.len(),
{
    if s.len() == 0 {
        0
    } else {
        10 * digits_value(s.drop_last()) + (s.last() as int - '0' as int)
    }
}

/// The text is the number in decimal: digits alone, at least one, with no zero in
/// front of another digit.
pub open spec fn is_number(s: Seq<char>, n: int) -> bool {
    &&& s.len() > 0
    &&& all_digits(s)
    &&& s.len() > 1 ==> s[0] != '0'
    &&& digits_value(s) == n
}

/// The text is the number in decimal, filled up with zeros behind the sign to
/// `width` characters, and no further.
pub open spec fn is_padded_number(s: Seq<char>, n: int, width: nat) -> bool {
    let digits = if n < 0 {
        s.skip(1)
    } else {
        s
    };
    &&& n < 0 ==> s.len() > 0 && s[0] == '-'
    &&& digits.len() > 0
    &&& all_digits(digits)
    &&& digits_value(digits) == if n < 0 {
        -n
    } else {
        n
    }
    &&& s.len() >= width
    &&& s.len() > width && digits.len() > 1 ==> digits[0] != '0'
}

/// A number is written with the digits that stand for it.
pub proof fn law_decimal_is_read_back(n: nat)
    ensures
        is_number(text::decimal(n), n as int),
    decreases n,
{
    let s = text::decimal(n);
    if n < 10 {
        assert(s.drop_last() =~= seq![]);
        assert(digits_value(Seq::<char>::empty()) == 0);
    } else {
        law_decimal_is_read_back(n / 10);
        let high = text::decimal(n / 10);
        assert(s.drop_last() =~= high);
        assert(s[0] == high[0]);
        if high.len() == 1 && high[0] == '0' {
            assert(high.drop_last() =~= seq![]);
            assert(digits_value(Seq::<char>::empty()) == 0);
        }
        assert forall|i: int| 0 <= i < s.len() implies '0' <= #[trigger] s[i] <= '9' by {
            if i < high.len() {
                assert(s[i] == high[i]);
            }
        }
    }
}

proof fn lemma_zeros_in_front(zeros: Seq<char>, digits: Seq<char>)
    requires
        forall|i: int| 0 <= i < zeros.len() ==> #[trigger] zeros[i] == '0',
    ensures
        digits_value(zeros + digits) == digits_value(digits),
    decreases digits.len(), zeros.len(),
{
    let s = zeros + digits;
    if digits.len() > 0 {
        assert(s.drop_last() =~= zeros + digits.drop_last());
        lemma_zeros_in_front(zeros, digits.drop_last());
    } else if zeros.len() > 0 {
        assert(s.drop_last() =~= zeros.drop_last() + digits);
        assert(s.last() == zeros[zeros.len() - 1]);
        assert forall|i: int| 0 <= i < zeros.drop_last().len() implies #[trigger]
            zeros.drop_last()[i] == '0' by {
            assert(zeros[i] == '0');
        }
        lemma_zeros_in_front(zeros.drop_last(), digits);
    } else {
        assert(s =~= digits);
    }
}

/// A padded number is written with the digits that stand for it.
pub proof fn law_padded_number_is_read_back(n: int, width: nat)
    ensures
        is_padded_number(text::zero_padded(n, width), n, width),
{
    let m = if n < 0 {
        -n as nat
    } else {
        n as nat
    };
    let digits = text::decimal(m);
    let s = text::zero_padded(n, width);
    let signs: nat = if n < 0 {
        1
    } else {
        0
    };
    law_decimal_is_read_back(m);
    let fill = s.len() - signs - digits.len();
    let zeros = Seq::new(fill as nat, |i: int| '0');
    let shown = if n < 0 {
        s.skip(1)
    } else {
        s
    };
    assert(shown =~= zeros + digits);
    lemma_zeros_in_front(zeros, digits);
    assert forall|i: int| 0 <= i < shown.len() implies '0' <= #[trigger] shown[i] <= '9' by {
        if i >= zeros.len() {
            assert(shown[i] == digits[i - zeros.len()]);
        }
    }
    if s.len() > width {
        assert(zeros.len() == 0);
        assert(shown =~= digits);
    }
}

/// Two numbers that are padded to the same width are written alike only if they
/// are the same.
pub proof fn law_padded_numbers_differ(a: int, b: int, width: nat)
    requires
        text::zero_padded(a, width) == text::zero_padded(b, width),
    ensures
        a == b,
{
    law_padded_number_is_read_back(a, width);
    law_padded_number_is_read_back(b, width);
    let s = text::zero_padded(a, width);
    if a < 0 && b >= 0 {
        assert('0' <= s[0] <= '9');
    }
    if b < 0 && a >= 0 {
        assert('0' <= s[0] <= '9');
    }
}

// ---- Letters and bytes ---------------------------------------------------

/// In ASCII text each capital letter is lowered to the small one, and every other
/// character is kept.
pub proof fn law_ascii_is_lowered_letter_by_letter(s: Seq<char>)
    requires
        forall|i: int| 0 <= i < s.len() ==> '\0' <= #[trigger] s[i] <= '\u{7f}',
    ensures
        text::lowercase(s).len() == s.len(),
        forall|i: int|
            0 <= i < s.len() ==> (#[trigger] text::lowercase(s)[i]) as int == if 'A' <= s[i]
                <= 'Z' {
                s[i] as int + 32
            } else {
                s[i] as int
            },
{
    assert(is_ascii_chars(s));
}

/// White space in ASCII is the space, the tab and the four line and page breaks,
/// outside of it the next line, the spaces of Unicode, and its two separators.
pub proof fn law_white_space(c: char)
    ensures
        text::is_space(c) <==> {
            ||| c == ' ' || c == '\t' || c == '\n' || c == '\u{b}' || c == '\u{c}' || c == '\r'
            ||| c == '\u{85}' || c == '\u{a0}' || c == '\u{1680}'
            ||| '\u{2000}' <= c <= '\u{200a}'
            ||| c == '\u{2028}' || c == '\u{2029}' || c == '\u{202f}' || c == '\u{205f}'
            ||| c == '\u{3000}'
        },
{
}

/// The bytes of a text are read as that text.
pub proof fn law_text_is_read_back(s: Seq<char>)
    ensures
        text::lossy_text(encode_utf8(s)) == s,
{
    encode_utf8_valid_utf8(s);
    encode_utf8_decode_utf8(s);
}

/// The first place of a character: it stands there and nowhere before; where it
/// stands nowhere, the place is the end.
pub proof fn law_position_is_the_first(s: Seq<char>, c: char, p: nat)
    ensures
        text::position(s, c) == p <==> {
            &&& p <= s.len()
            &&& p < s.len() ==> s[p as int] == c
            &&& forall|k: int| 0 <= k < p ==> s[k] != c
        },
{
    text::lemma_position(s, c);
    if p <= s.len() && (p < s.len() ==> s[p as int] == c) && (forall|k: int|
        0 <= k < p ==> s[k] != c) {
        text::lemma_position_is(s, c, p as int);
    }
}

} // verus!
