//! Text primitives shared by the other modules: what the standard library
//! says of characters and strings, and decimal numbers as text.

use vstd::prelude::*;
use vstd::utf8::*;

verus! {

// ---- Character classes ---------------------------------------------------

/// The Unicode `Alphabetic` property of a character outside ASCII.
pub uninterp spec fn unicode_alphabetic(c: char) -> bool;

/// What `str::to_lowercase` makes of text that is not all ASCII.
pub uninterp spec fn unicode_lowercase(text: Seq<char>) -> Seq<char>;

/// What `String::from_utf8_lossy` makes of bytes that are not UTF-8.
pub uninterp spec fn utf8_with_replacements(bytes: Seq<u8>) -> Seq<char>;

/// `c` is white space: a character with the Unicode property `White_Space`.
pub open spec fn is_space(c: char) -> bool {
    let n = c as u32;
    ||| 0x9 <= n <= 0xD
    ||| n == 0x20
    ||| n == 0x85
    ||| n == 0xA0
    ||| n == 0x1680
    ||| 0x2000 <= n <= 0x200A
    ||| n == 0x2028
    ||| n == 0x2029
    ||| n == 0x202F
    ||| n == 0x205F
    ||| n == 0x3000
}

/// `c` is a letter: an ASCII letter or a character that Unicode classes as
/// alphabetic.
pub open spec fn is_letter(c: char) -> bool {
    if (c as u32) < 128 {
        'a' <= c <= 'z' || 'A' <= c <= 'Z'
    } else {
        unicode_alphabetic(c)
    }
}

/// `char::is_whitespace`: true of the characters with the `White_Space`
/// property, which `is_space` lists.
pub assume_specification[ char::is_whitespace ](c: char) -> (found: bool)
    ensures
        found == is_space(c),
;

/// `char::is_alphabetic`: true of the characters with the `Alphabetic`
/// property, which among the ASCII characters are the letters.
pub assume_specification[ char::is_alphabetic ](c: char) -> (found: bool)
    ensures
        found == (if (c as u32) < 128 {
            'a' <= c <= 'z' || 'A' <= c <= 'Z'
        } else {
            unicode_alphabetic(c)
        }),
;

/// `char::len_utf8`: the number of bytes that UTF-8 takes for the character.
pub assume_specification[ char::len_utf8 ](c: char) -> (n: usize)
    ensures
        n == encode_utf8(seq![c]).len(),
;

/// `String::push`: appends one character.
pub assume_specification[ String::push ](string: &mut String, c: char)
    ensures
        final(string)@ == old(string)@.push(c),
;

// ---- Lower case and lossy decoding ---------------------------------------

/// The lower case of an ASCII character.
pub open spec fn ascii_lower(c: char) -> char {
    if 'A' <= c <= 'Z' {
        (c as u32 + 32) as char
    } else {
        c
    }
}

/// The text in lower case.
pub open spec fn lowercase(text: Seq<char>) -> Seq<char> {
    if is_ascii_chars(text) {
        text.map_values(|c: char| ascii_lower(c))
    } else {
        unicode_lowercase(text)
    }
}

/// `str::to_lowercase`: the lower case of the text; in ASCII text each capital
/// letter is replaced by its small one and every other character is kept.
pub assume_specification[ str::to_lowercase ](s: &str) -> (lower: String)
    ensures
        lower@ == (if is_ascii_chars(s@) {
            s@.map_values(|c: char| ascii_lower(c))
        } else {
            unicode_lowercase(s@)
        }),
;

/// The text that the bytes hold, each fault in their encoding replaced.
pub open spec fn lossy_text(bytes: Seq<u8>) -> Seq<char> {
    if valid_utf8(bytes) {
        decode_utf8(bytes)
    } else {
        utf8_with_replacements(bytes)
    }
}

/// `String::from_utf8_lossy`: decodes the bytes as UTF-8, which for valid UTF-8
/// is the text they encode.
#[verifier::external_body]
pub(crate) fn text_of_bytes(bytes: &[u8]) -> (text: String)
    ensures
        text@ == (if valid_utf8(bytes@) {
            decode_utf8(bytes@)
        } else {
            utf8_with_replacements(bytes@)
        }),
{
    String::from_utf8_lossy(bytes).into_owned()
}

// ---- Sequences of characters ---------------------------------------------

/// The models of a sequence of strings.
pub open spec fn text_views(texts: Seq<String>) -> Seq<Seq<char>> {
    texts.map_values(|t: String| t@)
}

/// The characters of a string, as a vector.
pub(crate) fn chars_of(text: &str) -> (chars: Vec<char>)
    ensures
        chars@ == text@,
{
    let mut chars: Vec<char> = Vec::new();
    for c in it: text.chars()
        invariant
            it.seq() == text@,
            chars@ == text@.take(it.index() as int),
    {
        chars.push(c);
    }
    chars
}

/// The string made of `chars[from..to]`.
pub(crate) fn text_of_range(chars: &Vec<char>, from: usize, to: usize) -> (text: String)
    requires
        from <= to <= chars@.len(),
    ensures
        text@ == chars@.subrange(from as int, to as int),
{
    let mut text = String::new();
    for i in from..to
        invariant
            to <= chars@.len(),
            text@ == chars@.subrange(from as int, i as int),
    {
        text.push(chars[i]);
    }
    text
}

/// Whether a string holds exactly the given text.
pub(crate) fn text_is(text: &String, expected: &str) -> (same: bool)
    ensures
        same == (text@ == expected@),
{
    *text == expected.to_owned()
}

/// Whether `text` stands in `chars` at position `at`.
pub(crate) fn matches_at(chars: &Vec<char>, at: usize, text: &Vec<char>) -> (found: bool)
    requires
        at <= chars@.len(),
    ensures
        found == text@.is_prefix_of(chars@.skip(at as int)),
{
    if chars.len() - at < text.len() {
        return false;
    }
    for i in 0..text.len()
        invariant
            at + text.len() <= chars.len(),
            forall|k: int| 0 <= k < i ==> chars@[at + k] == text@[k],
    {
        if chars[at + i] != text[i] {
            assert(chars@.skip(at as int).take(text@.len() as int)[i as int] != text@[i as int]);
            return false;
        }
    }
    assert(chars@.skip(at as int).take(text@.len() as int) =~= text@);
    true
}

/// The position of the first `c` in `s`, or the length of `s` where there is
/// none.
pub open spec fn position(s: Seq<char>, c: char) -> nat
    decreases s.len(),
{
    if s.len() == 0 || s[0] == c {
        0
    } else {
        1 + position(s.skip(1), c)
    }
}

/// `position` is the first index that holds `c`.
pub proof fn lemma_position(s: Seq<char>, c: char)
    ensures
        position(s, c) <= s.len(),
        position(s, c) < s.len() ==> s[position(s, c) as int] == c,
        forall|k: int| 0 <= k < position(s, c) ==> s[k] != c,
    decreases s.len(),
{
    if s.len() > 0 && s[0] != c {
        lemma_position(s.skip(1), c);
        assert forall|k: int| 0 <= k < position(s, c) implies s[k] != c by {
            if k > 0 {
                assert(s[k] == s.skip(1)[k - 1]);
            }
        }
    }
}

/// An index with those properties is `position`.
pub proof fn lemma_position_is(s: Seq<char>, c: char, p: int)
    requires
        0 <= p <= s.len(),
        p < s.len() ==> s[p] == c,
        forall|k: int| 0 <= k < p ==> s[k] != c,
    ensures
        position(s, c) == p,
{
    lemma_position(s, c);
    if position(s, c) < p {
        assert(s[position(s, c) as int] != c);
    }
}

/// The position of the first `c` at or after `from`, or the length.
pub(crate) fn find_char(chars: &Vec<char>, from: usize, c: char) -> (at: usize)
    requires
        from <= chars@.len(),
    ensures
        from <= at <= chars@.len(),
        at - from == position(chars@.skip(from as int), c),
{
    let mut at: usize = from;
    while at < chars.len() && chars[at] != c
        invariant
            from <= at <= chars@.len(),
            forall|k: int| from <= k < at ==> chars@[k] != c,
        decreases chars@.len() - at,
    {
        at = at + 1;
    }
    proof {
        lemma_position_is(chars@.skip(from as int), c, at - from);
    }
    at
}

/// UTF-8 encodes a concatenation piece by piece.
pub proof fn lemma_encode_concat(a: Seq<char>, b: Seq<char>)
    ensures
        encode_utf8(a + b) == encode_utf8(a) + encode_utf8(b),
    decreases a.len(),
{
    if a.len() == 0 {
        assert(a + b =~= b);
        assert(encode_utf8(a) + encode_utf8(b) =~= encode_utf8(b));
    } else {
        lemma_encode_concat(a.drop_first(), b);
        assert((a + b).drop_first() =~= a.drop_first() + b);
        assert((a + b)[0] == a[0]);
        assert(encode_utf8(a + b) =~= encode_utf8(a) + encode_utf8(b));
    }
}

// ---- Decimal numbers -----------------------------------------------------

/// The decimal digit `d`.
pub open spec fn digit(d: nat) -> char {
    (48 + d) as char
}

/// The decimal digits of `n`, without leading zeros.
pub open spec fn decimal(n: nat) -> Seq<char>
    decreases n,
{
    if n < 10 {
        seq![digit(n)]
    } else {
        decimal(n / 10).push(digit(n % 10))
    }
}

/// `n` in decimal, padded with zeros after the sign to at least `width`
/// characters.
pub open spec fn zero_padded(n: int, width: nat) -> Seq<char> {
    let sign: Seq<char> = if n < 0 {
        seq!['-']
    } else {
        seq![]
    };
    let digits = decimal(if n < 0 {
        -n as nat
    } else {
        n as nat
    });
    let used = sign.len() + digits.len();
    let zeros: Seq<char> = Seq::new(
        if used < width {
            (width - used) as nat
        } else {
            0
        },
        |i: int| '0',
    );
    sign + zeros + digits
}

/// The character of a decimal digit.
fn digit_char(d: u64) -> (c: char)
    requires
        d < 10,
    ensures
        c == digit(d as nat),
{
    (48 + d as u8) as char
}

/// Appends the decimal digits of `n`.
pub(crate) fn push_decimal(text: &mut String, n: u64)
    ensures
        final(text)@ == old(text)@ + decimal(n as nat),
    decreases n,
{
    if n < 10 {
        text.push(digit_char(n));
        assert(text@ =~= old(text)@ + decimal(n as nat));
    } else {
        push_decimal(text, n / 10);
        text.push(digit_char(n % 10));
        assert(text@ =~= old(text)@ + decimal(n as nat));
    }
}

/// Appends `n` in decimal, zero-padded to `width` characters.
pub(crate) fn push_zero_padded(text: &mut String, n: i64, width: usize)
    requires
        n > i64::MIN,
    ensures
        final(text)@ == old(text)@ + zero_padded(n as int, width as nat),
{
    let magnitude: u64 = if n < 0 {
        (-n) as u64
    } else {
        n as u64
    };
    let mut digits = String::new();
    push_decimal(&mut digits, magnitude);
    let ghost before = text@;
    let ghost sign: Seq<char> = if n < 0 {
        seq!['-']
    } else {
        seq![]
    };
    assert(digits@ =~= decimal(magnitude as nat));
    let digit_count: usize = chars_of(digits.as_str()).len();
    let sign_count: usize = if n < 0 {
        1
    } else {
        0
    };
    if n < 0 {
        text.push('-');
    }
    assert(text@ =~= before + sign);
    let room: usize = if width > sign_count {
        width - sign_count
    } else {
        0
    };
    let mut padded: usize = digit_count;
    let ghost mut zeros: Seq<char> = seq![];
    while padded < room
        invariant
            digit_count <= padded,
            padded <= room || padded == digit_count,
            zeros =~= Seq::new((padded - digit_count) as nat, |i: int| '0'),
            text@ == before + sign + zeros,
        decreases room - padded,
    {
        text.push('0');
        proof {
            zeros = zeros.push('0');
        }
        padded = padded + 1;
        assert(text@ =~= before + sign + zeros);
    }
    text.append(digits.as_str());
    assert(text@ =~= before + zero_padded(n as int, width as nat));
}

} // verus!
