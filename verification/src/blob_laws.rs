//! What a blob is hashed as, and what its content is read as.

use crate::blob_content;
use crate::blob_sha;
use crate::text;
use crate::text_laws;
use vstd::prelude::*;
use vstd::utf8::*;

verus! {

// ---- SHAs ----------------------------------------------------------------

/// The message is what git hashes for the content: the bytes of `blob `, the
/// number of bytes of the content in decimal, a zero byte, and the content.
pub open spec fn is_git_message(message: Seq<u8>, content: Seq<u8>) -> bool {
    exists|size: Seq<char>| #[trigger]
        text_laws::is_number(size, content.len() as int) && message == seq![
            98u8,
            108u8,
            111u8,
            98u8,
            32u8,
        ] + size.map_values(|c: char| c as u8) + seq![0u8] + content
}

/// The value of a hexadecimal digit in lower case; other characters have none.
pub open spec fn hex_value(c: char) -> int {
    if '0' <= c <= '9' {
        c as int - '0' as int
    } else if 'a' <= c <= 'f' {
        c as int - 'a' as int + 10
    } else {
        -1
    }
}

/// The text is the bytes in hexadecimal: two digits for each, the high one first.
pub open spec fn is_hex_of(s: Seq<char>, bytes: Seq<u8>) -> bool {
    &&& s.len() == 2 * bytes.len()
    &&& forall|i: int|
        0 <= i < bytes.len() ==> {
            &&& 0 <= hex_value(s[2 * i]) < 16
            &&& 0 <= hex_value(s[2 * i + 1]) < 16
            &&& #[trigger] bytes[i] as int == 16 * hex_value(s[2 * i]) + hex_value(s[2 * i + 1])
        }
}

/// The SHA of a blob is the SHA-1 of what git hashes for it, in hexadecimal.
pub proof fn law_blob_sha_is_that_of_git(content: Seq<u8>)
    ensures
        exists|message: Seq<u8>| #[trigger]
            is_git_message(message, content) && is_hex_of(
                blob_sha::git_blob_sha(content),
                blob_sha::sha1_digest(message),
            ),
{
    let message = blob_sha::blob_message(content);
    lemma_git_message(content);
    lemma_hex(blob_sha::sha1_digest(message));
}

proof fn lemma_git_message(content: Seq<u8>)
    ensures
        is_git_message(blob_sha::blob_message(content), content),
{
    let size = text::decimal(content.len());
    text_laws::law_decimal_is_read_back(content.len());
    let head = "blob "@ + size + seq!['\0'];
    reveal_strlit("blob ");
    assert forall|i: int| 0 <= i < head.len() implies '\0' <= #[trigger] head[i] <= '\u{7f}' by {
        if 5 <= i < 5 + size.len() {
            assert(head[i] == size[i - 5]);
        }
    }
    assert(is_ascii_chars(head));
    is_ascii_chars_encode_utf8(head);
    let shown = size.map_values(|c: char| c as u8);
    let start = seq![98u8, 108u8, 111u8, 98u8, 32u8];
    assert(encode_utf8(head) =~= start + shown + seq![0u8]) by {
        assert forall|i: int| 0 <= i < head.len() implies encode_utf8(head)[i] == (start + shown
            + seq![0u8])[i] by {
            assert(head[i] as u8 == encode_utf8(head)[i]);
            if 5 <= i < 5 + size.len() {
                assert(head[i] == size[i - 5]);
            }
        }
    }
    assert(text_laws::is_number(size, content.len() as int));
}

proof fn lemma_hex(bytes: Seq<u8>)
    ensures
        is_hex_of(blob_sha::hex(bytes), bytes),
{
    let s = blob_sha::hex(bytes);
    assert forall|i: int| 0 <= i < bytes.len() implies {
        &&& 0 <= hex_value(s[2 * i]) < 16
        &&& 0 <= hex_value(s[2 * i + 1]) < 16
        &&& #[trigger] bytes[i] as int == 16 * hex_value(s[2 * i]) + hex_value(s[2 * i + 1])
    } by {
        let b = bytes[i] as int;
        assert((2 * i) / 2 == i && (2 * i) % 2 == 0);
        assert((2 * i + 1) / 2 == i && (2 * i + 1) % 2 == 1);
        assert(s[2 * i] == blob_sha::hex_digit(b / 16));
        assert(s[2 * i + 1] == blob_sha::hex_digit(b % 16));
    }
}

// ---- Contents ------------------------------------------------------------

/// A blob in base64 is read back, however the text is broken by white space, and
/// text that is no base64 counts as an empty blob.
pub proof fn law_base64_blob_is_read_without_white_space(content: Seq<char>)
    ensures
        ({
            let letters = content.filter(|c: char| !text::is_space(c));
            &&& forall|data: Seq<u8>| #[trigger]
                blob_content::base64(data) == letters ==> blob_content::blob_bytes(
                    content,
                    "base64"@,
                ) == data
            &&& (forall|data: Seq<u8>| #[trigger] blob_content::base64(data) != letters)
                ==> blob_content::blob_bytes(content, "base64"@) == Seq::<u8>::empty()
        }),
{
    let letters = content.filter(|c: char| !text::is_space(c));
    assert forall|data: Seq<u8>| #[trigger]
        blob_content::base64(data) == letters implies blob_content::blob_bytes(content, "base64"@)
        == data by {
        blob_content::law_broken_blob_reads_back(data, content);
    }
}

/// A blob in any other encoding is the bytes of its text, white space and all.
pub proof fn law_other_blob_is_its_text(content: Seq<char>, encoding: Seq<char>)
    requires
        encoding != "base64"@,
    ensures
        blob_content::blob_bytes(content, encoding) == encode_utf8(content),
{
}

/// A base64 text has four characters for each three bytes, the last three bytes
/// filled up; each three bytes stand in four letters, six bits in each.
pub proof fn law_base64_holds_six_bits_in_each_letter(data: Seq<u8>, i: int)
    requires
        0 <= i,
        3 * i + 3 <= data.len(),
    ensures
        ({
            let s = blob_content::base64(data);
            &&& 4 * i + 4 <= s.len()
            &&& forall|k: int| 0 <= k < 4 ==> 0 <= letter_value(#[trigger] s[4 * i + k]) < 64
            &&& 65536 * data[3 * i] + 256 * data[3 * i + 1] + data[3 * i + 2] == 262144
                * letter_value(s[4 * i]) + 4096 * letter_value(s[4 * i + 1]) + 64 * letter_value(
                s[4 * i + 2],
            ) + letter_value(s[4 * i + 3])
        }),
{
    let s = blob_content::base64(data);
    assert(i + 1 <= (data.len() + 2) / 3);
    assert forall|k: int| 0 <= k < 4 implies #[trigger] s[4 * i + k] == blob_content::letter(
        blob_content::sextet(data, 4 * i + k),
    ) by {
        assert(3 * (4 * i + k) < 4 * data.len());
    }
    assert forall|k: int| 0 <= k < 4 implies (4 * i + k) / 4 == i && #[trigger] ((4 * i + k) % 4)
        == k by {}
    assert((4 * i + 0) % 4 == 0 && (4 * i + 1) % 4 == 1 && (4 * i + 2) % 4 == 2 && (4 * i + 3) % 4
        == 3);
    assert(s[4 * i + 0] == s[4 * i]);
    lemma_letter_value(blob_content::sextet(data, 4 * i));
    lemma_letter_value(blob_content::sextet(data, 4 * i + 1));
    lemma_letter_value(blob_content::sextet(data, 4 * i + 2));
    lemma_letter_value(blob_content::sextet(data, 4 * i + 3));
}

/// The six bits that a letter of base64 stands for; other characters have none.
pub open spec fn letter_value(c: char) -> int {
    if 'A' <= c <= 'Z' {
        c as int - 'A' as int
    } else if 'a' <= c <= 'z' {
        c as int - 'a' as int + 26
    } else if '0' <= c <= '9' {
        c as int - '0' as int + 52
    } else if c == '+' {
        62
    } else if c == '/' {
        63
    } else {
        -1
    }
}

proof fn lemma_letter_value(bits: int)
    requires
        0 <= bits < 64,
    ensures
        letter_value(blob_content::letter(bits)) == bits,
{
}

} // verus!
