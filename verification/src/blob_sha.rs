//! The name that git gives a blob: the SHA-1 of a header and the content.

use crate::text;
use crate::text::push_decimal;
use vstd::prelude::*;
use vstd::utf8::*;

verus! {

/// The SHA-1 digest of a message.
pub uninterp spec fn sha1_digest(message: Seq<u8>) -> Seq<u8>;

/// `sha1::Sha1::digest`: the SHA-1 digest of the message, which has 20 bytes.
#[verifier::external_body]
fn sha1_of(message: &[u8]) -> (digest: Vec<u8>)
    ensures
        digest@ == sha1_digest(message@),
        digest@.len() == 20,
{
    <sha1::Sha1 as sha1::Digest>::digest(message).to_vec()
}

/// The message that git hashes for a blob: the word `blob`, a space, the length
/// of the content in decimal, a zero byte, and the content.
pub open spec fn blob_message(content: Seq<u8>) -> Seq<u8> {
    encode_utf8("blob "@ + text::decimal(content.len()) + seq!['\0']) + content
}

/// The hexadecimal digit `d`, in lower case.
pub open spec fn hex_digit(d: int) -> char {
    if d < 10 {
        (48 + d) as char
    } else {
        (87 + d) as char
    }
}

/// Bytes in hexadecimal, two digits each.
pub open spec fn hex(bytes: Seq<u8>) -> Seq<char> {
    Seq::new(
        2 * bytes.len(),
        |i: int|
            hex_digit(
                if i % 2 == 0 {
                    bytes[i / 2] as int / 16
                } else {
                    bytes[i / 2] as int % 16
                },
            ),
    )
}

/// The SHA of a blob, as git writes it.
pub open spec fn git_blob_sha(content: Seq<u8>) -> Seq<char> {
    hex(sha1_digest(blob_message(content)))
}

/// The character of a hexadecimal digit.
fn hex_char(d: u8) -> (c: char)
    requires
        d < 16,
    ensures
        c == hex_digit(d as int),
{
    if d < 10 {
        (48 + d) as char
    } else {
        (87 + d) as char
    }
}

/// Writes bytes in hexadecimal.
fn to_hex(bytes: &Vec<u8>) -> (out: String)
    ensures
        out@ == hex(bytes@),
{
    let mut out = String::new();
    assert(out@ =~= hex(bytes@.take(0)));
    for i in 0..bytes.len()
        invariant
            out@ == hex(bytes@.take(i as int)),
    {
        let ghost before = out@;
        let b = bytes[i];
        out.push(hex_char(b / 16));
        out.push(hex_char(b % 16));
        proof {
            let shorter = bytes@.take(i as int);
            let longer = bytes@.take(i + 1);
            assert forall|k: int| 0 <= k < out@.len() implies out@[k] == hex(longer)[k] by {
                if k < before.len() {
                    assert(before[k] == hex(shorter)[k]);
                    assert(shorter[k / 2] == longer[k / 2]);
                } else {
                    assert(longer[k / 2] == b);
                }
            }
            assert(out@ =~= hex(longer));
        }
    }
    assert(bytes@.take(bytes@.len() as int) =~= bytes@);
    out
}

/// Appends bytes.
pub(crate) fn push_bytes(out: &mut Vec<u8>, bytes: &[u8])
    ensures
        final(out)@ == old(out)@ + bytes@,
{
    let ghost before = out@;
    assert(out@ =~= before + bytes@.take(0));
    for i in 0..bytes.len()
        invariant
            out@ == before + bytes@.take(i as int),
    {
        out.push(bytes[i]);
        assert(out@ =~= before + bytes@.take(i + 1));
    }
    assert(bytes@.take(bytes@.len() as int) =~= bytes@);
}

/// The git SHA-1 of a blob with the given content, as GitHub computes it. It
/// tells whether a file differs from a tree entry without fetching the blob.
pub fn compute_git_blob_sha(content: &[u8]) -> (sha: String)
    ensures
        sha@ == git_blob_sha(content@),
        sha@.len() == 40,
{
    let mut header = "blob ".to_owned();
    push_decimal(&mut header, content.len() as u64);
    header.push('\0');
    assert(header@ =~= "blob "@ + text::decimal(content@.len()) + seq!['\0']);
    let mut message: Vec<u8> = Vec::new();
    push_bytes(&mut message, header.as_str().as_bytes());
    push_bytes(&mut message, content);
    assert(message@ =~= blob_message(content@));
    let digest = sha1_of(message.as_slice());
    to_hex(&digest)
}

/// Two hexadecimal texts are the same only for the same bytes.
pub proof fn law_hex_tells_bytes_apart(a: Seq<u8>, b: Seq<u8>)
    ensures
        hex(a) == hex(b) <==> a == b,
{
    if hex(a) == hex(b) {
        assert(hex(a).len() == 2 * a.len());
        assert(hex(b).len() == 2 * b.len());
        assert forall|i: int| 0 <= i < a.len() implies a[i] == b[i] by {
            assert(hex(a)[2 * i] == hex(b)[2 * i]);
            assert(hex(a)[2 * i + 1] == hex(b)[2 * i + 1]);
            lemma_hex_digit(a[i] as int / 16, b[i] as int / 16);
            lemma_hex_digit(a[i] as int % 16, b[i] as int % 16);
            assert(a[i] == 16 * (a[i] as int / 16) + a[i] as int % 16);
        }
        assert(a =~= b);
    }
}

proof fn lemma_hex_digit(a: int, b: int)
    requires
        0 <= a < 16,
        0 <= b < 16,
    ensures
        hex_digit(a) == hex_digit(b) <==> a == b,
{
}

/// A digit takes one byte.
proof fn lemma_digit_bytes(d: nat)
    requires
        d < 10,
    ensures
        encode_utf8(seq![text::digit(d)]).len() == 1,
{
    reveal_with_fuel(encode_utf8, 2);
    let c = text::digit(d);
    assert(seq![c].drop_first().len() == 0);
}

/// A larger number takes at least as many bytes.
proof fn lemma_decimal_bytes(n: nat, m: nat)
    requires
        n <= m,
    ensures
        1 <= encode_utf8(text::decimal(n)).len() <= encode_utf8(text::decimal(m)).len(),
    decreases m,
{
    lemma_digit_bytes(n % 10);
    lemma_digit_bytes(m % 10);
    if m >= 10 {
        let m_high = text::decimal(m / 10);
        let m_last = seq![text::digit(m % 10)];
        text::lemma_encode_concat(m_high, m_last);
        assert(text::decimal(m) =~= m_high + m_last);
        if n >= 10 {
            let n_high = text::decimal(n / 10);
            let n_last = seq![text::digit(n % 10)];
            lemma_decimal_bytes(n / 10, m / 10);
            text::lemma_encode_concat(n_high, n_last);
            assert(text::decimal(n) =~= n_high + n_last);
        }
    }
}

/// The header of the message.
spec fn header(len: nat) -> Seq<u8> {
    encode_utf8("blob "@ + text::decimal(len) + seq!['\0'])
}

proof fn lemma_header(n: nat, m: nat)
    requires
        n <= m,
    ensures
        header(n).len() <= header(m).len(),
{
    text::lemma_encode_concat("blob "@, text::decimal(n));
    text::lemma_encode_concat("blob "@ + text::decimal(n), seq!['\0']);
    text::lemma_encode_concat("blob "@, text::decimal(m));
    text::lemma_encode_concat("blob "@ + text::decimal(m), seq!['\0']);
    lemma_decimal_bytes(n, m);
}

/// Different contents are hashed as different messages, so that a shared SHA
/// means the same content or a collision of SHA-1.
pub proof fn law_messages_tell_contents_apart(a: Seq<u8>, b: Seq<u8>)
    ensures
        blob_message(a) == blob_message(b) <==> a == b,
{
    if blob_message(a) == blob_message(b) {
        assert(blob_message(a).len() == header(a.len()).len() + a.len());
        assert(blob_message(b).len() == header(b.len()).len() + b.len());
        if a.len() <= b.len() {
            lemma_header(a.len(), b.len());
        } else {
            lemma_header(b.len(), a.len());
        }
        let n = header(a.len()).len() as int;
        assert(blob_message(a).skip(n) =~= a);
        assert(blob_message(b).skip(n) =~= b);
    }
}

} // verus!
