//! The content of a blob as GitHub sends and takes it: base64 text.

use crate::blob_sha::push_bytes;
use crate::text;
use crate::text::text_is;
use vstd::prelude::*;
use vstd::utf8::*;

verus! {

// ---- Base64 --------------------------------------------------------------

/// The letter of the standard base64 alphabet for six bits.
pub open spec fn letter(bits: int) -> char {
    if bits < 26 {
        (65 + bits) as char
    } else if bits < 52 {
        (71 + bits) as char
    } else if bits < 62 {
        (bits - 4) as char
    } else if bits == 62 {
        '+'
    } else {
        '/'
    }
}

/// The byte at a position, or zero behind the end.
pub open spec fn octet(data: Seq<u8>, i: int) -> int {
    if i < data.len() {
        data[i] as int
    } else {
        0
    }
}

/// The `k`-th six bits of the data, from the highest bit of the first byte on.
pub open spec fn sextet(data: Seq<u8>, k: int) -> int {
    let i = 3 * (k / 4);
    if k % 4 == 0 {
        octet(data, i) / 4
    } else if k % 4 == 1 {
        octet(data, i) % 4 * 16 + octet(data, i + 1) / 16
    } else if k % 4 == 2 {
        octet(data, i + 1) % 16 * 4 + octet(data, i + 2) / 64
    } else {
        octet(data, i + 2) % 64
    }
}

/// The data in base64: a letter for each six bits that hold some of the data, and
/// `=` up to a multiple of four characters.
pub open spec fn base64(data: Seq<u8>) -> Seq<char> {
    Seq::new(
        4 * ((data.len() + 2) / 3),
        |k: int|
            if 3 * k < 4 * data.len() {
                letter(sextet(data, k))
            } else {
                '='
            },
    )
}

/// The base64 text of the data fits into memory.
pub open spec fn encodable(data: Seq<u8>) -> bool {
    4 * ((data.len() + 2) / 3) <= isize::MAX
}

/// The data that the text is the base64 of.
pub open spec fn unbase64(text: Seq<char>) -> Option<Seq<u8>> {
    if exists|data: Seq<u8>| #[trigger] base64(data) == text {
        Some(choose|data: Seq<u8>| #[trigger] base64(data) == text)
    } else {
        None
    }
}

/// `base64::engine::general_purpose::STANDARD.encode`: the data in base64, with
/// the standard alphabet and with padding. The text has to fit into memory, else
/// the call panics.
#[verifier::external_body]
fn base64_of(data: &[u8]) -> (encoded: String)
    requires
        encodable(data@),
    ensures
        encoded@ == base64(data@),
{
    base64::Engine::encode(&base64::engine::general_purpose::STANDARD, data)
}

/// `base64::engine::general_purpose::STANDARD.decode`: the data that the text is
/// the base64 of. The engine takes the one canonical text of each data: with its
/// padding, without spare bits, and with nothing but the letters. Any other text
/// is an error.
#[verifier::external_body]
fn data_of_base64(encoded: &str) -> (data: Option<Vec<u8>>)
    ensures
        match data {
            Some(bytes) => base64(bytes@) == encoded@,
            None => forall|bytes: Seq<u8>| #[trigger] base64(bytes) != encoded@,
        },
{
    base64::Engine::decode(&base64::engine::general_purpose::STANDARD, encoded).ok()
}

proof fn lemma_letter(a: int, b: int)
    requires
        0 <= a < 64,
        0 <= b < 64,
    ensures
        letter(a) == letter(b) <==> a == b,
        letter(a) != '=',
        !text::is_space(letter(a)),
{
}

proof fn lemma_sextet(data: Seq<u8>, k: int)
    requires
        k >= 0,
    ensures
        0 <= sextet(data, k) < 64,
{
}

/// Two base64 texts are the same only for the same data.
pub proof fn law_base64_tells_data_apart(a: Seq<u8>, b: Seq<u8>)
    ensures
        base64(a) == base64(b) <==> a == b,
{
    if base64(a) == base64(b) {
        if a.len() < b.len() {
            lemma_lengths_differ(a, b);
        }
        if b.len() < a.len() {
            lemma_lengths_differ(b, a);
        }
        assert forall|i: int| 0 <= i < a.len() implies a[i] == b[i] by {
            let k = 4 * (i / 3) + i % 3;
            lemma_same_sextet(a, b, k);
            lemma_same_sextet(a, b, k + 1);
            lemma_octet(a, i);
            lemma_octet(b, i);
        }
        assert(a =~= b);
    }
}

proof fn lemma_lengths_differ(a: Seq<u8>, b: Seq<u8>)
    requires
        a.len() < b.len(),
    ensures
        base64(a) != base64(b),
{
    assert(base64(a).len() == 4 * ((a.len() + 2) / 3));
    assert(base64(b).len() == 4 * ((b.len() + 2) / 3));
    if base64(a).len() == base64(b).len() {
        let k = (4 * a.len() + 2) as int / 3;
        assert(3 * k >= 4 * a.len() && 3 * k < 4 * b.len());
        lemma_sextet(b, k);
        lemma_letter(sextet(b, k), 0);
        assert(base64(a)[k] == '=');
        assert(base64(b)[k] != '=');
    }
}

proof fn lemma_same_sextet(a: Seq<u8>, b: Seq<u8>, k: int)
    requires
        base64(a) == base64(b),
        a.len() == b.len(),
        0 <= k,
        3 * k < 4 * a.len(),
    ensures
        sextet(a, k) == sextet(b, k),
{
    assert(k < base64(a).len());
    assert(base64(a)[k] == letter(sextet(a, k)));
    assert(base64(b)[k] == letter(sextet(b, k)));
    lemma_sextet(a, k);
    lemma_sextet(b, k);
    lemma_letter(sextet(a, k), sextet(b, k));
}

/// A byte, from the two groups of six bits that hold it.
proof fn lemma_octet(data: Seq<u8>, i: int)
    requires
        0 <= i < data.len(),
    ensures
        ({
            let k = 4 * (i / 3) + i % 3;
            data[i] == if i % 3 == 0 {
                sextet(data, k) * 4 + sextet(data, k + 1) / 16
            } else if i % 3 == 1 {
                sextet(data, k) % 16 * 16 + sextet(data, k + 1) / 4
            } else {
                sextet(data, k) % 4 * 64 + sextet(data, k + 1)
            }
        }),
{
}

// ---- Blobs ---------------------------------------------------------------

/// The text without its white space.
pub open spec fn without_space(content: Seq<char>) -> Seq<char> {
    content.filter(|c: char| !text::is_space(c))
}

/// The bytes of a blob: base64 text may be broken by white space, and faulty
/// base64 counts as empty; in any other encoding the text is taken as it is.
pub open spec fn blob_bytes(content: Seq<char>, encoding: Seq<char>) -> Seq<u8> {
    if encoding == "base64"@ {
        match unbase64(without_space(content)) {
            Some(data) => data,
            None => seq![],
        }
    } else {
        encode_utf8(content)
    }
}

proof fn lemma_base64_has_no_space(data: Seq<u8>)
    ensures
        without_space(base64(data)) == base64(data),
{
    let encoded = base64(data);
    let ink = |c: char| !text::is_space(c);
    assert forall|k: int| 0 <= k < encoded.len() implies ink(#[trigger] encoded[k]) by {
        if 3 * k < 4 * data.len() {
            lemma_sextet(data, k);
            lemma_letter(sextet(data, k), 0);
        }
    }
    lemma_filter_all(encoded, ink);
}

/// A filter that every character passes changes nothing.
proof fn lemma_filter_all(s: Seq<char>, pass: spec_fn(char) -> bool)
    requires
        forall|k: int| 0 <= k < s.len() ==> pass(#[trigger] s[k]),
    ensures
        s.filter(pass) == s,
    decreases s.len(),
{
    reveal(Seq::filter);
    if s.len() > 0 {
        lemma_filter_all(s.drop_last(), pass);
        assert(s.drop_last().push(s.last()) =~= s);
    } else {
        assert(s.filter(pass) =~= s);
    }
}

/// Leaves out the white space of a text.
fn drop_space(content: &str) -> (kept: String)
    ensures
        kept@ == without_space(content@),
{
    let mut kept = String::new();
    let chars = text::chars_of(content);
    proof {
        reveal(Seq::filter);
        assert(kept@ =~= without_space(chars@.take(0)));
    }
    for i in 0..chars.len()
        invariant
            kept@ == without_space(chars@.take(i as int)),
    {
        let c = chars[i];
        proof {
            reveal(Seq::filter);
            assert(chars@.take(i + 1).drop_last() =~= chars@.take(i as int));
        }
        if !c.is_whitespace() {
            kept.push(c);
        }
    }
    assert(chars@.take(chars@.len() as int) =~= chars@);
    kept
}

/// The content of a blob, as GitHub sends and takes it.
#[derive(Debug)]
pub struct BlobContent {
    pub content: String,
    pub encoding: String,
}

impl BlobContent {
    /// The bytes of the blob.
    pub fn bytes(&self) -> (bytes: Vec<u8>)
        ensures
            bytes@ == blob_bytes(self.content@, self.encoding@),
    {
        if text_is(&self.encoding, "base64") {
            let cleaned = drop_space(self.content.as_str());
            match data_of_base64(cleaned.as_str()) {
                Some(data) => {
                    proof {
                        let found = unbase64(cleaned@)->0;
                        law_base64_tells_data_apart(found, data@);
                    }
                    data
                },
                None => Vec::new(),
            }
        } else {
            let mut bytes: Vec<u8> = Vec::new();
            push_bytes(&mut bytes, self.content.as_str().as_bytes());
            assert(bytes@ =~= encode_utf8(self.content@));
            bytes
        }
    }

    /// The blob with the given bytes, in base64.
    pub fn new(bytes: &[u8]) -> (blob: BlobContent)
        requires
            encodable(bytes@),
        ensures
            blob.content@ == base64(bytes@),
            blob.encoding@ == "base64"@,
    {
        BlobContent { content: base64_of(bytes), encoding: "base64".to_owned() }
    }
}

/// A blob in base64 is read back, however the text is broken by white space.
pub proof fn law_broken_blob_reads_back(data: Seq<u8>, content: Seq<char>)
    requires
        without_space(content) == base64(data),
    ensures
        blob_bytes(content, "base64"@) == data,
{
    assert(unbase64(base64(data)) is Some);
    law_base64_tells_data_apart(unbase64(base64(data))->0, data);
}

/// A blob in base64 is read back.
pub proof fn law_sent_blob_reads_back(data: Seq<u8>)
    ensures
        blob_bytes(base64(data), "base64"@) == data,
{
    lemma_base64_has_no_space(data);
    law_broken_blob_reads_back(data, base64(data));
}

/// Text that is no base64 counts as an empty blob.
pub proof fn law_faulty_base64_is_empty(content: Seq<char>)
    requires
        forall|data: Seq<u8>| #[trigger] base64(data) != without_space(content),
    ensures
        blob_bytes(content, "base64"@) == Seq::<u8>::empty(),
{
}

} // verus!
