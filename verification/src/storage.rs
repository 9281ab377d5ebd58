use vstd::prelude::*;

verus! {

/// Why stored bytes could not be read back.
#[derive(PartialEq, Eq, Structural, Clone, Copy, Debug)]
pub enum LocalReadError {
    /// Nothing is stored under the key.
    NotFound,
    /// What is stored is not hexadecimal text.
    InvalidData,
}

#[verifier::external_type_specification]
#[verifier::external_body]
pub struct ExFromHexError(hex::FromHexError);

pub open spec fn is_hex_digit(c: u8) -> bool {
    (48 <= c <= 57) || (65 <= c <= 70) || (97 <= c <= 102)
}

/// Value of a hexadecimal digit, in either case.
pub open spec fn hex_value(c: u8) -> int {
    if 48 <= c <= 57 {
        c - 48
    } else if 65 <= c <= 70 {
        c - 55
    } else {
        c - 87
    }
}

/// Text made of pairs of hexadecimal digits.
pub open spec fn is_hex_text(text: Seq<u8>) -> bool {
    &&& text.len() % 2 == 0
    &&& forall|i: int| 0 <= i < text.len() ==> is_hex_digit(#[trigger] text[i])
}

/// The bytes that pairs of hexadecimal digits stand for, high digit first.
pub open spec fn hex_decoded(text: Seq<u8>) -> Seq<u8> {
    Seq::new(text.len() / 2, |i: int| (16 * hex_value(text[2 * i]) + hex_value(text[2 * i + 1])) as u8)
}

/// `hex::decode`: text of pairs of hexadecimal digits (either case) decodes
/// to one byte per pair, high digit first; any other text is an error (odd
/// length, or a byte that is not a digit).
#[verifier::external_body]
fn hex_decode(text: &[u8]) -> (res: Result<Vec<u8>, hex::FromHexError>)
    ensures
        res is Ok <==> is_hex_text(text@),
        res matches Ok(bytes) ==> bytes@ == hex_decoded(text@),
{
    hex::decode(text)
}

/// Lower-case hexadecimal digit for `d < 16`.
pub open spec fn hex_digit(d: int) -> u8 {
    if d < 10 {
        (48 + d) as u8
    } else {
        (87 + d) as u8
    }
}

/// Two lower-case hexadecimal digits per byte, high digit first.
pub open spec fn hex_encoded(data: Seq<u8>) -> Seq<u8> {
    Seq::new(2 * data.len(), |k: int| if k % 2 == 0 { hex_digit(data[k / 2] as int / 16) } else { hex_digit(data[k / 2] as int % 16) })
}

fn digit(d: u8) -> (c: u8)
    requires
        d < 16,
    ensures
        c == hex_digit(d as int),
{
    if d < 10 {
        48 + d
    } else {
        87 + d
    }
}

/// The text stored for `data` in browser storage: each byte as two
/// lower-case hexadecimal digits.
pub fn hex_encode(data: &[u8]) -> (text: Vec<u8>)
    requires
        data@.len() * 2 <= usize::MAX,
    ensures
        text@ == hex_encoded(data@),
{
    let mut text: Vec<u8> = Vec::new();
    let mut i: usize = 0;
    while i < data.len()
        invariant
            i <= data@.len(),
            text.len() == 2 * i,
            forall|k: int| 0 <= k < 2 * i ==> #[trigger] text@[k] == hex_encoded(data@)[k],
        decreases data@.len() - i,
    {
        let b = data[i];
        text.push(digit(b / 16));
        text.push(digit(b % 16));
        proof {
            assert forall|k: int| 0 <= k < 2 * (i + 1) implies #[trigger] text@[k] == hex_encoded(data@)[k] by {
                if k >= 2 * i {
                    assert(k / 2 == i);
                }
            }
        }
        i = i + 1;
    }
    assert(text@ =~= hex_encoded(data@));
    text
}

/// Reads back bytes kept in browser storage, given what is stored under
/// their key: nothing is `NotFound`, text that is not hexadecimal is
/// `InvalidData`, anything else is the bytes it encodes.
pub fn read_local(stored: Option<&[u8]>) -> (res: Result<Vec<u8>, LocalReadError>)
    ensures
        stored is None ==> res == Err::<Vec<u8>, LocalReadError>(LocalReadError::NotFound),
        stored matches Some(text) ==> {
            &&& !is_hex_text(text@) ==> res == Err::<Vec<u8>, LocalReadError>(LocalReadError::InvalidData)
            &&& is_hex_text(text@) ==> (res matches Ok(bytes) && bytes@ == hex_decoded(text@))
        },
{
    match stored {
        Some(text) => match hex_decode(text) {
            Ok(bytes) => Ok(bytes),
            Err(_) => Err(LocalReadError::InvalidData),
        },
        None => Err(LocalReadError::NotFound),
    }
}

proof fn lemma_digit(d: int)
    requires
        0 <= d < 16,
    ensures
        is_hex_digit(hex_digit(d)),
        hex_value(hex_digit(d)) == d,
{
}

/// What is written to browser storage reads back unchanged: the stored text
/// is hexadecimal, and it decodes to the bytes that were written.
pub proof fn stored_bytes_read_back(data: Seq<u8>)
    ensures
        is_hex_text(hex_encoded(data)),
        hex_decoded(hex_encoded(data)) == data,
{
    let text = hex_encoded(data);
    assert forall|i: int| 0 <= i < text.len() implies is_hex_digit(#[trigger] text[i]) by {
        if i % 2 == 0 {
            lemma_digit(data[i / 2] as int / 16);
        } else {
            lemma_digit(data[i / 2] as int % 16);
        }
    }
    assert(text.len() % 2 == 0);
    assert forall|i: int| 0 <= i < data.len() implies #[trigger] hex_decoded(text)[i] == data[i] by {
        assert((2 * i) % 2 == 0 && (2 * i) / 2 == i);
        assert((2 * i + 1) % 2 == 1 && (2 * i + 1) / 2 == i);
        lemma_digit(data[i] as int / 16);
        lemma_digit(data[i] as int % 16);
    }
    assert(hex_decoded(text) =~= data);
}

/// Bytes of the most recently picked image, waiting for the next frame.
pub struct PendingImage {
    pub bytes: Option<Vec<u8>>,
}

impl PendingImage {
    pub fn new() -> (p: Self)
        ensures
            p.bytes is None,
    {
        PendingImage { bytes: None }
    }

    /// Keeps the bytes of a newly read image, replacing any not yet taken.
    pub fn store(&mut self, bytes: Vec<u8>)
        ensures
            final(self).bytes == Some(bytes),
    {
        self.bytes = Some(bytes);
    }
}

/// Hands out the waiting image bytes, if any, leaving nothing waiting.
pub fn take_pending(pending: &mut PendingImage) -> (res: Option<Vec<u8>>)
    ensures
        res == old(pending).bytes,
        final(pending).bytes is None,
{
    pending.bytes.take()
}

} // verus!
