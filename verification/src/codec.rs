//! The stream cipher codec: a keystream derived from the key, combined with
//! the data byte by byte. Encoding and decoding are the same operation.

use crypto::rc4::Rc4;
use crypto::symmetriccipher::SynchronousStreamCipher;
use vstd::prelude::*;
use vstd::slice::{slice_subrange, slice_to_vec};
use vstd::string::StringSliceAdditionalSpecFns;

verus! {

/// How many bytes of a key the cipher reads: of a longer key, the bytes
/// after these do not tell in the keystream.
pub const MAX_KEY_LEN: usize = 256;

/// Why a key was refused.
#[derive(Clone, Copy, Debug, PartialEq, Eq)]
pub enum KeyError {
    /// The key has no bytes.
    Empty,
}

/// Byte `i` of the keystream that RC4 derives from `key`: what the cipher
/// hands out at its `i`-th step after being set up with that key.
pub uninterp spec fn rc4_keystream(key: Seq<u8>, i: int) -> u8;

/// The part of `key` that the cipher is set up with: its first
/// [`MAX_KEY_LEN`] bytes, which for most keys is the whole key.
pub open spec fn cipher_key(key: Seq<u8>) -> Seq<u8> {
    if key.len() > MAX_KEY_LEN {
        key.take(MAX_KEY_LEN as int)
    } else {
        key
    }
}

/// The data with each byte combined with the keystream byte of its position.
pub open spec fn apply_keystream(data: Seq<u8>, key: Seq<u8>) -> Seq<u8> {
    Seq::new(data.len(), |i: int| data[i] ^ rc4_keystream(key, i))
}

/// What the codec gives for `data` under `key`: the refusal of an empty
/// key, and under any other key the data combined with the keystream.
pub open spec fn cipher(data: Seq<u8>, key: Seq<u8>) -> Result<Seq<u8>, KeyError> {
    if key.len() == 0 {
        Err(KeyError::Empty)
    } else {
        Ok(apply_keystream(data, cipher_key(key)))
    }
}

/// Sets up `crypto::rc4::Rc4` with `key` (`Rc4::new`) and runs it once over
/// `input` into `output` (`SynchronousStreamCipher::process`).
///
/// Trusted: `process` writes to each position the input byte xor-ed with the
/// next keystream byte, and the keystream depends on the key alone. `new`
/// panics on a key outside 1..=256 bytes and `process` on buffers of
/// different lengths, so both are required here.
#[verifier::external_body]
fn rc4_process(key: &[u8], input: &[u8], output: &mut Vec<u8>)
    requires
        1 <= key@.len() <= 256,
        old(output)@.len() == input@.len(),
    ensures
        final(output)@.len() == input@.len(),
        forall|i: int|
            0 <= i < input@.len() ==> #[trigger] final(output)@[i] == input@[i] ^ rc4_keystream(
                key@,
                i,
            ),
{
    let mut cipher = Rc4::new(key);
    cipher.process(input, output.as_mut_slice());
}

/// The bytes that stand for a text: its UTF-8 encoding.
pub open spec fn bytes_of(text: Seq<char>) -> Seq<u8> {
    vstd::utf8::encode_utf8(text)
}

/// Runs the cipher over `input` under the bytes of `key`.
///
/// An empty key is refused, and no other. Any other key gives as many bytes
/// as came in, each combined with the keystream byte of its position.
pub fn encode_vec(input: Vec<u8>, key: String) -> (r: Result<Vec<u8>, KeyError>)
    ensures
        match r {
            Ok(out) => cipher(input@, bytes_of(key@)) == Ok::<Seq<u8>, KeyError>(out@),
            Err(e) => cipher(input@, bytes_of(key@)) == Err::<Seq<u8>, KeyError>(e),
        },
        r is Ok <==> bytes_of(key@).len() > 0,
        r matches Ok(out) ==> out@.len() == input@.len(),
{
    let key_bytes = key.as_str().as_bytes();
    if key_bytes.len() == 0 {
        return Err(KeyError::Empty);
    }
    let read = if key_bytes.len() > MAX_KEY_LEN {
        slice_subrange(key_bytes, 0, MAX_KEY_LEN)
    } else {
        key_bytes
    };
    assert(read@ =~= cipher_key(bytes_of(key@)));
    let mut output: Vec<u8> = vec![0u8; input.len()];
    rc4_process(read, input.as_slice(), &mut output);
    assert(output@ =~= apply_keystream(input@, cipher_key(bytes_of(key@))));
    Ok(output)
}

/// Encodes the bytes of the text `input` under the bytes of `key`.
pub fn encode(input: String, key: String) -> (r: Result<Vec<u8>, KeyError>)
    ensures
        match r {
            Ok(out) => cipher(bytes_of(input@), bytes_of(key@)) == Ok::<Seq<u8>, KeyError>(out@),
            Err(e) => cipher(bytes_of(input@), bytes_of(key@)) == Err::<Seq<u8>, KeyError>(e),
        },
        r is Ok <==> bytes_of(key@).len() > 0,
        r matches Ok(out) ==> out@.len() == bytes_of(input@).len(),
{
    encode_vec(slice_to_vec(input.as_str().as_bytes()), key)
}

/// Decodes `input` under `key`: the same operation as [`encode_vec`], named
/// for the direction it is used in.
pub fn decode(input: Vec<u8>, key: String) -> (r: Result<Vec<u8>, KeyError>)
    ensures
        match r {
            Ok(out) => cipher(input@, bytes_of(key@)) == Ok::<Seq<u8>, KeyError>(out@),
            Err(e) => cipher(input@, bytes_of(key@)) == Err::<Seq<u8>, KeyError>(e),
        },
        r is Ok <==> bytes_of(key@).len() > 0,
        r matches Ok(out) ==> out@.len() == input@.len(),
{
    encode_vec(input, key)
}

/// Combining a byte twice with the same keystream byte gives it back.
proof fn lemma_xor_twice(a: u8, k: u8)
    ensures
        (a ^ k) ^ k == a,
{
    assert((a ^ k) ^ k == a) by (bit_vector);
}

/// Decoding what was encoded under the same key gives the data back: under
/// every key that is not empty, the cipher is its own inverse, and what it
/// gives is as long as what it was given.
pub proof fn lemma_decode_inverts_encode(data: Seq<u8>, key: Seq<u8>)
    requires
        key.len() > 0,
    ensures
        cipher(data, key) matches Ok(encoded) && encoded.len() == data.len() && cipher(
            encoded,
            key,
        ) == Ok::<Seq<u8>, KeyError>(data),
{
    let read = cipher_key(key);
    let encoded = apply_keystream(data, read);
    assert forall|i: int| 0 <= i < data.len() implies #[trigger] apply_keystream(encoded, read)[i]
        == data[i] by {
        lemma_xor_twice(data[i], rc4_keystream(read, i));
    }
    assert(apply_keystream(encoded, read) =~= data);
}

} // verus!
