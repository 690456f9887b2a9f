//! Messages on paper: `lxm://` addresses that hold a whole encrypted message.

use vstd::prelude::*;
use vstd::slice::slice_subrange;

use crate::bytes::{copy_slice, join, to_fixed};
use crate::constants::{DeliveryMethod, DeliveryRepresentation, LXMF_OVERHEAD, PAPER_MDU};
use crate::message::{
    answers, is_pack_error, is_packable, is_packed, is_unpack_error, packed, unpacked, LxMessage,
    MessageError, MessageModel,
};
use crate::propagated::{hidden_part, lxmf_data};

verus! {

/// The text that `base64` makes of some bytes with its URL-safe alphabet and without
/// padding.
pub uninterp spec fn base64_text(data: Seq<u8>) -> Seq<char>;

/// The bytes that `base64` reads in a text with its URL-safe alphabet and without
/// padding; nothing where it reports an error.
pub uninterp spec fn base64_bytes(text: Seq<char>) -> Option<Seq<u8>>;

/// `base64::Engine::encode` of `URL_SAFE_NO_PAD`, whose `decode` reads back what it
/// wrote.
#[verifier::external_body]
fn outside_base64_encode(data: &[u8]) -> (t: String)
    requires
        data@.len() <= PAPER_MDU,
    ensures
        t@ == base64_text(data@),
        base64_bytes(t@) == Some(data@),
{
    base64::Engine::encode(&base64::engine::general_purpose::URL_SAFE_NO_PAD, data)
}

/// `base64::Engine::decode` of `URL_SAFE_NO_PAD`.
#[verifier::external_body]
fn outside_base64_decode(text: &str) -> (r: Option<Vec<u8>>)
    ensures
        r is Some <==> base64_bytes(text@) is Some,
        r matches Some(b) ==> base64_bytes(text@) == Some(b@),
{
    base64::Engine::decode(&base64::engine::general_purpose::URL_SAFE_NO_PAD, text).ok()
}

/// `str::strip_prefix`: what follows the prefix, where the text starts with it.
#[verifier::external_body]
fn outside_strip_prefix<'a>(text: &'a str, prefix: &str) -> (r: Option<&'a str>)
    ensures
        r is Some <==> prefix@.is_prefix_of(text@),
        r matches Some(rest) ==> text@ == prefix@ + rest@,
{
    text.strip_prefix(prefix)
}

/// What the address of a message starts with.
pub open spec fn scheme() -> Seq<char> {
    "lxm://"@
}

/// The bytes in an address.
pub open spec fn paper_bytes(uri: Seq<char>) -> Option<Seq<u8>> {
    if scheme().is_prefix_of(uri) {
        base64_bytes(uri.skip(scheme().len() as int))
    } else {
        None
    }
}

/// Whether `outcome` is what decoding an address gives.
pub open spec fn is_paper_content(
    uri: Seq<char>,
    outcome: Result<([u8; 16], Vec<u8>), MessageError>,
) -> bool {
    match paper_bytes(uri) {
        None => outcome matches Err(e) && e is InvalidUri,
        Some(b) => if b.len() < LXMF_OVERHEAD {
            outcome == Err::<([u8; 16], Vec<u8>), MessageError>(
                MessageError::TooShort(b.len() as usize),
            )
        } else {
            outcome matches Ok((destination, rest)) && destination@ == b.subrange(0, 16) && rest@
                == b.subrange(16, b.len() as int)
        },
    }
}

/// A message that was read from paper.
pub open spec fn from_paper(data: Seq<u8>) -> MessageModel {
    MessageModel {
        method: DeliveryMethod::Paper,
        representation: DeliveryRepresentation::Paper,
        ..unpacked(data)
    }
}

impl LxMessage {
    /// The address of the message: everything behind the destination hash is encrypted.
    pub fn to_paper_uri<F>(&self, encrypt_fn: F) -> (r: Result<String, MessageError>) where
        F: FnOnce(&[u8]) -> Result<Vec<u8>, MessageError>,

        requires
            forall|s: &[u8]| call_requires(encrypt_fn, (s,)),
        ensures
            self@.method != DeliveryMethod::Paper ==> r is Err && r->Err_0 is PackFailed,
            self@.method == DeliveryMethod::Paper && !is_packable(self@) ==> r is Err
                && is_pack_error(self@, r->Err_0),
            self@.method == DeliveryMethod::Paper && is_packable(self@) ==> exists|
                outcome: Result<Vec<u8>, MessageError>,
            | #[trigger]
                answers(encrypt_fn, hidden_part(self@), outcome) && match outcome {
                    Ok(encrypted) => {
                        let data = lxmf_data(self@, encrypted@);
                        if data.len() > PAPER_MDU {
                            r matches Err(e) && e is PackFailed
                        } else {
                            r matches Ok(uri) && uri@ == scheme() + base64_text(data)
                                && paper_bytes(uri@) == Some(data)
                        }
                    },
                    Err(e) => r == Err::<String, MessageError>(e),
                },
    {
        if self.method != DeliveryMethod::Paper {
            return Err(
                MessageError::PackFailed("paper URI requires DeliveryMethod::Paper".to_owned()),
            );
        }
        let bytes = match self.pack() {
            Ok(b) => b,
            Err(e) => {
                return Err(e);
            },
        };
        let outcome = encrypt_fn(slice_subrange(bytes.as_slice(), 16, bytes.len()));
        assert(answers(encrypt_fn, hidden_part(self@), outcome));
        match outcome {
            Ok(encrypted) => {
                if encrypted.len() > PAPER_MDU - 16 {
                    return Err(
                        MessageError::PackFailed(
                            "paper message exceeds maximum size".to_owned(),
                        ),
                    );
                }
                let data = join(self.destination_hash.as_slice(), encrypted.as_slice());
                let text = outside_base64_encode(data.as_slice());
                let uri = "lxm://".to_owned().concat(text.as_str());
                assert(uri@.skip(scheme().len() as int) =~= text@);
                Ok(uri)
            },
            Err(e) => Err(e),
        }
    }

    /// The destination hash and the encrypted rest of an address.
    pub fn decode_paper_uri(uri: &str) -> (r: Result<([u8; 16], Vec<u8>), MessageError>)
        ensures
            is_paper_content(uri@, r),
    {
        let text = match outside_strip_prefix(uri, "lxm://") {
            Some(t) => t,
            None => {
                return Err(MessageError::InvalidUri("missing lxm:// prefix".to_owned()));
            },
        };
        assert(uri@.skip(scheme().len() as int) =~= text@);
        let bytes = match outside_base64_decode(text) {
            Some(b) => b,
            None => {
                return Err(MessageError::InvalidUri("base64url decode failed".to_owned()));
            },
        };
        if bytes.len() < LXMF_OVERHEAD {
            return Err(MessageError::TooShort(bytes.len()));
        }
        let destination: Option<[u8; 16]> = to_fixed(slice_subrange(bytes.as_slice(), 0, 16));
        match destination {
            Some(d) => Ok((d, copy_slice(slice_subrange(bytes.as_slice(), 16, bytes.len())))),
            None => Err(MessageError::TooShort(bytes.len())),
        }
    }

    /// The message in an address, which `decrypt_fn` decrypts.
    pub fn from_paper_uri<F>(uri: &str, decrypt_fn: F) -> (r: Result<Self, MessageError>) where
        F: FnOnce(&[u8]) -> Result<Vec<u8>, MessageError>,

        requires
            forall|s: &[u8]| call_requires(decrypt_fn, (s,)),
        ensures
            match paper_bytes(uri@) {
                None => r matches Err(e) && e is InvalidUri,
                Some(b) => if b.len() < LXMF_OVERHEAD {
                    r == Err::<LxMessage, MessageError>(MessageError::TooShort(b.len() as usize))
                } else {
                    is_decrypted(b, decrypt_fn, r)
                },
            },
    {
        let (destination, hidden) = match LxMessage::decode_paper_uri(uri) {
            Ok(x) => x,
            Err(e) => {
                return Err(e);
            },
        };
        let ghost b = paper_bytes(uri@)->0;
        let outcome = decrypt_fn(hidden.as_slice());
        assert(answers(decrypt_fn, b.subrange(16, b.len() as int), outcome));
        match outcome {
            Ok(plain) => {
                let data = join(destination.as_slice(), plain.as_slice());
                match LxMessage::unpack(data.as_slice()) {
                    Ok(mut m) => {
                        m.method = DeliveryMethod::Paper;
                        m.representation = DeliveryRepresentation::Paper;
                        Ok(m)
                    },
                    Err(e) => Err(e),
                }
            },
            Err(e) => Err(e),
        }
    }

    /// The address of the message, where it has one.
    pub fn as_uri<F>(&self, encrypt_fn: F) -> (r: Option<String>) where
        F: FnOnce(&[u8]) -> Result<Vec<u8>, MessageError>,

        requires
            forall|s: &[u8]| call_requires(encrypt_fn, (s,)),
        ensures
            self@.method != DeliveryMethod::Paper || !is_packable(self@) ==> r is None,
            self@.method == DeliveryMethod::Paper && is_packable(self@) ==> exists|
                outcome: Result<Vec<u8>, MessageError>,
            | #[trigger]
                answers(encrypt_fn, hidden_part(self@), outcome) && match outcome {
                    Ok(encrypted) => {
                        let data = lxmf_data(self@, encrypted@);
                        if data.len() > PAPER_MDU {
                            r is None
                        } else {
                            r matches Some(uri) && uri@ == scheme() + base64_text(data)
                                && paper_bytes(uri@) == Some(data)
                        }
                    },
                    Err(_) => r is None,
                },
    {
        match self.to_paper_uri(encrypt_fn) {
            Ok(uri) => Some(uri),
            Err(_) => None,
        }
    }

    /// The message in an address, which `decrypt_fn` decrypts.
    pub fn from_uri<F>(uri: &str, decrypt_fn: F) -> (r: Result<Self, MessageError>) where
        F: FnOnce(&[u8]) -> Result<Vec<u8>, MessageError>,

        requires
            forall|s: &[u8]| call_requires(decrypt_fn, (s,)),
        ensures
            match paper_bytes(uri@) {
                None => r matches Err(e) && e is InvalidUri,
                Some(b) => if b.len() < LXMF_OVERHEAD {
                    r == Err::<LxMessage, MessageError>(MessageError::TooShort(b.len() as usize))
                } else {
                    is_decrypted(b, decrypt_fn, r)
                },
            },
    {
        LxMessage::from_paper_uri(uri, decrypt_fn)
    }
}

/// Whether `r` is what comes of the bytes in an address when `decrypt_fn` decrypts them.
pub open spec fn is_decrypted<F: FnOnce(&[u8]) -> Result<Vec<u8>, MessageError>>(
    b: Seq<u8>,
    decrypt_fn: F,
    r: Result<LxMessage, MessageError>,
) -> bool {
    exists|outcome: Result<Vec<u8>, MessageError>| #[trigger]
        answers(decrypt_fn, b.subrange(16, b.len() as int), outcome) && match outcome {
            Ok(plain) => {
                let data = b.subrange(0, 16) + plain@;
                if is_packed(data) {
                    r matches Ok(m) && m@ == from_paper(data)
                } else {
                    r matches Err(e) && is_unpack_error(data, e)
                }
            },
            Err(e) => r == Err::<LxMessage, MessageError>(e),
        }
}

/// Decrypting what was encrypted gives back the packed message, whose destination hash
/// stays in the clear.
pub proof fn decrypted_paper_is_the_packed_message(m: MessageModel, encrypted: Seq<u8>)
    requires
        m.signature is Some,
    ensures
        lxmf_data(m, encrypted).subrange(0, 16) + hidden_part(m) == packed(m),
        lxmf_data(m, encrypted).subrange(16, lxmf_data(m, encrypted).len() as int) == encrypted,
{
    let data = lxmf_data(m, encrypted);
    assert(data.subrange(0, 16) =~= m.destination_hash@);
    assert(packed(m).subrange(0, 16) =~= m.destination_hash@);
    assert(data.subrange(0, 16) + hidden_part(m) =~= packed(m));
    assert(data.subrange(16, data.len() as int) =~= encrypted);
}

/// An address is read where it starts with the scheme, and by what follows it alone.
pub proof fn addresses_start_with_the_scheme(uri: Seq<char>, rest: Seq<char>)
    ensures
        paper_bytes("lxm://"@ + rest) == base64_bytes(rest),
        paper_bytes(uri) is Some ==> uri.len() >= "lxm://"@.len() && uri.take(
            "lxm://"@.len() as int,
        ) == "lxm://"@ && paper_bytes(uri) == base64_bytes(uri.skip("lxm://"@.len() as int)),
        !"lxm://"@.is_prefix_of(uri) ==> paper_bytes(uri) is None,
{
    let s = "lxm://"@;
    let joined = s + rest;
    assert(joined.subrange(0, s.len() as int) =~= s);
    assert(joined.skip(s.len() as int) =~= rest);
    if s.is_prefix_of(uri) {
        assert(uri.take(s.len() as int) =~= s);
    }
}

/// The content of an address is a hash of 16 bytes and what is encrypted behind it; an address
/// with less in it than the overhead of a message is refused with its length, and one that is no
/// address as such.
pub proof fn addresses_hold_a_hash_and_a_message(
    uri: Seq<char>,
    outcome: Result<([u8; 16], Vec<u8>), MessageError>,
)
    requires
        is_paper_content(uri, outcome),
    ensures
        outcome is Ok <==> paper_bytes(uri) is Some && paper_bytes(uri)->0.len() >= 112,
        outcome matches Ok((destination, rest)) ==> destination@ + rest@ == paper_bytes(uri)->0,
        outcome matches Err(e) ==> (paper_bytes(uri) is None ==> e is InvalidUri) && (paper_bytes(
            uri,
        ) matches Some(b) ==> e == MessageError::TooShort(b.len() as usize)),
{
    if let Some(b) = paper_bytes(uri) {
        if b.len() >= 112 {
            assert(b.subrange(0, 16) + b.subrange(16, b.len() as int) =~= b);
        }
    }
}

/// A message from paper says what its bytes say, and is known to come from paper.
pub proof fn paper_is_read_like_any_message(data: Seq<u8>)
    ensures
        ({
            let m = from_paper(data);
            let u = unpacked(data);
            &&& m.method == DeliveryMethod::Paper
            &&& m.representation == DeliveryRepresentation::Paper
            &&& m == (MessageModel { method: m.method, representation: m.representation, ..u })
        }),
{
}

/// What comes of an address is the message whose bytes are the clear destination and what was
/// decrypted; where decryption fails its error is passed on, and where the bytes are no message
/// that is said.
pub proof fn paper_is_decrypted_behind_the_hash<F: FnOnce(&[u8]) -> Result<Vec<u8>, MessageError>>(
    b: Seq<u8>,
    decrypt_fn: F,
    r: Result<LxMessage, MessageError>,
)
    requires
        b.len() >= 16,
        is_decrypted(b, decrypt_fn, r),
    ensures
        exists|outcome: Result<Vec<u8>, MessageError>| #[trigger]
            answers(decrypt_fn, b.skip(16), outcome) && {
                &&& outcome matches Err(e) ==> r == Err::<LxMessage, MessageError>(e)
                &&& outcome matches Ok(plain) ==> {
                    &&& r is Ok <==> is_packed(b.take(16) + plain@)
                    &&& r matches Ok(m) ==> m@ == from_paper(b.take(16) + plain@)
                    &&& r matches Err(e) ==> is_unpack_error(b.take(16) + plain@, e)
                }
            },
{
    assert(b.skip(16) =~= b.subrange(16, b.len() as int));
    assert(b.take(16) =~= b.subrange(0, 16));
}

} // verus!
