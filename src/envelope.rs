//! The signed envelope: a content-type tag, a body, and a detached
//! signature over the body.
use vstd::prelude::*;
use crate::archive::{archive_bytes, Archive, ArchiveModel, DecodeError};
use crate::cbor::{
    bytes_item, expect, head, lemma_bytes_unique, lemma_head_unique, lemma_prefix_concat,
    lemma_text_unique, lemma_whole, prefix_at, push_bytes, push_head, push_text, read_bytes,
    read_head, read_text, text_item, MAJOR_MAP,
};
use crate::keys::{ed25519_accepts, ed25519_public, ed25519_signature, sign, signature_valid};

verus! {

/// The content type of an envelope whose body is an archive.
pub const ARCHIVE_CONTENT_TYPE: &'static str = "szdat/archive";

/// A body, signed. The content type travels with it but is not signed.
#[derive(Clone, Debug, PartialEq, Eq)]
pub struct Envelope {
    pub content_type: String,
    pub body: Vec<u8>,
    /// A detached Ed25519 signature of `body`: 64 bytes.
    pub signature: Vec<u8>,
}

/// What an `Envelope` holds.
pub struct EnvelopeModel {
    pub content_type: Seq<char>,
    pub body: Seq<u8>,
    pub signature: Seq<u8>,
}

impl View for Envelope {
    type V = EnvelopeModel;

    open spec fn view(&self) -> EnvelopeModel {
        EnvelopeModel {
            content_type: self.content_type@,
            body: self.body@,
            signature: self.signature@,
        }
    }
}

/// The signature of the envelope did not verify under the key given.
#[derive(Clone, Copy, Debug, PartialEq, Eq)]
pub enum VerificationError {
    InvalidSignature,
}

/// `e` carries a valid signature of its body under `public`.
pub open spec fn verifies(e: EnvelopeModel, public: Seq<u8>) -> bool {
    e.signature.len() == 64 && ed25519_accepts(public, e.body, e.signature)
}

/// An envelope is written as the map
/// `{"content_type": text, "body": bytes, "signature": bytes}`.
pub open spec fn envelope_bytes(e: EnvelopeModel) -> Seq<u8> {
    head(MAJOR_MAP, 3) + text_item("content_type"@) + text_item(e.content_type) + text_item(
        "body"@,
    ) + bytes_item(e.body) + text_item("signature"@) + bytes_item(e.signature)
}

/// Each of the seven parts of an envelope stands in turn at the start of
/// `s`.
pub open spec fn envelope_parts(e: EnvelopeModel, s: Seq<u8>) -> bool {
    let p1 = head(MAJOR_MAP, 3).len() as int;
    let p2 = p1 + text_item("content_type"@).len();
    let p3 = p2 + text_item(e.content_type).len();
    let p4 = p3 + text_item("body"@).len();
    let p5 = p4 + bytes_item(e.body).len();
    let p6 = p5 + text_item("signature"@).len();
    &&& prefix_at(head(MAJOR_MAP, 3), s, 0)
    &&& prefix_at(text_item("content_type"@), s, p1)
    &&& prefix_at(text_item(e.content_type), s, p2)
    &&& prefix_at(text_item("body"@), s, p3)
    &&& prefix_at(bytes_item(e.body), s, p4)
    &&& prefix_at(text_item("signature"@), s, p5)
    &&& prefix_at(bytes_item(e.signature), s, p6)
}

/// An envelope stands at the start of `s` exactly when each of its seven
/// parts stands in turn.
proof fn lemma_envelope_parts(e: EnvelopeModel, s: Seq<u8>)
    ensures
        prefix_at(envelope_bytes(e), s, 0) == envelope_parts(e, s),
{
    let h = head(MAJOR_MAP, 3);
    let k1 = text_item("content_type"@);
    let t = text_item(e.content_type);
    let k2 = text_item("body"@);
    let bd = bytes_item(e.body);
    let k3 = text_item("signature"@);
    let sg = bytes_item(e.signature);
    lemma_prefix_concat(h + k1 + t + k2 + bd + k3, sg, s, 0);
    lemma_prefix_concat(h + k1 + t + k2 + bd, k3, s, 0);
    lemma_prefix_concat(h + k1 + t + k2, bd, s, 0);
    lemma_prefix_concat(h + k1 + t, k2, s, 0);
    lemma_prefix_concat(h + k1, t, s, 0);
    lemma_prefix_concat(h, k1, s, 0);
}

/// The canonical form determines the envelope, so reading back what was
/// written gives the same envelope.
pub proof fn lemma_envelope_encoding_injective(e1: EnvelopeModel, e2: EnvelopeModel)
    requires
        envelope_bytes(e1) == envelope_bytes(e2),
        envelope_bytes(e1).len() <= u64::MAX,
    ensures
        e1 == e2,
{
    let s = envelope_bytes(e1);
    lemma_whole(s);
    lemma_envelope_parts(e1, s);
    lemma_envelope_parts(e2, s);
    let p2 = head(MAJOR_MAP, 3).len() + text_item("content_type"@).len();
    lemma_text_unique(e1.content_type, e2.content_type, s, p2 as int);
    let p4 = p2 + text_item(e1.content_type).len() + text_item("body"@).len();
    lemma_bytes_unique(e1.body, e2.body, s, p4 as int);
    let p6 = p4 + bytes_item(e1.body).len() + text_item("signature"@).len();
    lemma_bytes_unique(e1.signature, e2.signature, s, p6 as int);
}

/// The canonical form of an envelope is made of its seven parts.
broadcast proof fn lemma_envelope_start(e: EnvelopeModel)
    ensures
        envelope_parts(e, #[trigger] envelope_bytes(e)),
{
    lemma_whole(envelope_bytes(e));
    lemma_envelope_parts(e, envelope_bytes(e));
}

impl Envelope {
    /// Signs `body` with `private_key`.
    pub fn seal(content_type: String, body: Vec<u8>, private_key: &[u8; 32]) -> (r: Envelope)
        ensures
            r.content_type@ == content_type@,
            r.body@ == body@,
            r.signature@ == ed25519_signature(private_key@, body@),
            verifies(r@, ed25519_public(private_key@)),
    {
        let signature = sign(private_key, body.as_slice());
        Envelope { content_type, body, signature }
    }

    /// Seals the canonical form of `archive` as an archive envelope.
    pub fn new(archive: Archive, private_key: &[u8; 32]) -> (r: Envelope)
        ensures
            r.content_type@ == ARCHIVE_CONTENT_TYPE@,
            r.body@ == archive_bytes(archive@),
            r.signature@ == ed25519_signature(private_key@, archive_bytes(archive@)),
            verifies(r@, ed25519_public(private_key@)),
    {
        let body = archive.to_cbor_bytes();
        Envelope::seal(ARCHIVE_CONTENT_TYPE.to_string(), body, private_key)
    }

    /// Checks the signature of the body under `public_key`. The body is not
    /// read.
    pub fn verify(&self, public_key: &[u8; 32]) -> (r: Result<(), VerificationError>)
        ensures
            r is Ok <==> verifies(self@, public_key@),
            r is Err ==> r == Err::<(), VerificationError>(VerificationError::InvalidSignature),
    {
        if signature_valid(public_key, self.body.as_slice(), self.signature.as_slice()) {
            Ok(())
        } else {
            Err(VerificationError::InvalidSignature)
        }
    }

    /// Reads the body as an archive. Call it only once `verify` has passed.
    pub fn open(&self) -> (r: Result<Archive, DecodeError>)
        ensures
            r matches Ok(a) ==> archive_bytes(a@) == self.body@,
            forall|a: ArchiveModel| #[trigger]
                archive_bytes(a) == self.body@ ==> (r matches Ok(x) && x@ == a),
            r is Err ==> r == Err::<Archive, DecodeError>(DecodeError::Malformed),
    {
        Archive::from_cbor_bytes(self.body.as_slice())
    }

    /// Appends the canonical form of this envelope to `out`.
    pub fn write_cbor(&self, out: &mut Vec<u8>)
        ensures
            final(out)@ == old(out)@ + envelope_bytes(self@),
    {
        let ghost s0 = out@;
        let ghost h = head(MAJOR_MAP, 3);
        let ghost k1 = text_item("content_type"@);
        let ghost t = text_item(self.content_type@);
        let ghost k2 = text_item("body"@);
        let ghost bd = bytes_item(self.body@);
        let ghost k3 = text_item("signature"@);
        push_head(out, MAJOR_MAP, 3);
        push_text(out, "content_type");
        assert(out@ =~= s0 + (h + k1));
        push_text(out, self.content_type.as_str());
        assert(out@ =~= s0 + (h + k1 + t));
        push_text(out, "body");
        assert(out@ =~= s0 + (h + k1 + t + k2));
        push_bytes(out, self.body.as_slice());
        assert(out@ =~= s0 + (h + k1 + t + k2 + bd));
        push_text(out, "signature");
        assert(out@ =~= s0 + (h + k1 + t + k2 + bd + k3));
        push_bytes(out, self.signature.as_slice());
        assert(out@ =~= s0 + envelope_bytes(self@));
    }

    /// Reads an envelope from its canonical form, without verifying it.
    /// Anything else, a signature of other than 64 bytes included, is
    /// malformed.
    #[verifier::rlimit(40)]
    pub fn read_cbor(b: &[u8]) -> (r: Result<Envelope, DecodeError>)
        ensures
            r matches Ok(e) ==> envelope_bytes(e@) == b@ && e.signature@.len() == 64,
            forall|e: EnvelopeModel| #[trigger]
                envelope_bytes(e) == b@ && e.signature.len() == 64 ==> (r matches Ok(x) && x@
                    == e),
            r is Err ==> r == Err::<Envelope, DecodeError>(DecodeError::Malformed),
    {
        broadcast use lemma_envelope_start;

        // Knowing b.len() bounds b@.len() by usize::MAX for the sums below.
        let _len = b.len();
        let mut k1: Vec<u8> = Vec::new();
        push_text(&mut k1, "content_type");
        let mut k2: Vec<u8> = Vec::new();
        push_text(&mut k2, "body");
        let mut k3: Vec<u8> = Vec::new();
        push_text(&mut k3, "signature");
        let (m, n, p1) = match read_head(b, 0) {
            Some(x) => x,
            None => {
                return Err(DecodeError::Malformed);
            },
        };
        if m != MAJOR_MAP || n != 3 {
            proof {
                assert forall|e: EnvelopeModel| #[trigger]
                    envelope_bytes(e) == b@ implies e.signature.len() != 64 by {
                    lemma_head_unique(m, n, MAJOR_MAP, 3, b@, 0);
                }
            }
            return Err(DecodeError::Malformed);
        }
        if !expect(b, p1, &k1) {
            return Err(DecodeError::Malformed);
        }
        let p2 = p1 + k1.len();
        let (content_type, p3) = match read_text(b, p2) {
            Some(x) => x,
            None => {
                return Err(DecodeError::Malformed);
            },
        };
        proof {
            assert forall|e: EnvelopeModel| #[trigger]
                envelope_bytes(e) == b@ implies e.content_type == content_type@ by {
                lemma_text_unique(e.content_type, content_type@, b@, p2 as int);
            }
        }
        if !expect(b, p3, &k2) {
            return Err(DecodeError::Malformed);
        }
        let p4 = p3 + k2.len();
        let (body, p5) = match read_bytes(b, p4) {
            Some(x) => x,
            None => {
                return Err(DecodeError::Malformed);
            },
        };
        proof {
            assert forall|e: EnvelopeModel| #[trigger]
                envelope_bytes(e) == b@ implies e.body == body@ by {
                lemma_bytes_unique(e.body, body@, b@, p4 as int);
            }
        }
        if !expect(b, p5, &k3) {
            return Err(DecodeError::Malformed);
        }
        let p6 = p5 + k3.len();
        let (signature, p7) = match read_bytes(b, p6) {
            Some(x) => x,
            None => {
                return Err(DecodeError::Malformed);
            },
        };
        proof {
            assert forall|e: EnvelopeModel| #[trigger]
                envelope_bytes(e) == b@ implies e.signature == signature@ by {
                lemma_bytes_unique(e.signature, signature@, b@, p6 as int);
            }
        }
        if signature.len() != 64 || p7 != b.len() {
            return Err(DecodeError::Malformed);
        }
        let e = Envelope { content_type, body, signature };
        proof {
            lemma_envelope_parts(e@, b@);
            assert(b@.subrange(0, p7 as int) =~= b@);
            assert forall|x: EnvelopeModel| #[trigger]
                envelope_bytes(x) == b@ && x.signature.len() == 64 implies e@ == x by {
            }
        }
        Ok(e)
    }
}

} // verus!
