//! Document model: schema-less JSON-like values with binary codec.
//!
//! A document is a `(UUID, Value)` pair. The [`value::Value`] type supports
//! null, bool, integer, float, string, bytes, arrays, and objects.

pub mod codec;
pub mod crdt;
pub mod equality;
pub mod value;

use vstd::prelude::*;

use crate::bytes::{
    be_bytes, be_val, lemma_be_bytes_len, lemma_be_round_trip, lemma_pow256_values, push_be,
};
use crate::document::codec::{
    decode_from_cursor, enc, encodable, encode, encoded_size, law_codec_round_trip, parse_value,
    Parsed,
};
use crate::document::value::{value_wf, Value, ValueM};
use crate::error::{GrumpyError, Result};
use crate::text::owned;
use crate::uid::Uuid;

verus! {

/// The bytes of a document: 16-byte identifier and encoded value.
pub open spec fn doc_image(key: u128, m: ValueM) -> Seq<u8> {
    be_bytes(key as nat, 16) + enc(m)
}

/// The document that bytes hold, or the text of the error.
#[verifier::opaque]
pub open spec fn doc_parse(s: Seq<u8>) -> std::result::Result<(u128, ValueM), Seq<char>> {
    if s.len() < 16 {
        Err("document too short for UUID"@)
    } else {
        match parse_value(s.skip(16), 0) {
            Parsed::Good(m, _) => Ok((be_val(s.take(16)) as u128, m)),
            Parsed::Bad(e, _) => Err(e),
        }
    }
}

/// A document: a UUID key paired with a schema-less value.
#[derive(Debug, Clone, PartialEq)]
pub struct Document {
    pub key: Uuid,
    pub value: Value,
}

impl Document {
    /// Creates a new document.
    pub fn new(key: Uuid, value: Value) -> (r: Self)
        ensures
            r.key == key,
            r.value == value,
    {
        Document { key, value }
    }

    /// Encodes the document into bytes: 16-byte UUID + encoded value.
    pub fn encode(&self) -> (r: Vec<u8>)
        ensures
            r@ == doc_image(self.key.0, self.value.model()),
    {
        encode_document(&self.key, &self.value)
    }

    /// Decodes a document from bytes; what follows it is ignored.
    pub fn decode(data: &[u8]) -> (r: Result<Self>)
        ensures
            match r {
                Ok(d) => doc_parse(data@) == Ok::<(u128, ValueM), Seq<char>>(
                    (d.key.0, d.value.model()),
                ) && value_wf(d.value.model()),
                Err(e) => e is Codec && doc_parse(data@) == Err::<(u128, ValueM), Seq<char>>(
                    (e->Codec_0)@,
                ),
            },
    {
        proof {
            reveal(doc_parse);
        }
        if data.len() < 16 {
            return Err(GrumpyError::Codec(owned("document too short for UUID")));
        }
        let key: Uuid = Uuid::from_bytes(&data[0..16]);
        let mut cursor: &[u8] = &data[16..data.len()];
        proof {
            assert(data@.subrange(0, 16) =~= data@.take(16));
            assert(data@.subrange(16, data@.len() as int) =~= data@.skip(16));
        }
        match decode_from_cursor(&mut cursor) {
            Ok(value) => Ok(Document { key, value }),
            Err(e) => Err(e),
        }
    }

    /// Returns the encoded byte size of this document (16 + value size).
    pub fn encoded_size(&self) -> (r: usize)
        requires
            doc_image(self.key.0, self.value.model()).len() <= usize::MAX,
        ensures
            r == doc_image(self.key.0, self.value.model()).len(),
    {
        proof {
            lemma_be_bytes_len(self.key.0 as nat, 16);
        }
        16 + encoded_size(&self.value)
    }
}

/// Encodes a document given by its parts.
pub fn encode_document(key: &Uuid, value: &Value) -> (r: Vec<u8>)
    ensures
        r@ == doc_image(key.0, value.model()),
{
    let mut buf: Vec<u8> = Vec::new();
    push_be(&mut buf, key.0, 16);
    encode(value, &mut buf);
    assert(buf@ =~= doc_image(key.0, value.model()));
    buf
}

/// Decoding a document gives back what was encoded.
pub proof fn law_document_round_trip(key: u128, m: ValueM)
    requires
        encodable(m, 0),
    ensures
        doc_image(key, m).len() >= 16,
        doc_parse(doc_image(key, m)) == Ok::<(u128, ValueM), Seq<char>>((key, m)),
{
    reveal(doc_parse);
    let s = doc_image(key, m);
    lemma_pow256_values();
    lemma_be_round_trip(key as nat, 16);
    assert(s.take(16) =~= be_bytes(key as nat, 16));
    assert(s.skip(16) =~= enc(m) + Seq::<u8>::empty());
    law_codec_round_trip(m, Seq::empty(), 0);
}

} // verus!
