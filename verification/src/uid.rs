//! Document identifiers.

use vstd::prelude::*;

use crate::bytes::{
    be_bytes, be_val, get_be, lemma_be_bytes_len, lemma_be_round_trip, lemma_be_val_bytes,
    lemma_pow256_values, push_be,
};

use crate::text::hex;

verus! {

/// A 128-bit universally unique identifier.
///
/// The number is the identifier's sixteen bytes read most significant first,
/// so comparing numbers is comparing bytes.
#[derive(Clone, Copy, Debug, PartialEq, Eq, PartialOrd, Ord, Hash, Structural)]
pub struct Uuid(pub u128);

/// The canonical hyphenated text of the identifier with number `id`: its
/// thirty-two lower-case hexadecimal digits in groups of 8, 4, 4, 4 and 12.
pub open spec fn hyphenated(id: u128) -> Seq<char> {
    let n = id as nat;
    hex(n / 0x1_0000_0000_0000_0000_0000_0000, 8) + "-"@ + hex(
        n / 0x1_0000_0000_0000_0000_0000,
        4,
    ) + "-"@ + hex(n / 0x1_0000_0000_0000_0000, 4) + "-"@ + hex(n / 0x1_0000_0000_0000, 4) + "-"@
        + hex(n, 12)
}

/// An identifier of the random kind: version 4 in its version digit, and the
/// two bits that mark the variant.
pub open spec fn is_random_kind(id: u128) -> bool {
    &&& (id as nat / 0x1000_0000_0000_0000_0000) % 16 == 4
    &&& (id as nat / 0x4000_0000_0000_0000) % 4 == 2
}

/// The number of the identifier that `text` denotes, if it denotes one.
pub uninterp spec fn parsed_uuid(text: Seq<char>) -> Option<u128>;

/// `uuid::Uuid::hyphenated`, written out as text: the digits of the identifier
/// in lower case, in groups parted by hyphens. The text denotes the identifier
/// again.
#[verifier::external_body]
fn format_hyphenated(id: u128) -> (r: String)
    ensures
        r@ == hyphenated(id),
        parsed_uuid(r@) == Some(id),
{
    uuid::Uuid::from_u128(id).hyphenated().to_string()
}

/// `uuid::Uuid::parse_str`, taken to the identifier's number; the result is a
/// function of the text alone.
#[verifier::external_body]
fn parse_text(text: &str) -> (r: Option<u128>)
    ensures
        r == parsed_uuid(text@),
{
    match uuid::Uuid::parse_str(text) {
        Ok(u) => Some(u.as_u128()),
        Err(_) => None,
    }
}

/// `uuid::Uuid::new_v4`: a random identifier. Only the digit and the bits that
/// mark its kind are fixed.
#[verifier::external_body]
fn random_id() -> (r: u128)
    ensures
        is_random_kind(r),
{
    uuid::Uuid::new_v4().as_u128()
}

impl Uuid {
    /// The sixteen bytes of the identifier, most significant first.
    pub open spec fn spec_bytes(self) -> Seq<u8> {
        be_bytes(self.0 as nat, 16)
    }

    /// The identifier with the given number.
    pub fn from_u128(v: u128) -> (r: Self)
        ensures
            r.0 == v,
    {
        Uuid(v)
    }

    /// The identifier's number.
    pub fn as_u128(&self) -> (r: u128)
        ensures
            r == self.0,
    {
        self.0
    }

    /// The identifier whose bytes are all zero.
    pub fn nil() -> (r: Self)
        ensures
            r.0 == 0,
    {
        Uuid(0)
    }

    /// A random identifier.
    pub fn new_v4() -> (r: Self)
        ensures
            is_random_kind(r.0),
    {
        Uuid(random_id())
    }

    /// The sixteen bytes of the identifier.
    pub fn to_bytes(&self) -> (r: Vec<u8>)
        ensures
            r@ == self.spec_bytes(),
            r@.len() == 16,
    {
        let mut v: Vec<u8> = Vec::with_capacity(16);
        push_be(&mut v, self.0, 16);
        proof {
            lemma_be_bytes_len(self.0 as nat, 16);
        }
        assert(v@ =~= self.spec_bytes());
        v
    }

    /// The identifier with the given sixteen bytes.
    pub fn from_bytes(b: &[u8]) -> (r: Self)
        requires
            b@.len() == 16,
        ensures
            r.0 == be_val(b@),
            r.spec_bytes() == b@,
    {
        proof {
            lemma_be_val_bytes(b@);
        }
        Uuid(get_be(b))
    }

    /// The canonical hyphenated text of the identifier.
    pub fn to_text(&self) -> (r: String)
        ensures
            r@ == hyphenated(self.0),
            parsed_uuid(r@) == Some(self.0),
    {
        format_hyphenated(self.0)
    }

    /// The identifier that `text` denotes, if it denotes one.
    pub fn parse_str(text: &str) -> (r: Option<Self>)
        ensures
            parsed_uuid(text@) == (match r {
                Some(u) => Some(u.0),
                None => None,
            }),
    {
        match parse_text(text) {
            Some(v) => Some(Uuid(v)),
            None => None,
        }
    }
}

/// Two identifiers with the same bytes are the same identifier.
pub proof fn lemma_uuid_bytes_injective(a: Uuid, b: Uuid)
    ensures
        a.spec_bytes().len() == 16,
        (a.spec_bytes() == b.spec_bytes()) == (a == b),
{
    lemma_pow256_values();
    lemma_be_round_trip(a.0 as nat, 16);
    lemma_be_round_trip(b.0 as nat, 16);
}

} // verus!
