//! Key types of the B+Tree.
//!
//! A key is identified with its bytes; keys are ordered as byte strings. The
//! [`Key`] trait says how a key sits in the fixed-size slot of a node entry
//! and which configuration a node page carries.

use vstd::prelude::*;
use vstd::string::*;

use crate::bytes::{
    bytes_eq, bytes_lt, field, get_u16, le_bytes, lemma_le_bytes_len, lemma_le_round_trip,
    lemma_pow256_values, lex_lt, push_le, to_vec, zeros,
};
use crate::error::{numbered, GrumpyError};
use crate::text::decimal;
use crate::uid::{lemma_uuid_bytes_injective, Uuid};

verus! {

/// Maximum size of a variable-length key in bytes (excluding the 2-byte length
/// prefix).
pub const VAR_KEY_MAX_SIZE: usize = 256;

/// Size of the length prefix for variable-length keys.
pub const VAR_KEY_LEN_PREFIX: usize = 2;

/// A variable-length key with its length in front.
pub open spec fn var_key_image(key: Seq<u8>) -> Seq<u8> {
    le_bytes(key.len(), 2) + key
}

/// Encodes a variable-length key with a 2-byte length prefix.
///
/// Layout: `key_len(u16 LE) + key_data[0..key_len]`
pub fn encode_var_key(key: &[u8]) -> (r: Vec<u8>)
    requires
        key@.len() <= VAR_KEY_MAX_SIZE,
    ensures
        r@ == var_key_image(key@),
        r@.len() == 2 + key@.len(),
{
    let mut buf: Vec<u8> = Vec::with_capacity(VAR_KEY_LEN_PREFIX + key.len());
    push_le(&mut buf, key.len() as u128, 2);
    buf.extend_from_slice(key);
    proof {
        lemma_le_bytes_len(key@.len(), 2);
        assert(buf@ =~= var_key_image(key@));
    }
    buf
}

/// Decodes a variable-length key, returning `(key_data, total_bytes_consumed)`.
pub fn decode_var_key(buf: &[u8]) -> (r: (&[u8], usize))
    requires
        buf@.len() >= 2,
        buf@.len() >= 2 + field(buf@, 0, 2),
    ensures
        r.0@ == buf@.subrange(2, 2 + field(buf@, 0, 2) as int),
        r.1 == 2 + field(buf@, 0, 2),
{
    let len: usize = get_u16(buf, 0) as usize;
    (&buf[2..2 + len], 2 + len)
}

/// Returns the total on-disk size of a variable-length key (prefix + data).
pub fn var_key_disk_size(key: &[u8]) -> (r: usize)
    requires
        key@.len() + 2 <= usize::MAX,
    ensures
        r == var_key_image(key@).len(),
        r == key@.len() + 2,
{
    proof {
        lemma_le_bytes_len(key@.len(), 2);
    }
    VAR_KEY_LEN_PREFIX + key.len()
}

/// Decoding an encoded key gives the key back and consumes all of it,
/// whatever follows.
pub proof fn law_var_key_round_trip(key: Seq<u8>, rest: Seq<u8>)
    requires
        key.len() < 65536,
    ensures
        ({
            let buf = var_key_image(key) + rest;
            &&& field(buf, 0, 2) == key.len()
            &&& buf.subrange(2, 2 + field(buf, 0, 2) as int) == key
            &&& var_key_image(key).len() == 2 + key.len()
        }),
{
    lemma_pow256_values();
    lemma_le_round_trip(key.len(), 2);
    let buf = var_key_image(key) + rest;
    assert(buf.subrange(0, 2) =~= le_bytes(key.len(), 2));
    assert(buf.subrange(2, 2 + key.len() as int) =~= key);
}

/// A type whose values are keys of a B+Tree.
pub trait Key: Sized {
    /// What a tree fixes for all its keys.
    type Config: Copy;

    /// The bytes of the key.
    spec fn kview(&self) -> Seq<u8>;

    /// A key with bytes `b` can stand in a tree with configuration `cfg`.
    spec fn key_ok(b: Seq<u8>, cfg: Self::Config) -> bool;

    /// How many bytes the configuration takes on a node page.
    spec fn meta_len() -> nat;

    /// How many bytes a key takes in a node entry.
    spec fn slot_len(cfg: Self::Config) -> nat;

    /// The bytes of a key in a node entry.
    spec fn slot_image(b: Seq<u8>, cfg: Self::Config) -> Seq<u8>;

    /// The bytes `s` of a node entry hold a key.
    spec fn slot_valid(s: Seq<u8>, cfg: Self::Config) -> bool;

    /// The key that the bytes of a node entry hold.
    spec fn slot_key(s: Seq<u8>, cfg: Self::Config) -> Seq<u8>;

    /// The bytes of the configuration on a node page.
    spec fn config_image(cfg: Self::Config) -> Seq<u8>;

    /// The configuration that bytes of a node page hold.
    spec fn config_parse(s: Seq<u8>) -> Self::Config;

    /// `e` reports that the key with bytes `b` is already present.
    spec fn is_duplicate_error(b: Seq<u8>, e: GrumpyError) -> bool;

    /// `e` reports that the key with bytes `b` is absent.
    spec fn is_not_found_error(b: Seq<u8>, e: GrumpyError) -> bool;

    /// A key reads back from its entry.
    proof fn lemma_slot(b: Seq<u8>, cfg: Self::Config)
        requires
            Self::key_ok(b, cfg),
        ensures
            Self::slot_image(b, cfg).len() == Self::slot_len(cfg),
            Self::slot_valid(Self::slot_image(b, cfg), cfg),
            Self::slot_key(Self::slot_image(b, cfg), cfg) == b,
    ;

    /// What an entry holds is a key of the tree.
    proof fn lemma_slot_read(s: Seq<u8>, cfg: Self::Config)
        requires
            s.len() == Self::slot_len(cfg),
            Self::slot_valid(s, cfg),
        ensures
            Self::key_ok(Self::slot_key(s, cfg), cfg),
    ;

    /// A configuration reads back from a node page.
    proof fn lemma_config(cfg: Self::Config)
        ensures
            Self::config_image(cfg).len() == Self::meta_len(),
            Self::config_parse(Self::config_image(cfg)) == cfg,
            Self::meta_len() <= 2,
            Self::slot_len(cfg) <= 65537,
    ;

    /// How many bytes the configuration takes on a node page.
    fn node_meta_bytes() -> (r: usize)
        ensures
            r == Self::meta_len(),
            r <= 2,
    ;

    /// How many bytes a key takes in a node entry.
    fn slot_key_size(cfg: Self::Config) -> (r: usize)
        ensures
            r == Self::slot_len(cfg),
            r <= 65537,
    ;

    /// The bytes of the configuration on a page.
    fn write_config(cfg: Self::Config) -> (r: Vec<u8>)
        ensures
            r@ == Self::config_image(cfg),
    ;

    /// The configuration that bytes of a page hold.
    fn read_config(s: &[u8]) -> (r: Self::Config)
        requires
            s@.len() == Self::meta_len(),
        ensures
            r == Self::config_parse(s@),
    ;

    /// The bytes of the key in a node entry.
    fn write_key(&self, cfg: Self::Config) -> (r: Vec<u8>)
        requires
            Self::key_ok(self.kview(), cfg),
        ensures
            r@ == Self::slot_image(self.kview(), cfg),
    ;

    /// The key that the bytes of a node entry hold.
    fn read_key(s: &[u8], cfg: Self::Config) -> (r: Self)
        requires
            s@.len() == Self::slot_len(cfg),
            Self::slot_valid(s@, cfg),
        ensures
            r.kview() == Self::slot_key(s@, cfg),
    ;

    /// Whether the key comes before another.
    fn key_lt(&self, other: &Self) -> (r: bool)
        ensures
            r == lex_lt(self.kview(), other.kview()),
    ;

    /// Whether two keys are the same.
    fn key_eq(&self, other: &Self) -> (r: bool)
        ensures
            r == (self.kview() == other.kview()),
    ;

    /// A copy of the key.
    fn dup(&self) -> (r: Self)
        ensures
            r.kview() == self.kview(),
    ;

    /// The error that reports the key as already present.
    fn duplicate_key_error(&self) -> (r: GrumpyError)
        ensures
            Self::is_duplicate_error(self.kview(), r),
    ;

    /// The error that reports the key as absent.
    fn key_not_found_error(&self) -> (r: GrumpyError)
        ensures
            Self::is_not_found_error(self.kview(), r),
    ;
}

/// The configuration of a tree whose keys need none.
#[derive(Clone, Copy, Debug, PartialEq, Eq, Structural)]
pub struct NoConfig;

impl Key for Uuid {
    /// Identifier keys need no configuration.
    type Config = NoConfig;

    open spec fn kview(&self) -> Seq<u8> {
        self.spec_bytes()
    }

    open spec fn key_ok(b: Seq<u8>, cfg: NoConfig) -> bool {
        b.len() == 16
    }

    open spec fn meta_len() -> nat {
        0
    }

    open spec fn slot_len(cfg: NoConfig) -> nat {
        16
    }

    open spec fn slot_image(b: Seq<u8>, cfg: NoConfig) -> Seq<u8> {
        b
    }

    open spec fn slot_valid(s: Seq<u8>, cfg: NoConfig) -> bool {
        true
    }

    open spec fn slot_key(s: Seq<u8>, cfg: NoConfig) -> Seq<u8> {
        s
    }

    open spec fn config_image(cfg: NoConfig) -> Seq<u8> {
        Seq::empty()
    }

    open spec fn config_parse(s: Seq<u8>) -> NoConfig {
        NoConfig
    }

    open spec fn is_duplicate_error(b: Seq<u8>, e: GrumpyError) -> bool {
        e is DuplicateKey && e->DuplicateKey_0.spec_bytes() == b
    }

    open spec fn is_not_found_error(b: Seq<u8>, e: GrumpyError) -> bool {
        e is KeyNotFound && e->KeyNotFound_0.spec_bytes() == b
    }

    proof fn lemma_slot(b: Seq<u8>, cfg: NoConfig) {
    }

    proof fn lemma_slot_read(s: Seq<u8>, cfg: NoConfig) {
    }

    proof fn lemma_config(cfg: NoConfig) {
    }

    fn node_meta_bytes() -> (r: usize) {
        0
    }

    fn slot_key_size(cfg: NoConfig) -> (r: usize) {
        16
    }

    fn write_config(cfg: NoConfig) -> (r: Vec<u8>) {
        Vec::new()
    }

    fn read_config(s: &[u8]) -> (r: NoConfig) {
        NoConfig
    }

    fn write_key(&self, cfg: NoConfig) -> (r: Vec<u8>) {
        self.to_bytes()
    }

    fn read_key(s: &[u8], cfg: NoConfig) -> (r: Self) {
        Uuid::from_bytes(s)
    }

    fn key_lt(&self, other: &Self) -> (r: bool) {
        proof {
            lemma_pow256_values();
            crate::bytes::lemma_be_order(self.0 as nat, other.0 as nat, 16);
        }
        self.0 < other.0
    }

    fn key_eq(&self, other: &Self) -> (r: bool) {
        proof {
            lemma_uuid_bytes_injective(*self, *other);
        }
        self.0 == other.0
    }

    fn dup(&self) -> (r: Self) {
        *self
    }

    fn duplicate_key_error(&self) -> (r: GrumpyError) {
        GrumpyError::DuplicateKey(*self)
    }

    fn key_not_found_error(&self) -> (r: GrumpyError) {
        GrumpyError::KeyNotFound(*self)
    }
}

impl Key for Vec<u8> {
    /// The longest key of the tree.
    type Config = u16;

    open spec fn kview(&self) -> Seq<u8> {
        self@
    }

    open spec fn key_ok(b: Seq<u8>, cfg: u16) -> bool {
        b.len() <= cfg
    }

    open spec fn meta_len() -> nat {
        2
    }

    open spec fn slot_len(cfg: u16) -> nat {
        (2 + cfg) as nat
    }

    /// The length, the key, and zeros up to the longest key.
    open spec fn slot_image(b: Seq<u8>, cfg: u16) -> Seq<u8> {
        le_bytes(b.len(), 2) + b + zeros((cfg - b.len()) as nat)
    }

    open spec fn slot_valid(s: Seq<u8>, cfg: u16) -> bool {
        field(s, 0, 2) <= cfg
    }

    open spec fn slot_key(s: Seq<u8>, cfg: u16) -> Seq<u8> {
        s.subrange(2, 2 + field(s, 0, 2) as int)
    }

    open spec fn config_image(cfg: u16) -> Seq<u8> {
        le_bytes(cfg as nat, 2)
    }

    open spec fn config_parse(s: Seq<u8>) -> u16 {
        field(s, 0, 2) as u16
    }

    open spec fn is_duplicate_error(b: Seq<u8>, e: GrumpyError) -> bool {
        e is Codec && (e->Codec_0)@ == "duplicate key in VarBTree: "@ + decimal(b.len())
            + " bytes"@
    }

    open spec fn is_not_found_error(b: Seq<u8>, e: GrumpyError) -> bool {
        e is Codec && (e->Codec_0)@ == "key not found in VarBTree: "@ + decimal(b.len())
            + " bytes"@
    }

    proof fn lemma_slot(b: Seq<u8>, cfg: u16) {
        lemma_pow256_values();
        lemma_le_round_trip(b.len(), 2);
        let s = Self::slot_image(b, cfg);
        assert(s.subrange(0, 2) =~= le_bytes(b.len(), 2));
        assert(s.subrange(2, 2 + b.len() as int) =~= b);
    }

    proof fn lemma_slot_read(s: Seq<u8>, cfg: u16) {
    }

    proof fn lemma_config(cfg: u16) {
        lemma_pow256_values();
        lemma_le_round_trip(cfg as nat, 2);
        let s = le_bytes(cfg as nat, 2);
        assert(s.subrange(0, 2) =~= s);
    }

    fn node_meta_bytes() -> (r: usize) {
        2
    }

    fn slot_key_size(cfg: u16) -> (r: usize) {
        VAR_KEY_LEN_PREFIX + cfg as usize
    }

    fn write_config(cfg: u16) -> (r: Vec<u8>) {
        let mut v: Vec<u8> = Vec::new();
        push_le(&mut v, cfg as u128, 2);
        assert(v@ =~= Self::config_image(cfg));
        v
    }

    fn read_config(s: &[u8]) -> (r: u16) {
        get_u16(s, 0)
    }

    fn write_key(&self, cfg: u16) -> (r: Vec<u8>) {
        let mut v: Vec<u8> = Vec::with_capacity(VAR_KEY_LEN_PREFIX + cfg as usize);
        push_le(&mut v, self.len() as u128, 2);
        v.extend_from_slice(self.as_slice());
        let mut i: usize = self.len();
        let ghost head = v@;
        proof {
            assert(head =~= le_bytes(self@.len(), 2) + self@);
            assert(v@ =~= head + zeros(0));
        }
        while i < cfg as usize
            invariant
                self@.len() <= i <= cfg,
                v@ == head + zeros((i - self@.len()) as nat),
            decreases cfg - i,
        {
            v.push(0);
            i = i + 1;
            assert(v@ =~= head + zeros((i - self@.len()) as nat));
        }
        v
    }

    fn read_key(s: &[u8], cfg: u16) -> (r: Self) {
        let len: usize = get_u16(s, 0) as usize;
        to_vec(&s[2..2 + len])
    }

    fn key_lt(&self, other: &Self) -> (r: bool) {
        bytes_lt(self.as_slice(), other.as_slice())
    }

    fn key_eq(&self, other: &Self) -> (r: bool) {
        bytes_eq(self.as_slice(), other.as_slice())
    }

    fn dup(&self) -> (r: Self) {
        to_vec(self.as_slice())
    }

    fn duplicate_key_error(&self) -> (r: GrumpyError) {
        GrumpyError::Codec(numbered("duplicate key in VarBTree: ", self.len() as u64, " bytes"))
    }

    fn key_not_found_error(&self) -> (r: GrumpyError) {
        GrumpyError::Codec(numbered("key not found in VarBTree: ", self.len() as u64, " bytes"))
    }
}

} // verus!
