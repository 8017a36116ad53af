//! Element identity: an opaque, immutable 128-bit value minted as a UUIDv7.

use vstd::prelude::*;

verus! {

/// Opaque, globally-unique, immutable identity for every model element.
///
/// Holds the 128 bits of a UUIDv7 (48-bit millisecond timestamp followed by
/// version, counter and random bits). The value is private; there is no
/// mutator, so an identity never changes.
#[derive(Debug, Clone, Copy, PartialEq, Eq, Structural, PartialOrd, Ord, Hash)]
pub struct ElementId(u128);

/// The `uuid` crate's UUID type, carried through opaquely.
#[verifier::external_type_specification]
#[verifier::external_body]
pub struct ExUuid(uuid::Uuid);

/// Byte `i` (0 = most significant) of the big-endian encoding of `v`.
pub open spec fn be_byte(v: u128, i: int) -> u8 {
    (v >> ((15 - i) * 8) as u128) as u8
}

/// Calls `uuid::Uuid::now_v7` and reads the value back with `Uuid::as_u128`.
///
/// The result depends on the clock and on a random source, so nothing fixes
/// its value; what every outcome has, per RFC 9562 and the `uuid` source
/// (`encode_unix_timestamp_millis`), is the version nibble `7` in bits 76..80
/// and the variant bits `0b10` in bits 62..64. Uniqueness and the ordering of
/// successive mints are not stated: they rest on time and chance.
#[verifier::external_body]
fn mint_uuid_v7_bits() -> (bits: u128)
    ensures
        (bits >> 76u128) & 0xfu128 == 7,
        (bits >> 62u128) & 0x3u128 == 2,
{
    uuid::Uuid::now_v7().as_u128()
}

/// The UUID `uuid::Uuid::from_u128` builds from a 128-bit value: the one
/// whose big-endian bytes are those of the value.
pub uninterp spec fn uuid_of_value(v: u128) -> uuid::Uuid;

/// Calls `uuid::Uuid::from_u128`. It is a pure conversion (the UUID whose
/// big-endian bytes are those of `v`), so its result is named by the value
/// alone; the `Uuid` is opaque here, so nothing more is said of it.
#[verifier::external_body]
fn uuid_from_bits(v: u128) -> (u: uuid::Uuid)
    ensures
        u == uuid_of_value(v),
{
    uuid::Uuid::from_u128(v)
}

impl ElementId {
    /// The 128-bit value of this identity.
    pub closed spec fn value(self) -> u128 {
        self.0
    }

    /// The identity with the given 128-bit value.
    pub closed spec fn from_value(v: u128) -> ElementId {
        ElementId(v)
    }

    /// The identity built from a value has that value.
    pub proof fn lemma_from_value(v: u128)
        ensures
            ElementId::from_value(v).value() == v,
    {
    }

    /// Two identities are the same exactly when their values are.
    pub proof fn lemma_value_injective(a: ElementId, b: ElementId)
        ensures
            (a.value() == b.value()) == (a == b),
    {
    }

    /// Mint a fresh, time-ordered identity (a UUIDv7).
    pub fn new() -> (id: Self)
        ensures
            (id.value() >> 76u128) & 0xfu128 == 7,
            (id.value() >> 62u128) & 0x3u128 == 2,
    {
        ElementId(mint_uuid_v7_bits())
    }

    /// The identity with the given 128-bit value.
    pub fn from_u128(v: u128) -> (id: Self)
        ensures
            id.value() == v,
            id == ElementId::from_value(v),
    {
        ElementId(v)
    }

    /// The 128-bit value of this identity.
    pub fn as_u128(&self) -> (v: u128)
        ensures
            v == self.value(),
    {
        self.0
    }

    /// The 16 bytes of the identity, most significant first (for a UUIDv7 the
    /// millisecond timestamp is in the leading 6 bytes).
    pub fn as_bytes(&self) -> (b: [u8; 16])
        ensures
            forall|i: int| 0 <= i < 16 ==> #[trigger] b@[i] == be_byte(self.value(), i),
    {
        let v = self.0;
        let b: [u8; 16] = [
            (v >> 120u128) as u8,
            (v >> 112u128) as u8,
            (v >> 104u128) as u8,
            (v >> 96u128) as u8,
            (v >> 88u128) as u8,
            (v >> 80u128) as u8,
            (v >> 72u128) as u8,
            (v >> 64u128) as u8,
            (v >> 56u128) as u8,
            (v >> 48u128) as u8,
            (v >> 40u128) as u8,
            (v >> 32u128) as u8,
            (v >> 24u128) as u8,
            (v >> 16u128) as u8,
            (v >> 8u128) as u8,
            v as u8,
        ];
        assert(v == v >> 0u128) by (bit_vector);
        b
    }

    /// The identity as a `uuid::Uuid` (the UUID whose bytes are
    /// [`ElementId::as_bytes`]).
    pub fn as_uuid(&self) -> (u: uuid::Uuid)
        ensures
            u == uuid_of_value(self.value()),
    {
        uuid_from_bits(self.0)
    }

}

impl Default for ElementId {
    /// A freshly minted identity, as [`ElementId::new`].
    fn default() -> (id: Self)
        ensures
            (id.value() >> 76u128) & 0xfu128 == 7,
    {
        ElementId::new()
    }
}

} // verus!
