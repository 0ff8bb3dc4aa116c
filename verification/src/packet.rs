//! The magic packet: six bytes of `0xFF`, then the address sixteen times.
use crate::eui48::{
    is_eui48_text, is_first_missing_separator, lemma_separators_interchangeable, parse_eui48,
    parse_eui48_spec, with_hyphens, Eui48, ParseError, EUI48_DIGITS, EUI48_TEXT_LEN,
};
use crate::hex::{hex_digits, hex_number};
use vstd::arithmetic::power::pow;
use vstd::prelude::*;

verus! {

/// The number of bytes of a magic packet.
pub const MAGIC_PACKET_LEN: usize = 102;

/// The number of octets of an address.
pub const EUI48_OCTETS: usize = 6;

/// Octet `j` of an address, the most significant being octet 0. Bits above
/// the 48th have no part in any octet.
pub open spec fn eui48_octet(mac: Eui48, j: int) -> u8 {
    ((mac as int / pow(256, (5 - j) as nat)) % 256) as u8
}

/// The six octets of an address, most significant first.
pub open spec fn eui48_octets(mac: Eui48) -> Seq<u8> {
    Seq::new(EUI48_OCTETS as nat, |j: int| eui48_octet(mac, j))
}

/// The bytes of the packet that wakes `mac`: byte `i` is `0xFF` among the
/// first six, and octet `i % 6` of the address after them.
pub open spec fn magic_packet_bytes(mac: Eui48) -> Seq<u8> {
    Seq::new(
        MAGIC_PACKET_LEN as nat,
        |i: int|
            if i < 6 {
                0xFFu8
            } else {
                eui48_octet(mac, i % 6)
            },
    )
}

/// Whether `bytes` are the packet of some address.
pub open spec fn is_magic_packet(bytes: Seq<u8>) -> bool {
    exists|mac: Eui48| bytes == magic_packet_bytes(mac)
}

/// What creating a packet for `text` gives: the bytes of the packet that
/// wakes the address written there, or the reason why none is written there.
pub open spec fn magic_packet_for(text: Seq<char>) -> Result<Seq<u8>, ParseError> {
    match parse_eui48_spec(text) {
        Ok(mac) => Ok(magic_packet_bytes(mac)),
        Err(e) => Err(e),
    }
}

/// A Wake-on-LAN magic packet. Once built it does not change, and its bytes
/// are at all times those of the packet of some address.
#[derive(Debug)]
pub struct MagicPacket([u8; MAGIC_PACKET_LEN]);

impl View for MagicPacket {
    type V = Seq<u8>;

    closed spec fn view(&self) -> Seq<u8> {
        self.0@
    }
}

impl MagicPacket {
    #[verifier::type_invariant]
    spec fn well_formed(self) -> bool {
        is_magic_packet(self.0@)
    }

    /// Builds the packet that wakes `mac`.
    ///
    /// Of `mac` the low 48 bits are read: octet `j` is `mac` shifted right
    /// by `40 - 8 * j` bits, cut to its low eight.
    pub fn new(mac: Eui48) -> (packet: MagicPacket)
        ensures
            packet@ == magic_packet_bytes(mac),
            packet@.len() == MAGIC_PACKET_LEN,
            forall|i: int| 0 <= i < 6 ==> packet@[i] == 0xFF,
            packet@.subrange(6, 12) == eui48_octets(mac),
            packet@.subrange(96, 102) == eui48_octets(mac),
    {
        proof {
            lemma_packet_repeats_address(mac, 1);
            lemma_packet_repeats_address(mac, 16);
        }
        let mut packet = [0xFFu8;MAGIC_PACKET_LEN];
        for i in 1..17usize
            invariant
                forall|k: int| 0 <= k < 6 * i ==> packet@[k] == magic_packet_bytes(mac)[k],
        {
            let dst = i * 6;
            for j in 0..6usize
                invariant
                    1 <= i < 17,
                    dst == 6 * i,
                    forall|k: int| 0 <= k < dst + j ==> packet@[k] == magic_packet_bytes(mac)[k],
            {
                proof {
                    lemma_octet_by_shift(mac, j as u64);
                }
                packet[dst + j] = (mac >> (40 - (j * 8)) & 0xFF) as u8;
            }
        }
        assert(packet@ =~= magic_packet_bytes(mac));
        MagicPacket(packet)
    }

    /// The bytes of the packet, as they go on the wire.
    pub fn as_bytes(&self) -> (bytes: &[u8; MAGIC_PACKET_LEN])
        ensures
            bytes@ == self@,
            is_magic_packet(bytes@),
    {
        proof {
            use_type_invariant(self);
        }
        &self.0
    }
}

/// Creates the magic packet for a written address, its pairs of digits
/// separated by hyphens or by colons.
///
/// Exactly the written addresses give a packet, that of the number that their
/// twelve digits spell. Any other text is rejected: for its length if it is
/// not 17 characters long or does not hold 12 hexadecimal digits, and else
/// with the first separator position at which no separator stands.
pub fn create_magic_packet(mac: &str) -> (r: Result<MagicPacket, ParseError>)
    ensures
        match r {
            Ok(packet) => magic_packet_for(mac@) matches Ok(bytes) && bytes == packet@,
            Err(e) => magic_packet_for(mac@) matches Err(reason) && reason == e,
        },
        r is Ok <==> is_eui48_text(mac@),
        r matches Ok(packet) ==> {
            &&& packet@ == magic_packet_bytes(hex_number(hex_digits(mac@)) as Eui48)
            &&& packet@.len() == MAGIC_PACKET_LEN
            &&& forall|i: int| 0 <= i < 6 ==> packet@[i] == 0xFF
        },
        mac@.len() != EUI48_TEXT_LEN || hex_digits(mac@).len() != EUI48_DIGITS ==> r matches Err(
            ParseError::InvalidLength,
        ),
        forall|at: int|
            mac@.len() == EUI48_TEXT_LEN && hex_digits(mac@).len() == EUI48_DIGITS
                && #[trigger] is_first_missing_separator(mac@, at) ==> (r matches Err(
                ParseError::ExpectedHyphen(p),
            ) && p == at),
{
    match parse_eui48(mac) {
        Ok(eui) => Ok(MagicPacket::new(eui)),
        Err(e) => Err(e),
    }
}

/// Every magic packet is 102 bytes long and begins with six bytes of `0xFF`;
/// from the twelfth byte on, each byte repeats the one six places before it.
pub proof fn lemma_magic_packet_layout(bytes: Seq<u8>)
    requires
        is_magic_packet(bytes),
    ensures
        bytes.len() == MAGIC_PACKET_LEN,
        forall|i: int| 0 <= i < 6 ==> bytes[i] == 0xFF,
        forall|i: int| 12 <= i < 102 ==> #[trigger] bytes[i] == bytes[i - 6],
{
}

/// Each of the sixteen slots that follow the first six bytes of a packet
/// holds the six octets of the address, most significant first.
pub proof fn lemma_packet_repeats_address(mac: Eui48, slot: int)
    requires
        1 <= slot <= 16,
    ensures
        magic_packet_bytes(mac).subrange(6 * slot, 6 * slot + 6) == eui48_octets(mac),
{
    assert(magic_packet_bytes(mac).subrange(6 * slot, 6 * slot + 6) =~= eui48_octets(mac));
}

/// The six octets of a 48-bit address, each weighted by its place, add up to
/// the address: no two addresses have the same octets.
pub proof fn lemma_octets_spell_address(mac: Eui48)
    requires
        mac < 0x1_0000_0000_0000,
    ensures
        mac == eui48_octet(mac, 0) * 0x100_0000_0000 + eui48_octet(mac, 1) * 0x1_0000_0000
            + eui48_octet(mac, 2) * 0x100_0000 + eui48_octet(mac, 3) * 0x1_0000 + eui48_octet(
            mac,
            4,
        ) * 0x100 + eui48_octet(mac, 5),
{
    lemma_pow256_values();
    assert(mac < 0x1_0000_0000_0000 ==> mac == ((mac / 0x100_0000_0000) % 256) * 0x100_0000_0000
        + ((mac / 0x1_0000_0000) % 256) * 0x1_0000_0000 + ((mac / 0x100_0000) % 256) * 0x100_0000
        + ((mac / 0x1_0000) % 256) * 0x1_0000 + ((mac / 0x100) % 256) * 0x100 + (mac / 1) % 256)
        by (bit_vector);
}

/// The packet of a 48-bit address gives the address back: its bytes from 6
/// to 12, and those from 96 to 102, are the six octets of the address, and
/// read as a number, most significant byte first, they are the address.
pub proof fn lemma_packet_round_trip(mac: Eui48)
    requires
        mac < 0x1_0000_0000_0000,
    ensures
        ({
            let bytes = magic_packet_bytes(mac);
            &&& bytes.subrange(6, 12) == eui48_octets(mac)
            &&& bytes.subrange(96, 102) == eui48_octets(mac)
            &&& mac == bytes[6] * 0x100_0000_0000 + bytes[7] * 0x1_0000_0000 + bytes[8]
                * 0x100_0000 + bytes[9] * 0x1_0000 + bytes[10] * 0x100 + bytes[11]
            &&& mac == bytes[96] * 0x100_0000_0000 + bytes[97] * 0x1_0000_0000 + bytes[98]
                * 0x100_0000 + bytes[99] * 0x1_0000 + bytes[100] * 0x100 + bytes[101]
        }),
{
    lemma_packet_repeats_address(mac, 1);
    lemma_packet_repeats_address(mac, 16);
    lemma_octets_spell_address(mac);
}

/// The choice between colon and hyphen, made anew at each separator, has no
/// part in the packet: a text gives what its all-hyphen form gives.
pub proof fn lemma_packet_separators_interchangeable(text: Seq<char>)
    ensures
        magic_packet_for(text) == magic_packet_for(with_hyphens(text)),
{
    lemma_separators_interchangeable(text);
}

/// The powers of 256 by which the octets of an address are weighted.
proof fn lemma_pow256_values()
    ensures
        pow(256, 0) == 1,
        pow(256, 1) == 0x100,
        pow(256, 2) == 0x1_0000,
        pow(256, 3) == 0x100_0000,
        pow(256, 4) == 0x1_0000_0000,
        pow(256, 5) == 0x100_0000_0000,
{
    reveal_with_fuel(pow, 6);
}

/// Shifting the address right by `40 - 8 * j` bits and keeping the low eight
/// gives octet `j`.
proof fn lemma_octet_by_shift(mac: Eui48, j: u64)
    requires
        j < 6,
    ensures
        (mac >> (40 - j * 8) as u64) & 0xFF == eui48_octet(mac, j as int),
{
    lemma_pow256_values();
    assert((mac >> 40u64) & 0xFF == (mac / 0x100_0000_0000) % 256) by (bit_vector);
    assert((mac >> 32u64) & 0xFF == (mac / 0x1_0000_0000) % 256) by (bit_vector);
    assert((mac >> 24u64) & 0xFF == (mac / 0x100_0000) % 256) by (bit_vector);
    assert((mac >> 16u64) & 0xFF == (mac / 0x1_0000) % 256) by (bit_vector);
    assert((mac >> 8u64) & 0xFF == (mac / 0x100) % 256) by (bit_vector);
    assert((mac >> 0u64) & 0xFF == (mac / 1) % 256) by (bit_vector);
}

} // verus!
