//! The magic packet: six bytes of `0xFF`, then the address sixteen times.

use vstd::prelude::*;
use crate::address::{
    hex_digits, lemma_parses_iff_well_formed, octets, parse_mac, parsed_address, well_formed,
};
use crate::error::ParseError;

verus! {

/// The number of bytes in a magic packet.
pub const PACKET_LEN: usize = 102;

/// The byte that the packet opens with, six times over.
pub const SYNC_BYTE: u8 = 0xFF;

/// The six synchronisation bytes.
pub open spec fn sync_stream() -> Seq<u8> {
    Seq::new(6, |i: int| SYNC_BYTE)
}

/// `a`, `n` times in a row.
pub open spec fn repeated(a: Seq<u8>, n: nat) -> Seq<u8>
    decreases n,
{
    if n == 0 {
        Seq::empty()
    } else {
        repeated(a, (n - 1) as nat) + a
    }
}

/// The magic packet for `address`: the synchronisation bytes, then the
/// address sixteen times.
pub open spec fn magic_payload(address: Seq<u8>) -> Seq<u8> {
    sync_stream() + repeated(address, 16)
}

/// What `create_magic_packet` gives for the text `s`: the packet of the
/// parsed address, or the parser's error unchanged.
pub open spec fn magic_packet_for(s: Seq<char>) -> Result<Seq<u8>, ParseError> {
    match parsed_address(s) {
        Ok(address) => Ok(magic_payload(address)),
        Err(e) => Err(e),
    }
}

/// A repetition has `n` times the length, and its byte at `i` is the byte
/// of `a` at `i` modulo the length of `a`.
pub proof fn lemma_repeated(a: Seq<u8>, n: nat)
    ensures
        repeated(a, n).len() == n * a.len(),
        forall|i: int|
            0 <= i < n * a.len() ==> #[trigger] repeated(a, n)[i] == a[i % (a.len() as int)],
    decreases n,
{
    if n > 0 {
        let m = (n - 1) as nat;
        lemma_repeated(a, m);
        assert(n * a.len() == m * a.len() + a.len()) by (nonlinear_arith)
            requires
                n == m + 1,
        ;
        assert forall|i: int| 0 <= i < n * a.len() implies #[trigger] repeated(a, n)[i] == a[i % (
        a.len() as int)] by {
            if i >= m * a.len() {
                let r = i - m * a.len();
                assert(i % (a.len() as int) == r) by (nonlinear_arith)
                    requires
                        i == m * a.len() + r,
                        0 <= r < a.len(),
                ;
            }
        }
    } else {
        assert(n * a.len() == 0) by (nonlinear_arith)
            requires
                n == 0,
        ;
    }
}

/// A magic packet has 102 bytes, and its first six are the
/// synchronisation byte.
pub proof fn lemma_payload_shape(address: Seq<u8>)
    requires
        address.len() == 6,
    ensures
        magic_payload(address).len() == PACKET_LEN,
        forall|i: int| 0 <= i < 6 ==> #[trigger] magic_payload(address)[i] == SYNC_BYTE,
        magic_payload(address).subrange(0, 6) == sync_stream(),
{
    lemma_repeated(address, 16);
    assert(magic_payload(address).subrange(0, 6) =~= sync_stream());
}

/// Each of the sixteen windows of six bytes that follow the
/// synchronisation bytes gives the address back.
pub proof fn lemma_payload_window(address: Seq<u8>, k: int)
    requires
        address.len() == 6,
        0 <= k < 16,
    ensures
        magic_payload(address).subrange(6 + 6 * k, 12 + 6 * k) == address,
{
    lemma_repeated(address, 16);
    let window = magic_payload(address).subrange(6 + 6 * k, 12 + 6 * k);
    assert forall|j: int| 0 <= j < 6 implies window[j] == address[j] by {
        let i = 6 * k + j;
        assert(magic_payload(address)[6 + i] == repeated(address, 16)[i]);
        assert(i % 6 == j) by (nonlinear_arith)
            requires
                i == 6 * k + j,
                0 <= j < 6,
        ;
    }
    assert(window =~= address);
}

/// For a well-formed text the packet is made: 102 bytes, the first six of
/// them `0xFF`, and each window of six bytes after them the address that
/// the digits of the text spell.
pub proof fn lemma_packet_of_well_formed(s: Seq<char>, k: int)
    requires
        well_formed(s),
        0 <= k < 16,
    ensures
        magic_packet_for(s) is Ok,
        magic_packet_for(s)->Ok_0.len() == PACKET_LEN,
        magic_packet_for(s)->Ok_0.subrange(0, 6) == sync_stream(),
        magic_packet_for(s)->Ok_0.subrange(6 + 6 * k, 12 + 6 * k) == octets(hex_digits(s)),
        parsed_address(s) == Ok::<Seq<u8>, ParseError>(octets(hex_digits(s))),
{
    lemma_parses_iff_well_formed(s);
    let address = octets(hex_digits(s));
    lemma_payload_shape(address);
    lemma_payload_window(address, k);
}

/// A packet is made for the well-formed texts and for no others; any other
/// text is refused with the parser's error.
pub proof fn lemma_packet_iff_well_formed(s: Seq<char>)
    ensures
        magic_packet_for(s) is Ok <==> well_formed(s),
        magic_packet_for(s) is Err ==> parsed_address(s) is Err && magic_packet_for(s)->Err_0
            == parsed_address(s)->Err_0,
{
    lemma_parses_iff_well_formed(s);
}

/// Lays out the magic packet for an address.
pub fn encode(address: [u8; 6]) -> (packet: [u8; 102])
    ensures
        packet@ == magic_payload(address@),
{
    let mut packet: [u8; 102] = [SYNC_BYTE; 102];
    let mut i: usize = 1;
    while i < 17
        invariant
            1 <= i <= 17,
            forall|p: int| 0 <= p < 6 ==> packet[p] == SYNC_BYTE,
            forall|p: int| 6 <= p < 6 * i ==> packet[p] == address[p % 6],
        decreases 17 - i,
    {
        let mut j: usize = 0;
        while j < 6
            invariant
                1 <= i < 17,
                0 <= j <= 6,
                forall|p: int| 0 <= p < 6 ==> packet[p] == SYNC_BYTE,
                forall|p: int| 6 <= p < 6 * i + j ==> packet[p] == address[p % 6],
            decreases 6 - j,
        {
            packet[i * 6 + j] = address[j];
            j += 1;
        }
        i += 1;
    }
    proof {
        lemma_repeated(address@, 16);
        assert(packet@ =~= magic_payload(address@));
    }
    packet
}

/// Creates the magic packet for a textual hardware address.
///
/// Accepted are twelve hexadecimal digits with nothing between them, and
/// the same with one of `-`, `:` and `.` between the octets:
///
/// `aa-bb-cc-dd-ee-ff`, `aa:bb:cc:dd:ee:ff`, `aa.bb.cc.dd.ee.ff`,
/// `aabbccddeeff`.
pub fn create_magic_packet(mac: &str) -> (r: Result<[u8; 102], ParseError>)
    ensures
        match r {
            Ok(packet) => magic_packet_for(mac@) == Ok::<Seq<u8>, ParseError>(packet@),
            Err(e) => magic_packet_for(mac@) == Err::<Seq<u8>, ParseError>(e),
        },
{
    match parse_mac(mac) {
        Ok(address) => Ok(encode(address)),
        Err(e) => Err(e),
    }
}

} // verus!
