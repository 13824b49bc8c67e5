//! PAR2 packets: a common header around the bodies that describe a recovery
//! set.

use vstd::bytes::*;
use vstd::prelude::*;
use vstd::string::*;

use crate::digests;
use crate::text;

verus! {

/// MD5 and CRC-32 of one input slice.
#[derive(Debug, Clone, Copy, PartialEq, Eq)]
pub struct SliceChecksum {
    /// MD5 of the zero-padded slice.
    pub md5: [u8; 16],
    /// CRC-32 of the zero-padded slice.
    pub crc32: u32,
}

impl View for SliceChecksum {
    type V = (Seq<u8>, u32);

    open spec fn view(&self) -> (Seq<u8>, u32) {
        (self.md5@, self.crc32)
    }
}

/// The MD5 and the CRC-32 of a slice.
pub open spec fn checksum_of(slice: Seq<u8>) -> (Seq<u8>, u32) {
    (digests::md5_digest(slice), digests::crc32_checksum(slice))
}

/// MD5 of a complete byte slice.
pub fn md5(data: &[u8]) -> (digest: [u8; 16])
    ensures
        digest@ == digests::md5_digest(data@),
{
    let mut hasher: md5::Md5 = digests::md5_new();
    digests::md5_update(&mut hasher, data);
    assert(Seq::<u8>::empty() + data@ =~= data@);
    digests::md5_finalize(hasher)
}

/// What a packet is about.
#[derive(Debug, Clone, Copy, PartialEq, Eq, Structural)]
pub enum PacketType {
    /// The slice size and the files of the recovery set.
    Main,
    /// The program that made the set.
    Creator,
    /// Name, size and hashes of one file.
    FileDesc,
    /// Checksums of the slices of one file.
    Ifsc,
    /// One recovery slice.
    Recovery,
}

/// The sixteen bytes that name a type.
pub open spec fn type_bytes(t: PacketType) -> Seq<u8> {
    // "PAR 2.0\0" and eight bytes more.
    seq![80u8, 65, 82, 32, 50, 46, 48, 0] + match t {
        // "Main"
        PacketType::Main => seq![77u8, 97, 105, 110, 0, 0, 0, 0],
        // "Creator"
        PacketType::Creator => seq![67u8, 114, 101, 97, 116, 111, 114, 0],
        // "FileDesc"
        PacketType::FileDesc => seq![70u8, 105, 108, 101, 68, 101, 115, 99],
        // "IFSC"
        PacketType::Ifsc => seq![73u8, 70, 83, 67, 0, 0, 0, 0],
        // "RecvSlic"
        PacketType::Recovery => seq![82u8, 101, 99, 118, 83, 108, 105, 99],
    }
}

/// The bytes that every packet starts with: "PAR2\0PKT".
pub open spec fn magic() -> Seq<u8> {
    seq![80u8, 65, 82, 50, 0, 80, 75, 84]
}

/// Bytes with zeros behind, to a multiple of four.
pub open spec fn padded(bytes: Seq<u8>) -> Seq<u8> {
    bytes + Seq::new(((4 - bytes.len() % 4) % 4) as nat, |i: int| 0u8)
}

/// The length of a packet, as far as 64 bits hold it.
pub open spec fn length_field(len: nat) -> u64 {
    (len % 0x1_0000_0000_0000_0000) as u64
}

/// A packet: magic, length, MD5 of all that follows, set, type and body.
pub open spec fn packet_bytes(set_id: Seq<u8>, t: PacketType, body: Seq<u8>) -> Seq<u8> {
    magic() + spec_u64_to_le_bytes(length_field(64 + body.len())) + digests::md5_digest(
        set_id + type_bytes(t) + body,
    ) + set_id + type_bytes(t) + body
}

fn push_type(out: &mut Vec<u8>, t: PacketType)
    ensures
        final(out)@ == old(out)@ + type_bytes(t),
{
    let ghost before = out@;
    let head: [u8; 8] = [80, 65, 82, 32, 50, 46, 48, 0];
    let tail: [u8; 8] = match t {
        PacketType::Main => [77, 97, 105, 110, 0, 0, 0, 0],
        PacketType::Creator => [67, 114, 101, 97, 116, 111, 114, 0],
        PacketType::FileDesc => [70, 105, 108, 101, 68, 101, 115, 99],
        PacketType::Ifsc => [73, 70, 83, 67, 0, 0, 0, 0],
        PacketType::Recovery => [82, 101, 99, 118, 83, 108, 105, 99],
    };
    text::push_bytes(out, vstd::array::array_as_slice(&head));
    text::push_bytes(out, vstd::array::array_as_slice(&tail));
    assert(out@ =~= before + type_bytes(t));
}

fn push_padding(out: &mut Vec<u8>)
    ensures
        final(out)@ == padded(old(out)@),
{
    let ghost before = out@;
    while out.len() % 4 != 0
        invariant
            before.len() <= out@.len() <= padded(before).len(),
            forall|i: int| 0 <= i < out@.len() ==> #[trigger] out@[i] == padded(before)[i],
            padded(before).len() % 4 == 0,
            padded(before).len() < before.len() + 4,
        decreases padded(before).len() - out@.len(),
    {
        out.push(0);
    }
    assert(out@ =~= padded(before));
}

/// Wrap a body in a packet of the recovery set `set_id`.
pub fn serialize_packet(set_id: &[u8; 16], t: PacketType, body: &[u8]) -> (packet: Vec<u8>)
    requires
        body@.len() % 4 == 0,
    ensures
        packet@ == packet_bytes(set_id@, t, body@),
        packet@.len() == 64 + body@.len(),
        is_sized(set_id@, t, body@),
{
    let mut hashed: Vec<u8> = Vec::new();
    text::push_bytes(&mut hashed, vstd::array::array_as_slice(set_id));
    assert(hashed@ =~= set_id@);
    push_type(&mut hashed, t);
    text::push_bytes(&mut hashed, body);
    let digest: [u8; 16] = md5(hashed.as_slice());
    let start: [u8; 8] = [80, 65, 82, 50, 0, 80, 75, 84];
    let size: u64 = (body.len() as u64).wrapping_add(64);
    assert(size == length_field(64 + body@.len()));
    let len: Vec<u8> = u64_to_le_bytes(size);
    proof {
        lemma_auto_spec_u64_to_from_le_bytes();
    }
    let mut packet: Vec<u8> = Vec::new();
    text::push_bytes(&mut packet, vstd::array::array_as_slice(&start));
    assert(packet@ =~= magic());
    text::push_bytes(&mut packet, len.as_slice());
    text::push_bytes(&mut packet, vstd::array::array_as_slice(&digest));
    text::push_bytes(&mut packet, hashed.as_slice());
    proof {
        let head = magic() + spec_u64_to_le_bytes(
            length_field(64 + body@.len()),
        ) + digests::md5_digest(
            hashed@,
        );
        assert(head + hashed@ =~= head + set_id@ + type_bytes(t) + body@);
    }
    let _size: usize = packet.len();
    packet
}

/// The digest in a packet has its sixteen bytes, and so does the set, and the
/// length of the packet fits its field.
pub open spec fn is_sized(set_id: Seq<u8>, t: PacketType, body: Seq<u8>) -> bool {
    &&& set_id.len() == 16
    &&& digests::md5_digest(set_id + type_bytes(t) + body).len() == 16
    &&& 64 + body.len() <= u64::MAX
}

/// A packet as a reader finds it.
pub struct Packet {
    pub set_id: Seq<u8>,
    pub t: PacketType,
    pub body: Seq<u8>,
}

/// The type that sixteen bytes name: "PAR 2.0", a zero, and a word filled up with
/// zeros.
pub open spec fn read_type(bytes: Seq<u8>) -> Option<PacketType> {
    if bytes == seq![80u8, 65, 82, 32, 50, 46, 48, 0, 77, 97, 105, 110, 0, 0, 0, 0] {
        Some(PacketType::Main)
    } else if bytes == seq![80u8, 65, 82, 32, 50, 46, 48, 0, 67, 114, 101, 97, 116, 111, 114, 0] {
        Some(PacketType::Creator)
    } else if bytes == seq![
        80u8,
        65,
        82,
        32,
        50,
        46,
        48,
        0,
        70,
        105,
        108,
        101,
        68,
        101,
        115,
        99,
    ] {
        Some(PacketType::FileDesc)
    } else if bytes == seq![80u8, 65, 82, 32, 50, 46, 48, 0, 73, 70, 83, 67, 0, 0, 0, 0] {
        Some(PacketType::Ifsc)
    } else if bytes == seq![
        80u8,
        65,
        82,
        32,
        50,
        46,
        48,
        0,
        82,
        101,
        99,
        118,
        83,
        108,
        105,
        99,
    ] {
        Some(PacketType::Recovery)
    } else {
        None
    }
}

/// The length that a packet gives for itself: the little-endian number behind its
/// first eight bytes.
pub open spec fn read_length(bytes: Seq<u8>) -> nat {
    spec_u64_from_le_bytes(bytes.subrange(8, 16)) as nat
}

/// The packet at the start of some bytes: eight bytes that mark it, its length,
/// the MD5 of what follows, the set, the type, and the body.
#[verifier::opaque]
pub open spec fn read_packet(bytes: Seq<u8>) -> Option<Packet> {
    let end = read_length(bytes) as int;
    if bytes.len() < 64 || bytes.take(8) != seq![80u8, 65, 82, 50, 0, 80, 75, 84] || !(64 <= end
        <= bytes.len()) || end % 4 != 0 || bytes.subrange(16, 32) != digests::md5_digest(
        bytes.subrange(32, end),
    ) {
        None
    } else {
        match read_type(bytes.subrange(48, 64)) {
            Some(t) => Some(
                Packet { set_id: bytes.subrange(32, 48), t, body: bytes.subrange(64, end) },
            ),
            None => None,
        }
    }
}

/// The packets that some bytes consist of.
pub open spec fn read_packets(bytes: Seq<u8>) -> Option<Seq<Packet>>
    decreases bytes.len(),
{
    if bytes.len() == 0 {
        Some(Seq::empty())
    } else {
        match read_packet(bytes) {
            Some(packet) => {
                proof {
                    reveal(read_packet);
                }
                match read_packets(bytes.skip(read_length(bytes) as int)) {
                    Some(rest) => Some(seq![packet] + rest),
                    None => None,
                }
            },
            None => None,
        }
    }
}

proof fn lemma_type_reads(t: PacketType)
    ensures
        read_type(type_bytes(t)) == Some(t),
        type_bytes(t).len() == 16,
{
    let b = type_bytes(t);
    match t {
        PacketType::Main => {
            assert(b =~= seq![80u8, 65, 82, 32, 50, 46, 48, 0, 77, 97, 105, 110, 0, 0, 0, 0]);
        },
        PacketType::Creator => {
            assert(b =~= seq![80u8, 65, 82, 32, 50, 46, 48, 0, 67, 114, 101, 97, 116, 111, 114, 0]);
            assert(b[8] == 67);
        },
        PacketType::FileDesc => {
            assert(b =~= seq![
                80u8,
                65,
                82,
                32,
                50,
                46,
                48,
                0,
                70,
                105,
                108,
                101,
                68,
                101,
                115,
                99,
            ]);
            assert(b[8] == 70);
        },
        PacketType::Ifsc => {
            assert(b =~= seq![80u8, 65, 82, 32, 50, 46, 48, 0, 73, 70, 83, 67, 0, 0, 0, 0]);
            assert(b[8] == 73);
        },
        PacketType::Recovery => {
            assert(b =~= seq![
                80u8,
                65,
                82,
                32,
                50,
                46,
                48,
                0,
                82,
                101,
                99,
                118,
                83,
                108,
                105,
                99,
            ]);
            assert(b[8] == 82);
        },
    }
}

/// A reader gets back the set, the type and the body of a packet, whatever comes
/// behind it.
#[verifier::rlimit(40)]
pub proof fn law_packets_read_back(
    set_id: Seq<u8>,
    t: PacketType,
    body: Seq<u8>,
    behind: Seq<u8>,
)
    requires
        is_sized(set_id, t, body),
        body.len() % 4 == 0,
    ensures
        read_packet(packet_bytes(set_id, t, body) + behind) == Some(Packet { set_id, t, body }),
        read_length(packet_bytes(set_id, t, body) + behind) == packet_bytes(set_id, t, body).len(),
        packet_bytes(set_id, t, body).len() == 64 + body.len(),
{
    reveal(read_packet);
    let packet = packet_bytes(set_id, t, body);
    let bytes = packet + behind;
    let end = 64 + body.len() as int;
    let field = spec_u64_to_le_bytes(length_field(64 + body.len()));
    let hashed = set_id + type_bytes(t) + body;
    lemma_auto_spec_u64_to_from_le_bytes();
    lemma_type_reads(t);
    assert(packet =~= magic() + field + digests::md5_digest(hashed) + hashed);
    assert(bytes.take(8) =~= magic());
    assert(magic() =~= seq![80u8, 65, 82, 50, 0, 80, 75, 84]);
    assert(bytes.subrange(8, 16) =~= field);
    assert(bytes.subrange(16, 32) =~= digests::md5_digest(hashed));
    assert(bytes.subrange(32, end) =~= hashed);
    assert(bytes.subrange(32, 48) =~= set_id);
    assert(bytes.subrange(48, 64) =~= type_bytes(t));
    assert(bytes.subrange(64, end) =~= body);
}

/// What a packet in front adds to the packets read.
pub proof fn lemma_read_first(set_id: Seq<u8>, t: PacketType, body: Seq<u8>, behind: Seq<u8>)
    requires
        is_sized(set_id, t, body),
        body.len() % 4 == 0,
        read_packets(behind) is Some,
    ensures
        read_packets(packet_bytes(set_id, t, body) + behind) == Some(
            seq![Packet { set_id, t, body }] + read_packets(behind)->0,
        ),
{
    let packet = packet_bytes(set_id, t, body);
    law_packets_read_back(set_id, t, body, behind);
    assert((packet + behind).skip(packet.len() as int) =~= behind);
}

/// Bytes that are packets can be read one part after the other.
#[verifier::rlimit(40)]
pub proof fn lemma_read_parts(a: Seq<u8>, b: Seq<u8>)
    requires
        read_packets(a) is Some,
        read_packets(b) is Some,
    ensures
        read_packets(a + b) == Some(read_packets(a)->0 + read_packets(b)->0),
    decreases a.len(),
{
    reveal(read_packet);
    if a.len() == 0 {
        assert(a + b =~= b);
        assert(Seq::<Packet>::empty() + read_packets(b)->0 =~= read_packets(b)->0);
    } else {
        let end = read_length(a) as int;
        let whole = a + b;
        let packet = read_packet(a)->0;
        let rest = a.skip(end);
        assert(whole.take(8) =~= a.take(8));
        assert(whole.subrange(8, 16) =~= a.subrange(8, 16));
        assert(whole.subrange(16, 32) =~= a.subrange(16, 32));
        assert(whole.subrange(32, end) =~= a.subrange(32, end));
        assert(whole.subrange(32, 48) =~= a.subrange(32, 48));
        assert(whole.subrange(48, 64) =~= a.subrange(48, 64));
        assert(whole.subrange(64, end) =~= a.subrange(64, end));
        assert(read_packet(whole) == Some(packet));
        lemma_read_parts(rest, b);
        assert(whole.skip(end) =~= rest + b);
        assert(seq![packet] + (read_packets(rest)->0 + read_packets(b)->0) =~= (seq![packet]
            + read_packets(rest)->0) + read_packets(b)->0);
    }
}

/// The bytes that identify a file: its 16k hash, its length and its name.
pub open spec fn file_id_bytes(md5_16k: Seq<u8>, length: u64, name: Seq<u8>) -> Seq<u8> {
    md5_16k + spec_u64_to_le_bytes(length) + name
}

/// The identifier of a file in a recovery set.
pub fn compute_file_id(md5_16k: &[u8; 16], length: u64, name: &str) -> (id: [u8; 16])
    ensures
        id@ == digests::md5_digest(file_id_bytes(md5_16k@, length, name.spec_bytes())),
{
    let mut bytes: Vec<u8> = Vec::new();
    text::push_bytes(&mut bytes, vstd::array::array_as_slice(md5_16k));
    assert(bytes@ =~= md5_16k@);
    text::push_bytes(&mut bytes, u64_to_le_bytes(length).as_slice());
    text::push_bytes(&mut bytes, name.as_bytes());
    md5(bytes.as_slice())
}

/// Identifiers one after the other.
pub open spec fn joined_ids(ids: Seq<Seq<u8>>) -> Seq<u8>
    decreases ids.len(),
{
    if ids.len() == 0 {
        Seq::empty()
    } else {
        joined_ids(ids.drop_last()) + ids.last()
    }
}

/// The bytes of a list of identifiers.
pub open spec fn id_views(ids: Seq<[u8; 16]>) -> Seq<Seq<u8>> {
    Seq::new(ids.len(), |i: int| ids[i]@)
}

/// The body of the main packet: slice size, number of files, their identifiers.
pub open spec fn main_bytes(slice_size: u64, ids: Seq<Seq<u8>>) -> Seq<u8> {
    spec_u64_to_le_bytes(slice_size) + spec_u32_to_le_bytes(ids.len() as u32) + joined_ids(ids)
}

/// The body of the main packet: slice size, number of files, their identifiers.
pub fn main_body(slice_size: u64, file_ids: &[[u8; 16]]) -> (body: Vec<u8>)
    requires
        file_ids@.len() <= u32::MAX,
    ensures
        body@ == main_bytes(slice_size, id_views(file_ids@)),
        body@.len() == 12 + 16 * file_ids@.len(),
{
    let n: usize = file_ids.len();
    let ghost ids = id_views(file_ids@);
    let mut body: Vec<u8> = u64_to_le_bytes(slice_size);
    text::push_bytes(&mut body, u32_to_le_bytes(n as u32).as_slice());
    let ghost head = body@;
    proof {
        lemma_auto_spec_u64_to_from_le_bytes();
        lemma_auto_spec_u32_to_from_le_bytes();
        assert(head.len() == 12);
        assert(head + joined_ids(ids.take(0)) =~= head);
    }
    let mut i: usize = 0;
    while i < n
        invariant
            i <= n,
            n == file_ids@.len(),
            ids == id_views(file_ids@),
            body@ == head + joined_ids(ids.take(i as int)),
            body@.len() == 12 + 16 * i,
        decreases n - i,
    {
        assert(ids.take(i + 1).drop_last() =~= ids.take(i as int));
        text::push_bytes(&mut body, vstd::array::array_as_slice(&file_ids[i]));
        assert(body@ =~= head + joined_ids(ids.take(i + 1)));
        i = i + 1;
    }
    assert(ids.take(n as int) =~= ids);
    body
}

/// The identifier of a recovery set: the MD5 of its main body.
pub fn recovery_set_id(main_body: &[u8]) -> (id: [u8; 16])
    ensures
        id@ == digests::md5_digest(main_body@),
{
    md5(main_body)
}

/// The body of the creator packet: the name of the program.
pub fn creator_body(name: &str) -> (body: Vec<u8>)
    ensures
        body@ == padded(name.spec_bytes()),
        body@.len() % 4 == 0,
{
    let mut body: Vec<u8> = Vec::new();
    text::push_bytes(&mut body, name.as_bytes());
    assert(body@ =~= name.spec_bytes());
    push_padding(&mut body);
    body
}

/// The body of a file description: identifier, hashes, length and name.
pub open spec fn description_bytes(
    file_id: Seq<u8>,
    md5_full: Seq<u8>,
    md5_16k: Seq<u8>,
    length: u64,
    name: Seq<u8>,
) -> Seq<u8> {
    padded(file_id + md5_full + md5_16k + spec_u64_to_le_bytes(length) + name)
}

/// The body of a file description: identifier, hashes, length and name.
pub fn file_description_body(
    file_id: &[u8; 16],
    md5_full: &[u8; 16],
    md5_16k: &[u8; 16],
    length: u64,
    name: &str,
) -> (body: Vec<u8>)
    ensures
        body@ == description_bytes(file_id@, md5_full@, md5_16k@, length, name.spec_bytes()),
        body@.len() % 4 == 0,
{
    let mut body: Vec<u8> = Vec::new();
    text::push_bytes(&mut body, vstd::array::array_as_slice(file_id));
    assert(body@ =~= file_id@);
    text::push_bytes(&mut body, vstd::array::array_as_slice(md5_full));
    text::push_bytes(&mut body, vstd::array::array_as_slice(md5_16k));
    text::push_bytes(&mut body, u64_to_le_bytes(length).as_slice());
    text::push_bytes(&mut body, name.as_bytes());
    push_padding(&mut body);
    body
}

/// Checksums one after the other.
pub open spec fn joined_checksums(checksums: Seq<SliceChecksum>) -> Seq<u8>
    decreases checksums.len(),
{
    if checksums.len() == 0 {
        Seq::empty()
    } else {
        joined_checksums(checksums.drop_last()) + checksums.last().md5@ + spec_u32_to_le_bytes(
            checksums.last().crc32,
        )
    }
}

/// The body of a checksum packet: the file and the checksums of its slices.
pub fn ifsc_body(file_id: &[u8; 16], checksums: &[SliceChecksum]) -> (body: Vec<u8>)
    ensures
        body@ == file_id@ + joined_checksums(checksums@),
        body@.len() % 4 == 0,
{
    let n: usize = checksums.len();
    let mut body: Vec<u8> = Vec::new();
    text::push_bytes(&mut body, vstd::array::array_as_slice(file_id));
    assert(body@ =~= file_id@ + joined_checksums(checksums@.take(0)));
    let mut i: usize = 0;
    while i < n
        invariant
            i <= n,
            n == checksums@.len(),
            body@ == file_id@ + joined_checksums(checksums@.take(i as int)),
            body@.len() % 4 == 0,
        decreases n - i,
    {
        proof {
            assert(checksums@.take(i + 1).drop_last() =~= checksums@.take(i as int));
            lemma_auto_spec_u32_to_from_le_bytes();
        }
        text::push_bytes(&mut body, vstd::array::array_as_slice(&checksums[i].md5));
        text::push_bytes(&mut body, u32_to_le_bytes(checksums[i].crc32).as_slice());
        assert(body@ =~= file_id@ + joined_checksums(checksums@.take(i + 1)));
        i = i + 1;
    }
    assert(checksums@.take(n as int) =~= checksums@);
    body
}

/// The body of a recovery packet: exponent and data.
pub fn recovery_body(exponent: u32, data: &[u8]) -> (body: Vec<u8>)
    ensures
        body@ == spec_u32_to_le_bytes(exponent) + data@,
{
    let mut body: Vec<u8> = u32_to_le_bytes(exponent);
    text::push_bytes(&mut body, data);
    body
}

/// Text at the end of a body, which zeros fill up to a multiple of four bytes.
pub open spec fn holds_text(bytes: Seq<u8>, text: Seq<u8>) -> bool {
    &&& text.len() <= bytes.len() < text.len() + 4
    &&& bytes.take(text.len() as int) == text
    &&& forall|i: int| text.len() <= i < bytes.len() ==> #[trigger] bytes[i] == 0
}

/// Text that is filled up is held.
pub proof fn lemma_padded_holds(text: Seq<u8>)
    ensures
        holds_text(padded(text), text),
        padded(text).len() % 4 == 0,
{
    assert(padded(text).take(text.len() as int) =~= text);
}

/// A reader of a file description finds sixteen bytes of identifier, sixteen of the
/// hash of the file, sixteen of the hash of its head, eight of its length, and its
/// name.
pub proof fn law_descriptions_read_back(
    file_id: Seq<u8>,
    md5_full: Seq<u8>,
    md5_16k: Seq<u8>,
    length: u64,
    name: Seq<u8>,
)
    requires
        file_id.len() == 16,
        md5_full.len() == 16,
        md5_16k.len() == 16,
    ensures
        ({
            let body = description_bytes(file_id, md5_full, md5_16k, length, name);
            &&& body.len() % 4 == 0
            &&& body.len() >= 56
            &&& body.subrange(0, 16) == file_id
            &&& body.subrange(16, 32) == md5_full
            &&& body.subrange(32, 48) == md5_16k
            &&& spec_u64_from_le_bytes(body.subrange(48, 56)) == length
            &&& holds_text(body.skip(56), name)
        }),
{
    lemma_auto_spec_u64_to_from_le_bytes();
    let body = description_bytes(file_id, md5_full, md5_16k, length, name);
    assert(body.subrange(0, 16) =~= file_id);
    assert(body.subrange(16, 32) =~= md5_full);
    assert(body.subrange(32, 48) =~= md5_16k);
    assert(body.subrange(48, 56) =~= spec_u64_to_le_bytes(length));
    assert(body.skip(56).take(name.len() as int) =~= name);
}

/// The identifier that a list of them holds at place `i`.
pub open spec fn read_id(body: Seq<u8>, i: int) -> Seq<u8> {
    body.subrange(12 + 16 * i, 28 + 16 * i)
}

proof fn lemma_joined_ids(ids: Seq<Seq<u8>>, i: int)
    requires
        forall|k: int| 0 <= k < ids.len() ==> (#[trigger] ids[k]).len() == 16,
    ensures
        joined_ids(ids).len() == 16 * ids.len(),
        0 <= i < ids.len() ==> joined_ids(ids).subrange(16 * i, 16 * i + 16) == ids[i],
    decreases ids.len(),
{
    if ids.len() > 0 {
        let rest = ids.drop_last();
        assert forall|k: int| 0 <= k < rest.len() implies (#[trigger] rest[k]).len() == 16 by {
            assert(rest[k] == ids[k]);
        }
        lemma_joined_ids(rest, i);
        assert(ids[ids.len() - 1].len() == 16);
        if 0 <= i < ids.len() {
            let all = joined_ids(ids);
            if i < rest.len() {
                assert(all.subrange(16 * i, 16 * i + 16) =~= joined_ids(rest).subrange(
                    16 * i,
                    16 * i + 16,
                ));
            } else {
                assert(all.subrange(16 * i, 16 * i + 16) =~= ids[i]);
            }
        }
    }
}

/// A reader of a main body finds the slice size, the number of files, and their
/// identifiers in order.
pub proof fn law_main_bodies_read_back(slice_size: u64, ids: Seq<Seq<u8>>, i: int)
    requires
        ids.len() <= u32::MAX,
        forall|k: int| 0 <= k < ids.len() ==> (#[trigger] ids[k]).len() == 16,
    ensures
        ({
            let body = main_bytes(slice_size, ids);
            &&& body.len() == 12 + 16 * ids.len()
            &&& spec_u64_from_le_bytes(body.subrange(0, 8)) == slice_size
            &&& spec_u32_from_le_bytes(body.subrange(8, 12)) == ids.len()
            &&& 0 <= i < ids.len() ==> read_id(body, i) == ids[i]
        }),
{
    lemma_auto_spec_u64_to_from_le_bytes();
    lemma_auto_spec_u32_to_from_le_bytes();
    lemma_joined_ids(ids, i);
    let body = main_bytes(slice_size, ids);
    assert(body.subrange(0, 8) =~= spec_u64_to_le_bytes(slice_size));
    assert(body.subrange(8, 12) =~= spec_u32_to_le_bytes(ids.len() as u32));
    if 0 <= i < ids.len() {
        assert(read_id(body, i) =~= joined_ids(ids).subrange(16 * i, 16 * i + 16));
    }
}

/// The checksum of slice `j` in the body of a checksum packet: sixteen bytes of MD5
/// and a little-endian CRC-32.
pub open spec fn read_checksum(body: Seq<u8>, j: int) -> (Seq<u8>, u32) {
    (
        body.subrange(16 + 20 * j, 32 + 20 * j),
        spec_u32_from_le_bytes(body.subrange(32 + 20 * j, 36 + 20 * j)),
    )
}

proof fn lemma_joined_checksums(checksums: Seq<SliceChecksum>, j: int)
    ensures
        joined_checksums(checksums).len() == 20 * checksums.len(),
        0 <= j < checksums.len() ==> joined_checksums(checksums).subrange(20 * j, 20 * j + 20)
            == checksums[j].md5@ + spec_u32_to_le_bytes(checksums[j].crc32),
    decreases checksums.len(),
{
    if checksums.len() > 0 {
        lemma_auto_spec_u32_to_from_le_bytes();
        let rest = checksums.drop_last();
        lemma_joined_checksums(rest, j);
        let all = joined_checksums(checksums);
        if 0 <= j < rest.len() {
            assert(all.subrange(20 * j, 20 * j + 20) =~= joined_checksums(rest).subrange(
                20 * j,
                20 * j + 20,
            ));
        } else if j == rest.len() {
            assert(all.subrange(20 * j, 20 * j + 20) =~= checksums[j].md5@ + spec_u32_to_le_bytes(
                checksums[j].crc32,
            ));
        }
    }
}

/// A reader of a checksum body finds the identifier of the file, and the checksums
/// of its slices in order.
pub proof fn law_checksum_bodies_read_back(
    file_id: Seq<u8>,
    checksums: Seq<SliceChecksum>,
    j: int,
)
    requires
        file_id.len() == 16,
    ensures
        ({
            let body = file_id + joined_checksums(checksums);
            &&& body.len() == 16 + 20 * checksums.len()
            &&& body.subrange(0, 16) == file_id
            &&& 0 <= j < checksums.len() ==> read_checksum(body, j) == checksums[j]@
        }),
{
    lemma_auto_spec_u32_to_from_le_bytes();
    lemma_joined_checksums(checksums, j);
    let body = file_id + joined_checksums(checksums);
    assert(body.subrange(0, 16) =~= file_id);
    if 0 <= j < checksums.len() {
        let here = joined_checksums(checksums).subrange(20 * j, 20 * j + 20);
        assert(body.subrange(16 + 20 * j, 32 + 20 * j) =~= here.subrange(0, 16));
        assert(here.subrange(0, 16) =~= checksums[j].md5@);
        assert(body.subrange(32 + 20 * j, 36 + 20 * j) =~= here.subrange(16, 20));
        assert(here.subrange(16, 20) =~= spec_u32_to_le_bytes(checksums[j].crc32));
    }
}

} // verus!
