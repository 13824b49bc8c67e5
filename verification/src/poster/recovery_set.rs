//! What the files of a recovery set hold: the packets that describe the set,
//! and the recovery slices.

use vstd::prelude::*;
use vstd::string::*;

use crate::digests;
use crate::par2::encoder;
use crate::par2::encoder::{FileHashes, RecoverySlice};
use crate::par2::packet;
use crate::par2::packet::{PacketType, SliceChecksum};
use crate::text;

use super::order;

verus! {

/// A file of a recovery set.
pub struct SetFile {
    pub name: String,
    pub hashes: FileHashes,
    /// Checksums of its slices.
    pub checksums: Vec<SliceChecksum>,
}

/// The identifier of a file.
pub open spec fn id_of(file: SetFile) -> Seq<u8> {
    digests::md5_digest(
        packet::file_id_bytes(
            file.hashes.md5_16k@,
            file.hashes.length,
            vstd::utf8::encode_utf8(file.name@),
        ),
    )
}

/// The identifiers of all files.
pub open spec fn ids_of(files: Seq<SetFile>) -> Seq<Seq<u8>> {
    Seq::new(files.len(), |i: int| id_of(files[i]))
}

/// The identifier of a set.
pub open spec fn set_id_of(slice_size: u64, files: Seq<SetFile>) -> Seq<u8> {
    digests::md5_digest(packet::main_bytes(slice_size, ids_of(files)))
}

/// The packets that describe one file.
pub open spec fn file_packets(set_id: Seq<u8>, file: SetFile) -> Seq<u8> {
    packet::packet_bytes(
        set_id,
        PacketType::FileDesc,
        packet::description_bytes(
            id_of(file),
            file.hashes.md5_full@,
            file.hashes.md5_16k@,
            file.hashes.length,
            vstd::utf8::encode_utf8(file.name@),
        ),
    ) + packet::packet_bytes(
        set_id,
        PacketType::Ifsc,
        id_of(file) + packet::joined_checksums(file.checksums@),
    )
}

/// The packets that describe all files.
pub open spec fn all_file_packets(set_id: Seq<u8>, files: Seq<SetFile>) -> Seq<u8>
    decreases files.len(),
{
    if files.len() == 0 {
        Seq::empty()
    } else {
        all_file_packets(set_id, files.drop_last()) + file_packets(set_id, files.last())
    }
}

/// The packets that describe a set: main, creator and those of its files.
pub open spec fn base_bytes(slice_size: u64, files: Seq<SetFile>) -> Seq<u8> {
    let set_id = set_id_of(slice_size, files);
    packet::packet_bytes(
        set_id,
        PacketType::Main,
        packet::main_bytes(slice_size, ids_of(files)),
    ) + packet::packet_bytes(
        set_id,
        PacketType::Creator,
        packet::padded(vstd::utf8::encode_utf8("pesto"@)),
    ) + all_file_packets(set_id, files)
}

/// The identifier of a set and the packets that describe it.
pub fn base_packets(slice_size: u64, files: &[SetFile]) -> (base: ([u8; 16], Vec<u8>))
    requires
        files@.len() <= u32::MAX,
    ensures
        base.0@ == set_id_of(slice_size, files@),
        base.1@ == base_bytes(slice_size, files@),
        describes_set(base.1@, base.0@, slice_size, files@),
{
    let n: usize = files.len();
    let mut ids: Vec<[u8; 16]> = Vec::new();
    let mut i: usize = 0;
    while i < n
        invariant
            i <= n,
            n == files@.len(),
            ids@.len() == i,
            forall|k: int| 0 <= k < i ==> (#[trigger] ids@[k])@ == id_of(files@[k]),
            forall|k: int| 0 <= k < i ==> id_of(#[trigger] files@[k]).len() == 16,
        decreases n - i,
    {
        let file: &SetFile = &files[i];
        ids.push(
            packet::compute_file_id(&file.hashes.md5_16k, file.hashes.length, file.name.as_str()),
        );
        i = i + 1;
    }
    assert(packet::id_views(ids@) =~= ids_of(files@));
    let main: Vec<u8> = packet::main_body(slice_size, ids.as_slice());
    let set_id: [u8; 16] = packet::recovery_set_id(main.as_slice());
    let mut bytes: Vec<u8> = packet::serialize_packet(&set_id, PacketType::Main, main.as_slice());
    let creator: Vec<u8> = packet::creator_body("pesto");
    text::push_bytes(
        &mut bytes,
        packet::serialize_packet(&set_id, PacketType::Creator, creator.as_slice()).as_slice(),
    );
    let ghost head = bytes@;
    assert(head + all_file_packets(set_id@, files@.take(0)) =~= head);
    let mut j: usize = 0;
    while j < n
        invariant
            j <= n,
            n == files@.len(),
            ids@.len() == n,
            forall|k: int| 0 <= k < n ==> (#[trigger] ids@[k])@ == id_of(files@[k]),
            bytes@ == head + all_file_packets(set_id@, files@.take(j as int)),
            forall|k: int| 0 <= k < j ==> file_is_sized(set_id@, #[trigger] files@[k]),
        decreases n - j,
    {
        let file: &SetFile = &files[j];
        let description: Vec<u8> = packet::file_description_body(
            &ids[j],
            &file.hashes.md5_full,
            &file.hashes.md5_16k,
            file.hashes.length,
            file.name.as_str(),
        );
        let sums: Vec<u8> = packet::ifsc_body(&ids[j], file.checksums.as_slice());
        let mut own: Vec<u8> = packet::serialize_packet(
            &set_id,
            PacketType::FileDesc,
            description.as_slice(),
        );
        text::push_bytes(
            &mut own,
            packet::serialize_packet(&set_id, PacketType::Ifsc, sums.as_slice()).as_slice(),
        );
        assert(own@ == file_packets(set_id@, files@[j as int]));
        assert(file_is_sized(set_id@, files@[j as int]));
        text::push_bytes(&mut bytes, own.as_slice());
        proof {
            assert(files@.take(j + 1).drop_last() =~= files@.take(j as int));
            assert(bytes@ =~= head + all_file_packets(set_id@, files@.take(j + 1)));
        }
        j = j + 1;
    }
    assert(files@.take(n as int) =~= files@);
    proof {
        law_sets_read_back(slice_size, files@);
    }
    (set_id, bytes)
}

/// The digests in the packets of a file have their sixteen bytes.
pub open spec fn file_is_sized(set_id: Seq<u8>, file: SetFile) -> bool {
    &&& id_of(file).len() == 16
    &&& packet::is_sized(
        set_id,
        PacketType::FileDesc,
        packet::description_bytes(
            id_of(file),
            file.hashes.md5_full@,
            file.hashes.md5_16k@,
            file.hashes.length,
            vstd::utf8::encode_utf8(file.name@),
        ),
    )
    &&& packet::is_sized(
        set_id,
        PacketType::Ifsc,
        id_of(file) + packet::joined_checksums(file.checksums@),
    )
}

/// The digests in the packets of a set have their sixteen bytes.
pub open spec fn set_is_sized(slice_size: u64, files: Seq<SetFile>) -> bool {
    let set_id = set_id_of(slice_size, files);
    &&& packet::is_sized(
        set_id,
        PacketType::Main,
        packet::main_bytes(slice_size, ids_of(files)),
    )
    &&& packet::is_sized(
        set_id,
        PacketType::Creator,
        packet::padded(vstd::utf8::encode_utf8("pesto"@)),
    )
    &&& forall|i: int| 0 <= i < files.len() ==> file_is_sized(set_id, #[trigger] files[i])
}

/// A reader of a description finds a file: the hash of the file, the hash of its
/// head, its length and its name; and the identifier is the MD5 of the last three.
pub open spec fn describes_file(body: Seq<u8>, file: SetFile) -> bool {
    let name = vstd::utf8::encode_utf8(file.name@);
    &&& body.len() >= 56
    &&& body.subrange(16, 32) == file.hashes.md5_full@
    &&& body.subrange(32, 48) == file.hashes.md5_16k@
    &&& vstd::bytes::spec_u64_from_le_bytes(body.subrange(48, 56)) == file.hashes.length
    &&& packet::holds_text(body.skip(56), name)
    &&& body.subrange(0, 16) == digests::md5_digest(body.subrange(32, 56) + name)
}

/// A reader of a checksum body finds an identifier and some checksums.
pub open spec fn lists_checksums(
    body: Seq<u8>,
    id: Seq<u8>,
    checksums: Seq<SliceChecksum>,
) -> bool {
    &&& body.len() == 16 + 20 * checksums.len()
    &&& body.subrange(0, 16) == id
    &&& forall|j: int|
        0 <= j < checksums.len() ==> packet::read_checksum(body, j) == (#[trigger] checksums[j])@
}

/// Of the packets of a set, the two of file `i` describe it, and the main packet
/// lists it.
pub open spec fn describes_at(packets: Seq<packet::Packet>, i: int, file: SetFile) -> bool {
    let description = packets[2 + 2 * i];
    let sums = packets[3 + 2 * i];
    &&& description.t == PacketType::FileDesc
    &&& describes_file(description.body, file)
    &&& sums.t == PacketType::Ifsc
    &&& lists_checksums(sums.body, description.body.subrange(0, 16), file.checksums@)
    &&& packet::read_id(packets[0].body, i) == description.body.subrange(0, 16)
}

/// Of the packets of a set, the first is the main packet, whose MD5 names the set
/// in all of them, the second names the creator, and two describe each file, in
/// order.
pub open spec fn packets_describe(
    packets: Seq<packet::Packet>,
    set_id: Seq<u8>,
    slice_size: u64,
    files: Seq<SetFile>,
) -> bool {
    &&& packets.len() == 2 + 2 * files.len()
    &&& forall|k: int| 0 <= k < packets.len() ==> (#[trigger] packets[k]).set_id == set_id
    &&& set_id == digests::md5_digest(packets[0].body)
    &&& packets[0].t == PacketType::Main
    &&& packets[0].body.len() == 12 + 16 * files.len()
    &&& vstd::bytes::spec_u64_from_le_bytes(packets[0].body.subrange(0, 8)) == slice_size
    &&& vstd::bytes::spec_u32_from_le_bytes(packets[0].body.subrange(8, 12)) == files.len()
    &&& packets[1].t == PacketType::Creator
    &&& packet::holds_text(packets[1].body, vstd::utf8::encode_utf8("pesto"@))
    &&& forall|i: int| 0 <= i < files.len() ==> #[trigger] describes_at(packets, i, files[i])
}

/// A reader finds packets that describe a set and its files.
pub open spec fn describes_set(
    bytes: Seq<u8>,
    set_id: Seq<u8>,
    slice_size: u64,
    files: Seq<SetFile>,
) -> bool {
    match packet::read_packets(bytes) {
        Some(packets) => packets_describe(packets, set_id, slice_size, files),
        None => false,
    }
}

/// The packet that describes a file.
spec fn description_of(set_id: Seq<u8>, file: SetFile) -> packet::Packet {
    packet::Packet {
        set_id,
        t: PacketType::FileDesc,
        body: packet::description_bytes(
            id_of(file),
            file.hashes.md5_full@,
            file.hashes.md5_16k@,
            file.hashes.length,
            vstd::utf8::encode_utf8(file.name@),
        ),
    }
}

/// The packet with the checksums of a file.
spec fn sums_of(set_id: Seq<u8>, file: SetFile) -> packet::Packet {
    packet::Packet {
        set_id,
        t: PacketType::Ifsc,
        body: id_of(file) + packet::joined_checksums(file.checksums@),
    }
}

#[verifier::rlimit(40)]
proof fn lemma_file_is_described(set_id: Seq<u8>, file: SetFile)
    requires
        id_of(file).len() == 16,
    ensures
        describes_file(description_of(set_id, file).body, file),
        lists_checksums(
            sums_of(set_id, file).body,
            description_of(set_id, file).body.subrange(0, 16),
            file.checksums@,
        ),
        description_of(set_id, file).body.subrange(0, 16) == id_of(file),
        description_of(set_id, file).body.len() % 4 == 0,
        sums_of(set_id, file).body.len() % 4 == 0,
{
    let d = description_of(set_id, file).body;
    let s = sums_of(set_id, file).body;
    let name = vstd::utf8::encode_utf8(file.name@);
    packet::law_descriptions_read_back(
        id_of(file),
        file.hashes.md5_full@,
        file.hashes.md5_16k@,
        file.hashes.length,
        name,
    );
    packet::law_checksum_bodies_read_back(id_of(file), file.checksums@, 0);
    assert forall|j: int| 0 <= j < file.checksums@.len() implies packet::read_checksum(s, j) == (
    #[trigger] file.checksums@[j])@ by {
        packet::law_checksum_bodies_read_back(id_of(file), file.checksums@, j);
    }
    vstd::bytes::lemma_auto_spec_u64_to_from_le_bytes();
    assert(d.subrange(32, 56) =~= d.subrange(32, 48) + d.subrange(48, 56));
    assert(vstd::bytes::spec_u64_to_le_bytes(
        vstd::bytes::spec_u64_from_le_bytes(d.subrange(48, 56)),
    ) == d.subrange(48, 56));
    assert(d.subrange(32, 56) + name == packet::file_id_bytes(
        file.hashes.md5_16k@,
        file.hashes.length,
        name,
    ));
}

#[verifier::rlimit(40)]
proof fn lemma_file_reads(set_id: Seq<u8>, file: SetFile)
    requires
        file_is_sized(set_id, file),
    ensures
        packet::read_packets(file_packets(set_id, file)) == Some(
            seq![description_of(set_id, file), sums_of(set_id, file)],
        ),
{
    let d = description_of(set_id, file).body;
    let s = sums_of(set_id, file).body;
    let none = Seq::<u8>::empty();
    lemma_file_is_described(set_id, file);
    assert(packet::read_packets(none) == Some(Seq::<packet::Packet>::empty()));
    packet::lemma_read_first(set_id, PacketType::Ifsc, s, none);
    let second = packet::packet_bytes(set_id, PacketType::Ifsc, s);
    assert(second + none =~= second);
    assert(seq![sums_of(set_id, file)] + Seq::<packet::Packet>::empty() =~= seq![
        sums_of(set_id, file),
    ]);
    packet::lemma_read_first(set_id, PacketType::FileDesc, d, second);
    assert(seq![description_of(set_id, file)] + seq![sums_of(set_id, file)] =~= seq![
        description_of(set_id, file),
        sums_of(set_id, file),
    ]);
}

#[verifier::rlimit(40)]
proof fn lemma_files_read(set_id: Seq<u8>, files: Seq<SetFile>)
    requires
        forall|i: int| 0 <= i < files.len() ==> file_is_sized(set_id, #[trigger] files[i]),
    ensures
        packet::read_packets(all_file_packets(set_id, files)) == Some(
            Seq::new(
                2 * files.len(),
                |k: int|
                    if k % 2 == 0 {
                        description_of(set_id, files[k / 2])
                    } else {
                        sums_of(set_id, files[k / 2])
                    },
            ),
        ),
    decreases files.len(),
{
    let expected = Seq::new(
        2 * files.len(),
        |k: int|
            if k % 2 == 0 {
                description_of(set_id, files[k / 2])
            } else {
                sums_of(set_id, files[k / 2])
            },
    );
    if files.len() > 0 {
        let rest = files.drop_last();
        let last = files[files.len() - 1];
        assert forall|i: int| 0 <= i < rest.len() implies file_is_sized(
            set_id,
            #[trigger] rest[i],
        ) by {
            assert(rest[i] == files[i]);
        }
        lemma_files_read(set_id, rest);
        assert(file_is_sized(set_id, last));
        lemma_file_reads(set_id, last);
        packet::lemma_read_parts(all_file_packets(set_id, rest), file_packets(set_id, last));
        let read = packet::read_packets(all_file_packets(set_id, rest))->0 + seq![
            description_of(set_id, last),
            sums_of(set_id, last),
        ];
        assert(read =~= expected);
    } else {
        assert(expected =~= Seq::empty());
    }
}

/// The packets of a set.
spec fn packets_of(slice_size: u64, files: Seq<SetFile>) -> Seq<packet::Packet> {
    let set_id = set_id_of(slice_size, files);
    Seq::new(
        2 + 2 * files.len(),
        |k: int|
            if k == 0 {
                packet::Packet {
                    set_id,
                    t: PacketType::Main,
                    body: packet::main_bytes(slice_size, ids_of(files)),
                }
            } else if k == 1 {
                packet::Packet {
                    set_id,
                    t: PacketType::Creator,
                    body: packet::padded(vstd::utf8::encode_utf8("pesto"@)),
                }
            } else if k % 2 == 0 {
                description_of(set_id, files[k / 2 - 1])
            } else {
                sums_of(set_id, files[k / 2 - 1])
            },
    )
}

#[verifier::rlimit(40)]
proof fn lemma_set_reads(slice_size: u64, files: Seq<SetFile>)
    requires
        set_is_sized(slice_size, files),
        packet::main_bytes(slice_size, ids_of(files)).len() % 4 == 0,
    ensures
        packet::read_packets(base_bytes(slice_size, files)) == Some(packets_of(slice_size, files)),
{
    let set_id = set_id_of(slice_size, files);
    let main = packet::main_bytes(slice_size, ids_of(files));
    let creator = packet::padded(vstd::utf8::encode_utf8("pesto"@));
    let rest = all_file_packets(set_id, files);
    lemma_files_read(set_id, files);
    let first = packet::packet_bytes(set_id, PacketType::Main, main);
    let second = packet::packet_bytes(set_id, PacketType::Creator, creator);
    packet::lemma_read_first(set_id, PacketType::Creator, creator, rest);
    packet::lemma_read_first(set_id, PacketType::Main, main, second + rest);
    assert(first + (second + rest) =~= base_bytes(slice_size, files));
    let listed = packet::read_packets(rest)->0;
    let m = packet::Packet { set_id, t: PacketType::Main, body: main };
    let c = packet::Packet { set_id, t: PacketType::Creator, body: creator };
    assert(seq![m] + (seq![c] + listed) =~= packets_of(slice_size, files));
}

#[verifier::rlimit(40)]
proof fn lemma_described_at(slice_size: u64, files: Seq<SetFile>, i: int)
    requires
        files.len() <= u32::MAX,
        set_is_sized(slice_size, files),
        0 <= i < files.len(),
    ensures
        describes_at(packets_of(slice_size, files), i, files[i]),
{
    let set_id = set_id_of(slice_size, files);
    let ids = ids_of(files);
    let packets = packets_of(slice_size, files);
    assert forall|k: int| 0 <= k < ids.len() implies (#[trigger] ids[k]).len() == 16 by {
        assert(file_is_sized(set_id, files[k]));
    }
    assert(file_is_sized(set_id, files[i]));
    lemma_file_is_described(set_id, files[i]);
    packet::law_main_bodies_read_back(slice_size, ids, i);
    assert((2 + 2 * i) % 2 == 0 && (2 + 2 * i) / 2 - 1 == i);
    assert((3 + 2 * i) % 2 == 1 && (3 + 2 * i) / 2 - 1 == i);
    assert(packets[2 + 2 * i] == description_of(set_id, files[i]));
    assert(packets[3 + 2 * i] == sums_of(set_id, files[i]));
    assert(packets[0].body == packet::main_bytes(slice_size, ids));
}

#[verifier::rlimit(40)]
proof fn lemma_set_described(slice_size: u64, files: Seq<SetFile>)
    requires
        files.len() <= u32::MAX,
        set_is_sized(slice_size, files),
    ensures
        packets_describe(
            packets_of(slice_size, files),
            set_id_of(slice_size, files),
            slice_size,
            files,
        ),
        packet::main_bytes(slice_size, ids_of(files)).len() % 4 == 0,
{
    let set_id = set_id_of(slice_size, files);
    let ids = ids_of(files);
    let packets = packets_of(slice_size, files);
    assert forall|k: int| 0 <= k < ids.len() implies (#[trigger] ids[k]).len() == 16 by {
        assert(file_is_sized(set_id, files[k]));
    }
    packet::law_main_bodies_read_back(slice_size, ids, 0);
    packet::lemma_padded_holds(vstd::utf8::encode_utf8("pesto"@));
    assert(packets[0].body == packet::main_bytes(slice_size, ids));
    assert forall|i: int| 0 <= i < files.len() implies #[trigger] describes_at(
        packets,
        i,
        files[i],
    ) by {
        lemma_described_at(slice_size, files, i);
    }
}

/// A reader of the packets that describe a set finds the set and its files.
pub proof fn law_sets_read_back(slice_size: u64, files: Seq<SetFile>)
    requires
        files.len() <= u32::MAX,
        set_is_sized(slice_size, files),
    ensures
        describes_set(
            base_bytes(slice_size, files),
            set_id_of(slice_size, files),
            slice_size,
            files,
        ),
{
    lemma_set_described(slice_size, files);
    lemma_set_reads(slice_size, files);
}

/// Where a file was hashed as it is, its description holds, in this order, the
/// identifier, the MD5 of the whole file, the MD5 of its first 16 KiB and its
/// length, and the identifier is the MD5 of the latter two and the name.
pub proof fn law_descriptions_fit_the_content(
    bytes: Seq<u8>,
    set_id: Seq<u8>,
    slice_size: u64,
    files: Seq<SetFile>,
    i: int,
    content: Seq<u8>,
)
    requires
        describes_set(bytes, set_id, slice_size, files),
        0 <= i < files.len(),
        encoder::are_hashes_of(files[i].hashes, content),
    ensures
        ({
            let head = if content.len() <= 16384 {
                content
            } else {
                content.take(16384)
            };
            let name = vstd::utf8::encode_utf8(files[i].name@);
            let length = vstd::bytes::spec_u64_to_le_bytes(content.len() as u64);
            let id = digests::md5_digest(digests::md5_digest(head) + length + name);
            let packets = packet::read_packets(bytes)->0;
            let body = packets[2 + 2 * i].body;
            &&& packets[2 + 2 * i].t == PacketType::FileDesc
            &&& body.subrange(0, 16) == id
            &&& body.subrange(16, 32) == digests::md5_digest(content)
            &&& body.subrange(32, 48) == digests::md5_digest(head)
            &&& body.subrange(48, 56) == length
            &&& body.skip(56).take(name.len() as int) == name
            &&& packets[3 + 2 * i].t == PacketType::Ifsc
            &&& packets[3 + 2 * i].body.subrange(0, 16) == id
            &&& packet::read_id(packets[0].body, i) == id
        }),
{
    let packets = packet::read_packets(bytes)->0;
    let body = packets[2 + 2 * i].body;
    assert(describes_at(packets, i, files[i]));
    assert(describes_file(body, files[i]));
    vstd::bytes::lemma_auto_spec_u64_to_from_le_bytes();
    assert(body.subrange(32, 56) =~= body.subrange(32, 48) + body.subrange(48, 56));
    assert(vstd::bytes::spec_u64_to_le_bytes(
        vstd::bytes::spec_u64_from_le_bytes(body.subrange(48, 56)),
    ) == body.subrange(48, 56));
}

/// The packet of a recovery slice.
pub fn recovery_packet(set_id: &[u8; 16], slice: &RecoverySlice) -> (bytes: Vec<u8>)
    requires
        slice.data@.len() % 4 == 0,
    ensures
        bytes@ == packet::packet_bytes(
            set_id@,
            PacketType::Recovery,
            vstd::bytes::spec_u32_to_le_bytes(slice.exponent) + slice.data@,
        ),
        holds_recovery(bytes@, set_id@, *slice),
{
    let body: Vec<u8> = packet::recovery_body(slice.exponent, slice.data.as_slice());
    proof {
        vstd::bytes::lemma_auto_spec_u32_to_from_le_bytes();
    }
    let bytes: Vec<u8> = packet::serialize_packet(set_id, PacketType::Recovery, body.as_slice());
    proof {
        let none = Seq::<u8>::empty();
        packet::lemma_read_first(set_id@, PacketType::Recovery, body@, none);
        assert(bytes@ + none =~= bytes@);
        assert(packet::read_packets(none) == Some(Seq::<packet::Packet>::empty()));
        assert(body@.subrange(0, 4) =~= vstd::bytes::spec_u32_to_le_bytes(slice.exponent));
        assert(body@.skip(4) =~= slice.data@);
    }
    bytes
}

/// A reader of a recovery packet finds one packet of the set, with the exponent of
/// the slice and its data.
pub open spec fn holds_recovery(bytes: Seq<u8>, set_id: Seq<u8>, slice: RecoverySlice) -> bool {
    match packet::read_packets(bytes) {
        Some(packets) => {
            &&& packets.len() == 1
            &&& packets[0].set_id == set_id
            &&& packets[0].t == PacketType::Recovery
            &&& vstd::bytes::spec_u32_from_le_bytes(packets[0].body.subrange(0, 4))
                == slice.exponent
            &&& packets[0].body.skip(4) == slice.data@
        },
        None => false,
    }
}

/// The order in which the files of a set are read: by identifier. Slices are
/// numbered along it.
pub fn reading_order(ids: &[[u8; 16]]) -> (order: Vec<usize>)
    ensures
        order::is_order(
            Seq::new(ids@.len(), |i: int| (ids@[i]@, 0u32)),
            0,
            ids@.len() as int,
            order@,
        ),
{
    let n: usize = ids.len();
    let mut keys: Vec<order::SortKey> = Vec::new();
    let mut i: usize = 0;
    while i < n
        invariant
            i <= n,
            n == ids@.len(),
            keys@.len() == i,
            forall|k: int| 0 <= k < i ==> (#[trigger] keys@[k])@ == (ids@[k]@, 0u32),
        decreases n - i,
    {
        let mut bytes: Vec<u8> = Vec::new();
        text::push_bytes(&mut bytes, vstd::array::array_as_slice(&ids[i]));
        assert(bytes@ =~= ids@[i as int]@);
        keys.push(order::SortKey { bytes, number: 0 });
        i = i + 1;
    }
    assert(order::key_views(keys@) =~= Seq::new(ids@.len(), |i: int| (ids@[i]@, 0u32)));
    order::sort_order(keys.as_slice())
}

} // verus!
