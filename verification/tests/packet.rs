//! PAR2 packets.

use pesto::par2::encoder::{slice_checksum, FileHasher, RecoverySlice};
use pesto::par2::packet::{
    compute_file_id, creator_body, file_description_body, ifsc_body, main_body, md5, recovery_body,
    recovery_set_id, serialize_packet, PacketType,
};
use pesto::poster::recovery_set::{base_packets, reading_order, recovery_packet, SetFile};

#[test]
fn packets_have_a_common_header() {
    let set = [7u8; 16];
    let packet = serialize_packet(&set, PacketType::Creator, &creator_body("pesto"));
    assert_eq!(packet.len(), 72);
    assert_eq!(&packet[..8], b"PAR2\0PKT");
    assert_eq!(packet[8..16], 72u64.to_le_bytes());
    assert_eq!(packet[16..32], md5(&packet[32..]));
    assert_eq!(packet[32..48], set);
    assert_eq!(&packet[48..64], b"PAR 2.0\0Creator\0");
    assert_eq!(&packet[64..], b"pesto\0\0\0");
}

#[test]
fn types_are_told_apart() {
    let names = [
        (PacketType::Main, b"Main\0\0\0\0"),
        (PacketType::FileDesc, b"FileDesc"),
        (PacketType::Ifsc, b"IFSC\0\0\0\0"),
        (PacketType::Recovery, b"RecvSlic"),
    ];
    for (t, name) in names {
        let packet = serialize_packet(&[0; 16], t, &[]);
        assert_eq!(&packet[48..56], b"PAR 2.0\0");
        assert_eq!(&packet[56..64], name);
    }
}

#[test]
fn bodies_are_exact() {
    let ids = [[1u8; 16], [2u8; 16]];
    let body = main_body(768_000, &ids);
    assert_eq!(body[..8], 768_000u64.to_le_bytes());
    assert_eq!(body[8..12], 2u32.to_le_bytes());
    assert_eq!(body[12..28], ids[0]);
    assert_eq!(body[28..], ids[1]);
    assert_eq!(recovery_set_id(&body), md5(&body));

    let id = compute_file_id(&ids[0], 9, "n");
    let mut bytes = ids[0].to_vec();
    bytes.extend_from_slice(&9u64.to_le_bytes());
    bytes.push(b'n');
    assert_eq!(id, md5(&bytes));

    let body = file_description_body(&ids[0], &ids[1], &ids[0], 9, "n");
    assert_eq!(body.len(), 60);
    assert_eq!(body[16..32], ids[1]);
    assert_eq!(body[48..56], 9u64.to_le_bytes());
    assert_eq!(&body[56..], b"n\0\0\0");

    let sum = slice_checksum(&[1, 2, 3, 4]);
    let body = ifsc_body(&ids[1], &[sum]);
    assert_eq!(body[..16], ids[1]);
    assert_eq!(body[16..32], sum.md5);
    assert_eq!(body[32..], sum.crc32.to_le_bytes());

    assert_eq!(recovery_body(3, &[9, 9, 9, 9]), [3, 0, 0, 0, 9, 9, 9, 9]);
}

#[test]
fn a_set_is_described_by_its_packets() {
    let mut hasher = FileHasher::new();
    hasher.update(b"data");
    let files = [SetFile {
        name: "a.bin".into(),
        hashes: hasher.finish(),
        checksums: vec![slice_checksum(b"data")],
    }];
    let (set, packets) = base_packets(4, &files);
    let id = compute_file_id(&files[0].hashes.md5_16k, 4, "a.bin");
    let main = main_body(4, &[id]);
    assert_eq!(set, recovery_set_id(&main));
    let mut expected = serialize_packet(&set, PacketType::Main, &main);
    expected.extend(serialize_packet(&set, PacketType::Creator, &creator_body("pesto")));
    let h = &files[0].hashes;
    let body = file_description_body(&id, &h.md5_full, &h.md5_16k, 4, "a.bin");
    expected.extend(serialize_packet(&set, PacketType::FileDesc, &body));
    let body = ifsc_body(&id, &files[0].checksums);
    expected.extend(serialize_packet(&set, PacketType::Ifsc, &body));
    assert_eq!(packets, expected);

    let slice = RecoverySlice {
        exponent: 1,
        data: vec![1, 2, 3, 4],
    };
    assert_eq!(
        recovery_packet(&set, &slice),
        serialize_packet(&set, PacketType::Recovery, &[1, 0, 0, 0, 1, 2, 3, 4])
    );
}

#[test]
fn files_are_read_in_the_order_of_their_identifiers() {
    assert_eq!(reading_order(&[[9; 16], [1; 16], [5; 16]]), [1, 2, 0]);
}
