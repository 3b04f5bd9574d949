use cosmos_multisig::signature::{decode_multisig_signature, encode_multisig_signature};
use protobuf::{rt, CodedInputStream, RepeatedField, UnknownFields};

/// Parses a message with one repeated bytes field, number one, as the parser
/// that `protobuf` generates for such a message does.
fn parse_message(blob: &[u8]) -> Option<Vec<Vec<u8>>> {
    let mut stream = CodedInputStream::from_bytes(blob);
    let mut signatures: RepeatedField<Vec<u8>> = RepeatedField::new();
    let mut unknown = UnknownFields::new();
    while !stream.eof().ok()? {
        let (field_number, wire_type) = stream.read_tag_unpack().ok()?;
        if field_number == 1 {
            rt::read_repeated_bytes_into(wire_type, &mut stream, &mut signatures).ok()?;
        } else {
            rt::read_unknown_or_skip_group(field_number, wire_type, &mut stream, &mut unknown)
                .ok()?;
        }
    }
    Some(signatures.into_vec())
}

/// A sequence of numbers that looks random and is the same on every run.
struct Numbers(u64);

impl Numbers {
    fn next(&mut self) -> u64 {
        self.0 = self
            .0
            .wrapping_mul(6364136223846793005)
            .wrapping_add(1442695040888963407);
        self.0 >> 33
    }
}

#[test]
fn decoder_agrees_with_the_message_parser() {
    let mut long: Vec<u8> = vec![10, 200, 1];
    long.resize(203, 0);
    let blobs: Vec<Vec<u8>> = vec![
        vec![10, 10, 1, 2, 3, 4, 5, 6, 7, 8, 9, 10, 10, 4, 1, 2, 3, 4],
        long,
        vec![10, 0],
        vec![10, 0, 10, 0, 10, 1, 255],
        vec![10, 1, 2, 10, 3, 4, 5, 6],
    ];
    for blob in blobs {
        let theirs = parse_message(&blob);
        assert!(theirs.is_some());
        assert_eq!(decode_multisig_signature(&blob).ok(), theirs, "on {:?}", blob);
    }
}

#[test]
fn decoder_and_message_parser_refuse_the_same_blobs() {
    let blobs: Vec<Vec<u8>> = vec![
        vec![0, 0, 0, 0, 0, 0, 0, 0x12],
        vec![0, 0, 0, 0, 0, 0, 0, 0x12, 10, 0, 0],
        vec![0, 0, 0, 0, 0, 0, 0, 0x12, 205, 1, 1, 2, 3, 4, 5, 6, 7, 8, 9, 10, 11, 12, 13, 14, 15],
        vec![10],
        vec![10, 5, 1, 2, 3],
        vec![10, 205, 1, 1, 2, 3, 4, 5, 6, 7, 8, 9, 10, 11, 12, 13, 14, 15],
        vec![10, 0x80],
        vec![10, 1, 2, 10],
        vec![0],
        vec![9, 1, 2, 3, 4, 5, 6, 7, 8],
    ];
    for blob in blobs {
        assert_eq!(parse_message(&blob), None, "on {:?}", blob);
        assert!(decode_multisig_signature(&blob).is_err(), "on {:?}", blob);
    }
}

#[test]
fn message_parser_reads_what_the_encoder_writes() {
    let signatures: Vec<Vec<u8>> = vec![vec![1; 70], Vec::new(), vec![2; 300], vec![3]];
    let blob = encode_multisig_signature(&signatures).unwrap();
    assert_eq!(parse_message(&blob), Some(signatures));
}

#[test]
fn message_parser_reads_the_same_from_every_blob_that_decodes() {
    let letters: [u8; 12] = [10, 10, 10, 0, 1, 2, 3, 0x80, 0x81, 0x12, 0xff, 0x7f];
    let mut numbers = Numbers(2024);
    let mut decoded = 0;
    for _ in 0..20000 {
        let len = (numbers.next() % 9) as usize;
        let blob: Vec<u8> = (0..len)
            .map(|_| letters[(numbers.next() % 12) as usize])
            .collect();
        if let Ok(signatures) = decode_multisig_signature(&blob) {
            decoded += 1;
            assert_eq!(parse_message(&blob), Some(signatures), "on {:?}", blob);
        }
    }
    assert!(decoded > 100);
}

#[test]
fn decoder_is_stricter_than_the_message_parser() {
    // a field of another number, which the parser passes over
    let with_other_field: Vec<u8> = vec![10, 1, 7, 0x10, 5];
    assert_eq!(parse_message(&with_other_field), Some(vec![vec![7]]));
    assert!(decode_multisig_signature(&with_other_field).is_err());
    // no field at all
    assert_eq!(parse_message(&[]), Some(Vec::new()));
    assert!(decode_multisig_signature(&[]).is_err());
}
