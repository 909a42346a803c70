use uf2boot::uf2::{read_blocks, Block, FormatError, BLOCK_LEN, PAYLOAD_CAPACITY};

fn record(target: u32, payload: &[u8], number: u32, count: u32) -> Vec<u8> {
    let block = Block {
        block_number: number,
        block_count: count,
        target_address: target,
        payload: payload.to_vec(),
    };
    block.encode()
}

#[test]
fn parse_decodes_exact_fields() {
    let payload: Vec<u8> = (0..200u32).map(|i| (i % 256) as u8).collect();
    let buf = record(0x1000_4000, &payload, 7, 32);
    assert_eq!(buf.len(), BLOCK_LEN);
    let block = Block::parse(&buf).expect("valid record");
    assert_eq!(block.target_address, 0x1000_4000);
    assert_eq!(block.block_number, 7);
    assert_eq!(block.block_count, 32);
    assert_eq!(block.payload, payload);
}

#[test]
fn parse_rejects_wrong_length() {
    let buf = vec![0u8; BLOCK_LEN - 1];
    assert_eq!(Block::parse(&buf), Err(FormatError::WrongLength));
    let buf = vec![0u8; BLOCK_LEN + 1];
    assert_eq!(Block::parse(&buf), Err(FormatError::WrongLength));
}

#[test]
fn parse_rejects_bad_magic() {
    let good = record(0x1000_0000, &[1, 2, 3], 0, 1);

    let mut bad_start0 = good.clone();
    bad_start0[0] ^= 0xFF;
    assert_eq!(Block::parse(&bad_start0), Err(FormatError::BadMagic));

    let mut bad_start1 = good.clone();
    bad_start1[4] ^= 0xFF;
    assert_eq!(Block::parse(&bad_start1), Err(FormatError::BadMagic));

    let mut bad_end = good.clone();
    bad_end[508] ^= 0xFF;
    assert_eq!(Block::parse(&bad_end), Err(FormatError::BadMagic));
}

#[test]
fn parse_rejects_oversized_payload() {
    let mut buf = record(0x1000_0000, &[0u8; 16], 0, 1);
    // declare one byte more than the payload capacity
    let oversize = (PAYLOAD_CAPACITY as u32) + 1;
    buf[16..20].copy_from_slice(&oversize.to_le_bytes());
    assert_eq!(Block::parse(&buf), Err(FormatError::PayloadTooLarge));
}

#[test]
fn parse_accepts_full_capacity() {
    let payload = vec![0xC3u8; PAYLOAD_CAPACITY];
    let buf = record(0x1000_0100, &payload, 1, 2);
    let block = Block::parse(&buf).expect("full payload fits");
    assert_eq!(block.payload.len(), PAYLOAD_CAPACITY);
    assert_eq!(block.payload, payload);
}

#[test]
fn encode_parse_round_trip() {
    let payload: Vec<u8> = (0..256u32).map(|i| (255 - i % 256) as u8).collect();
    let original = Block {
        block_number: 3,
        block_count: 9,
        target_address: 0x1004_2100,
        payload: payload.clone(),
    };
    let buf = original.encode();
    let decoded = Block::parse(&buf).expect("own encoding parses");
    assert_eq!(decoded.block_number, original.block_number);
    assert_eq!(decoded.block_count, original.block_count);
    assert_eq!(decoded.target_address, original.target_address);
    assert_eq!(decoded.payload, original.payload);
}

#[test]
fn encode_matches_reference_packer() {
    let payload: Vec<u8> = (0..256u32).map(|i| (i * 7 % 256) as u8).collect();
    let mine = record(0x1000_0800, &payload, 0, 0);
    let theirs = uf2_block::Block::new(0x1000_0800, &payload)
        .expect("payload fits")
        .pack()
        .expect("packs");
    assert_eq!(&mine[..], &theirs[..]);
}

#[test]
fn reference_packer_output_parses_here() {
    let payload = vec![0x42u8; 128];
    let packed = uf2_block::Block::new(0x1000_1000, &payload)
        .expect("payload fits")
        .pack()
        .expect("packs");
    let block = Block::parse(&packed.to_vec()).expect("reference record parses");
    assert_eq!(block.target_address, 0x1000_1000);
    assert_eq!(block.payload, payload);
    assert_eq!(block.block_number, 0);
}

#[test]
fn corrupted_record_rejected_by_both_parsers() {
    let mut buf = record(0x1000_2000, &[9, 9, 9], 0, 1);
    buf[1] ^= 0x10;
    assert_eq!(Block::parse(&buf), Err(FormatError::BadMagic));
    assert!(uf2_block::Block::parse(&buf).is_err());
}

#[test]
fn read_blocks_decodes_stream_in_order() {
    let chunks = vec![
        record(0x1000_0000, &[1u8; 64], 0, 3),
        record(0x1000_0040, &[2u8; 64], 1, 3),
        record(0x1000_0080, &[3u8; 64], 2, 3),
    ];
    let blocks = read_blocks(&chunks).expect("all records valid");
    assert_eq!(blocks.len(), 3);
    assert_eq!(blocks[0].target_address, 0x1000_0000);
    assert_eq!(blocks[1].target_address, 0x1000_0040);
    assert_eq!(blocks[2].target_address, 0x1000_0080);
    assert_eq!(blocks[1].payload, vec![2u8; 64]);
}

#[test]
fn read_blocks_stops_at_first_bad_record() {
    let mut second = record(0x1000_0040, &[2u8; 64], 1, 3);
    second[508] ^= 0xFF;
    let chunks = vec![record(0x1000_0000, &[1u8; 64], 0, 3), second];
    assert_eq!(read_blocks(&chunks), Err(FormatError::BadMagic));
}
