use uf2boot::flash::{FlashWriter, SequenceError, FLASH_BASE, WINDOW_SIZE};
use uf2boot::uf2::Block;

fn block(target: u32, payload: &[u8]) -> Block {
    Block { block_number: 0, block_count: 0, target_address: target, payload: payload.to_vec() }
}

#[test]
fn first_block_opens_window_at_its_address() {
    let mut writer = FlashWriter::new(vec![0x5Au8; 256]);
    let r = writer.next_block(&block(0x1000_9000, &[7u8; 64])).expect("accepted");
    assert!(r.is_none());
    let commit = writer.finish().expect("one window open");
    assert_eq!(commit.addr, 0x1000_9000);
    assert_eq!(commit.bytes.len(), WINDOW_SIZE);
    assert_eq!(&commit.bytes[..64], &[7u8; 64][..]);
    assert!(commit.bytes[64..].iter().all(|&b| b == 0));
}

#[test]
fn regressing_address_fails_and_commits_nothing() {
    let mut writer = FlashWriter::new(vec![0x5Au8; 256]);
    writer.next_block(&block(0x1000_9000, &[1u8; 16])).expect("accepted");
    let r = writer.next_block(&block(0x1000_8000, &[2u8; 16]));
    assert_eq!(r, Err(SequenceError::AddressRegression));
    // the writer is untouched: the open window still holds only the first
    // block's bytes
    let commit = writer.finish().expect("window still open");
    assert_eq!(commit.addr, 0x1000_9000);
    assert_eq!(&commit.bytes[..16], &[1u8; 16][..]);
    assert!(commit.bytes[16..].iter().all(|&b| b == 0));
}

#[test]
fn straddling_block_fails_with_window_overrun() {
    let mut writer = FlashWriter::new(vec![0x5Au8; 256]);
    writer.next_block(&block(0x1000_9000, &[1u8; 16])).expect("accepted");
    let r = writer.next_block(&block(0x1000_9000 + 4000, &[2u8; 200]));
    assert_eq!(r, Err(SequenceError::WindowOverrun));
    let commit = writer.finish().expect("window still open");
    assert_eq!(&commit.bytes[..16], &[1u8; 16][..]);
    assert!(commit.bytes[16..].iter().all(|&b| b == 0));
}

#[test]
fn same_window_blocks_one_commit_later_payload_wins() {
    // several blocks land in one open window; one finish() commits it once,
    // each payload at its offset, the later overlapping payload on top
    let mut writer = FlashWriter::new(vec![0x5Au8; 256]);
    let base = 0x1000_9000u32;
    assert!(writer.next_block(&block(base, &[0x11u8; 200])).expect("accepted").is_none());
    assert!(writer.next_block(&block(base + 100, &[0x22u8; 50])).expect("accepted").is_none());
    assert!(writer.next_block(&block(base + 400, &[0x33u8; 8])).expect("accepted").is_none());
    let commit = writer.finish().expect("window open");
    assert_eq!(commit.addr, base);
    assert_eq!(commit.bytes.len(), WINDOW_SIZE);
    assert!(commit.bytes[..100].iter().all(|&b| b == 0x11));
    assert!(commit.bytes[100..150].iter().all(|&b| b == 0x22));
    assert!(commit.bytes[150..200].iter().all(|&b| b == 0x11));
    assert!(commit.bytes[200..400].iter().all(|&b| b == 0));
    assert!(commit.bytes[400..408].iter().all(|&b| b == 0x33));
    assert!(commit.bytes[408..].iter().all(|&b| b == 0));
    // the stream is over: nothing further to commit
    assert!(writer.finish().is_none());
}

#[test]
fn outside_block_commits_window_and_opens_next() {
    let mut writer = FlashWriter::new(vec![0x5Au8; 256]);
    let base = 0x1000_9000u32;
    writer.next_block(&block(base, &[0xAAu8; 32])).expect("accepted");
    let commit = writer
        .next_block(&block(base + WINDOW_SIZE as u32, &[0xBBu8; 32]))
        .expect("accepted")
        .expect("previous window committed");
    assert_eq!(commit.addr, base);
    assert_eq!(&commit.bytes[..32], &[0xAAu8; 32][..]);
    let last = writer.finish().expect("new window open");
    assert_eq!(last.addr, base + WINDOW_SIZE as u32);
    assert_eq!(&last.bytes[..32], &[0xBBu8; 32][..]);
    assert!(last.bytes[32..].iter().all(|&b| b == 0));
}

#[test]
fn reserved_region_payload_is_replaced_by_loader() {
    // a block aimed at the flash base address never programs its own
    // payload: the authoritative loader image goes in instead
    let loader: Vec<u8> = (0..256u32).map(|i| (i % 256) as u8).collect();
    let mut writer = FlashWriter::new(loader.clone());
    writer.next_block(&block(FLASH_BASE, &[0xEEu8; 256])).expect("accepted");
    let commit = writer.finish().expect("window open");
    assert_eq!(commit.addr, FLASH_BASE);
    assert_eq!(&commit.bytes[..256], &loader[..]);
    assert!(commit.bytes[256..].iter().all(|&b| b == 0));
}

#[test]
fn finish_without_blocks_commits_nothing() {
    let mut writer = FlashWriter::new(vec![0x5Au8; 256]);
    assert!(writer.finish().is_none());
}

#[test]
fn three_block_update_reserved_then_two_windows() {
    // block0 hits the flash base with arbitrary payload: the loader image is
    // substituted. block1 opens the second window, committing the first.
    // block2 overlays the second window at offset 100 with no commit yet.
    // finish() then shows window one as the loader image and window two as
    // the first payload with the second laid over it.
    let loader = vec![0x5Au8; 256];
    let mut writer = FlashWriter::new(loader.clone());

    let r0 = writer.next_block(&block(FLASH_BASE, &[0xEEu8; 256])).expect("accepted");
    assert!(r0.is_none());

    let fill_payload = vec![0x11u8; 200];
    let commit1 = writer
        .next_block(&block(FLASH_BASE + 4096, &fill_payload))
        .expect("accepted")
        .expect("first window committed");
    assert_eq!(commit1.addr, FLASH_BASE);
    assert_eq!(&commit1.bytes[..256], &loader[..]);
    assert!(commit1.bytes[256..].iter().all(|&b| b == 0));

    let overlay_payload = vec![0x22u8; 50];
    let r2 = writer
        .next_block(&block(FLASH_BASE + 4096 + 100, &overlay_payload))
        .expect("accepted");
    assert!(r2.is_none());

    let commit2 = writer.finish().expect("second window open");
    assert_eq!(commit2.addr, FLASH_BASE + 4096);
    assert!(commit2.bytes[..100].iter().all(|&b| b == 0x11));
    assert!(commit2.bytes[100..150].iter().all(|&b| b == 0x22));
    assert!(commit2.bytes[150..200].iter().all(|&b| b == 0x11));
    assert!(commit2.bytes[200..].iter().all(|&b| b == 0));
}
