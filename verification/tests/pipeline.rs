use uf2boot::boot::{boot, BOOT_TARGET, BOOT_VECTOR_OFFSET};
use uf2boot::device::{DeviceError, SimFlash};
use uf2boot::flash::{Commit, SequenceError, FLASH_BASE, WINDOW_SIZE};
use uf2boot::uf2::{Block, FormatError};
use uf2boot::update::{run_update, UpdateError, UpdateOrchestrator, UpdateState};

fn record(target: u32, payload: &[u8], number: u32, count: u32) -> Vec<u8> {
    let block = Block {
        block_number: number,
        block_count: count,
        target_address: target,
        payload: payload.to_vec(),
    };
    block.encode()
}

/// Chops a binary into 256-byte records addressed consecutively from the
/// flash base, the way image files for this board are laid out.
fn stream_for(binary: &[u8]) -> Vec<Vec<u8>> {
    assert!(binary.len() % 256 == 0);
    let count = (binary.len() / 256) as u32;
    (0..binary.len() / 256)
        .map(|k| {
            record(
                FLASH_BASE + (k as u32) * 256,
                &binary[k * 256..(k + 1) * 256],
                k as u32,
                count,
            )
        })
        .collect()
}

#[test]
fn round_trip_known_binary() {
    // a synthetic stream built from a known binary, replayed through the
    // parser and the writer against the simulated flash, reproduces the
    // binary outside the reserved prefix and the loader image inside it
    let loader: Vec<u8> = (0..256u32).map(|i| (i.wrapping_mul(37) % 256) as u8).collect();
    let mut binary: Vec<u8> = Vec::new();
    for i in 0..(2 * WINDOW_SIZE + 512) {
        binary.push((i % 251) as u8);
    }
    let chunks = stream_for(&binary);
    let commits = run_update(loader.clone(), &chunks).expect("whole stream accepted");

    // exactly the touched windows, in order, none twice
    assert_eq!(commits.len(), 3);
    for (j, c) in commits.iter().enumerate() {
        assert_eq!(c.addr, FLASH_BASE + (j as u32) * (WINDOW_SIZE as u32));
        assert_eq!(c.bytes.len(), WINDOW_SIZE);
    }

    let mut flash = SimFlash::new(FLASH_BASE, 4 * WINDOW_SIZE);
    flash.apply_all(&commits).expect("programs");

    // the reserved prefix carries the authoritative loader image
    assert_eq!(flash.read(FLASH_BASE, 256).expect("read"), loader);
    // everything else of the binary is reproduced
    let readback = flash.read(FLASH_BASE + 256, binary.len() - 256).expect("read");
    assert_eq!(&readback[..], &binary[256..]);
    // the trailing window is zero-padded past the binary
    let pad = flash
        .read(FLASH_BASE + binary.len() as u32, WINDOW_SIZE - 512)
        .expect("read");
    assert!(pad.iter().all(|&b| b == 0));
    // untouched flash stays erased
    let untouched = flash
        .read(FLASH_BASE + 3 * WINDOW_SIZE as u32, WINDOW_SIZE)
        .expect("read");
    assert!(untouched.iter().all(|&b| b == 0xFF));
}

#[test]
fn update_aborts_on_malformed_record() {
    let loader = vec![0x5Au8; 256];
    let mut second = record(FLASH_BASE + 256, &[2u8; 256], 1, 2);
    second[0] ^= 0xFF;
    let chunks = vec![record(FLASH_BASE, &[1u8; 256], 0, 2), second];
    assert_eq!(
        run_update(loader, &chunks),
        Err(UpdateError::Format(FormatError::BadMagic))
    );
}

#[test]
fn update_aborts_on_regressing_address() {
    let loader = vec![0x5Au8; 256];
    let chunks = vec![
        record(FLASH_BASE + 4096, &[1u8; 256], 0, 2),
        record(FLASH_BASE, &[2u8; 256], 1, 2),
    ];
    assert_eq!(
        run_update(loader, &chunks),
        Err(UpdateError::Sequence(SequenceError::AddressRegression))
    );
}

#[test]
fn update_of_empty_stream_commits_nothing() {
    let loader = vec![0x5Au8; 256];
    let commits = run_update(loader, &Vec::new()).expect("empty stream is fine");
    assert!(commits.is_empty());
}

#[test]
fn device_rejects_operations_outside_its_range() {
    let mut flash = SimFlash::new(FLASH_BASE, 2 * WINDOW_SIZE);
    assert_eq!(flash.base_address(), FLASH_BASE);
    assert_eq!(flash.size(), 2 * WINDOW_SIZE);
    let below = Commit { addr: FLASH_BASE - (WINDOW_SIZE as u32), bytes: vec![0u8; WINDOW_SIZE] };
    assert_eq!(flash.erase_and_program(&below), Err(DeviceError::OutOfRange));
    let beyond = Commit { addr: FLASH_BASE + 2 * WINDOW_SIZE as u32, bytes: vec![0u8; WINDOW_SIZE] };
    assert_eq!(flash.erase_and_program(&beyond), Err(DeviceError::OutOfRange));
    assert!(flash.read(FLASH_BASE, 2 * WINDOW_SIZE + 1).is_err());
}

#[test]
fn device_rejects_misaligned_erase() {
    let mut flash = SimFlash::new(FLASH_BASE, 2 * WINDOW_SIZE);
    let misaligned = Commit { addr: FLASH_BASE + 100, bytes: vec![0u8; WINDOW_SIZE] };
    assert_eq!(flash.erase_and_program(&misaligned), Err(DeviceError::Misaligned));
    // a failed operation changes nothing
    let untouched = flash.read(FLASH_BASE, 2 * WINDOW_SIZE).expect("read");
    assert!(untouched.iter().all(|&b| b == 0xFF));
}

#[test]
fn boot_trampoline_reports_loaded_stack_and_entry() {
    // given a vector table whose first two words are a stack-pointer value
    // and an entry address, the hand-off reports exactly those, with the
    // vector-table base relocated to the table itself
    let stack_pointer = 0x2004_0000u32;
    let entry = 0x1000_0201u32;
    let mut window = vec![0u8; WINDOW_SIZE];
    let off = BOOT_VECTOR_OFFSET as usize;
    window[off..off + 4].copy_from_slice(&stack_pointer.to_le_bytes());
    window[off + 4..off + 8].copy_from_slice(&entry.to_le_bytes());

    let mut flash = SimFlash::new(FLASH_BASE, 2 * WINDOW_SIZE);
    flash
        .erase_and_program(&Commit { addr: FLASH_BASE, bytes: window })
        .expect("programs");

    let handoff = boot(&flash, BOOT_TARGET).expect("table readable");
    assert_eq!(handoff.vector_table, BOOT_TARGET);
    assert_eq!(handoff.stack_pointer, stack_pointer);
    assert_eq!(handoff.entry, entry);
}

#[test]
fn boot_fails_outside_the_device() {
    let flash = SimFlash::new(FLASH_BASE, WINDOW_SIZE);
    assert_eq!(boot(&flash, FLASH_BASE - 8), Err(DeviceError::OutOfRange));
    assert_eq!(
        boot(&flash, FLASH_BASE + WINDOW_SIZE as u32 - 4),
        Err(DeviceError::OutOfRange)
    );
}

#[test]
fn orchestrator_walks_the_whole_update() {
    let loader = vec![0x5Au8; 256];
    let mut orch = UpdateOrchestrator::new(loader.clone());
    assert_eq!(orch.state(), UpdateState::Idle);

    orch.file_opened();
    assert_eq!(orch.state(), UpdateState::Reading);

    let mut flash = SimFlash::new(FLASH_BASE, 2 * WINDOW_SIZE);

    let c0 = orch
        .chunk_read(&record(FLASH_BASE, &[0xEEu8; 256], 0, 2))
        .expect("accepted");
    assert!(c0.is_none());
    assert_eq!(orch.state(), UpdateState::Reading);

    let c1 = orch
        .chunk_read(&record(FLASH_BASE + WINDOW_SIZE as u32, &[0x77u8; 256], 1, 2))
        .expect("accepted")
        .expect("first window committed");
    flash.erase_and_program(&c1).expect("programs");
    assert_eq!(orch.state(), UpdateState::Reading);

    let last = orch.end_of_file().expect("trailing window");
    flash.erase_and_program(&last).expect("programs");
    assert_eq!(orch.state(), UpdateState::Flushing);

    let target = orch.launch();
    assert_eq!(target, BOOT_TARGET);
    assert_eq!(orch.state(), UpdateState::Booting);

    // the flashed image: loader in the reserved prefix, payload in window two
    assert_eq!(flash.read(FLASH_BASE, 256).expect("read"), loader);
    let w2 = flash
        .read(FLASH_BASE + WINDOW_SIZE as u32, 256)
        .expect("read");
    assert!(w2.iter().all(|&b| b == 0x77));
}

#[test]
fn orchestrator_faults_on_missing_file() {
    let mut orch = UpdateOrchestrator::new(vec![0x5Au8; 256]);
    orch.file_missing();
    assert_eq!(orch.state(), UpdateState::Fault);
}

#[test]
fn orchestrator_faults_on_bad_record() {
    let mut orch = UpdateOrchestrator::new(vec![0x5Au8; 256]);
    orch.file_opened();
    let mut bad = record(FLASH_BASE, &[1u8; 16], 0, 1);
    bad[4] ^= 0x01;
    assert_eq!(
        orch.chunk_read(&bad),
        Err(UpdateError::Format(FormatError::BadMagic))
    );
    assert_eq!(orch.state(), UpdateState::Fault);
}

#[test]
fn orchestrator_faults_on_sequence_error() {
    let mut orch = UpdateOrchestrator::new(vec![0x5Au8; 256]);
    orch.file_opened();
    orch.chunk_read(&record(FLASH_BASE + WINDOW_SIZE as u32, &[1u8; 16], 0, 2))
        .expect("accepted");
    assert_eq!(
        orch.chunk_read(&record(FLASH_BASE, &[2u8; 16], 1, 2)),
        Err(UpdateError::Sequence(SequenceError::AddressRegression))
    );
    assert_eq!(orch.state(), UpdateState::Fault);
}

#[test]
fn orchestrator_faults_on_device_failure() {
    let mut orch = UpdateOrchestrator::new(vec![0x5Au8; 256]);
    orch.file_opened();
    orch.chunk_read(&record(FLASH_BASE, &[1u8; 16], 0, 1)).expect("accepted");
    // the caller's erase failed on the hardware
    let fault = orch.device_failed(DeviceError::OutOfRange);
    assert_eq!(fault, UpdateError::Device(DeviceError::OutOfRange));
    assert_eq!(orch.state(), UpdateState::Fault);
}
