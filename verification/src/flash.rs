//! Accumulation of decoded blocks into erase-granularity windows.
//!
//! The writer buffers one window at a time. Every erase-and-program
//! operation is handed back to the caller as a [`Commit`] value, so the
//! decision logic here is pure and fully verified; the surrounding firmware
//! (or a simulated device) carries the commits out. The single erase-aligned
//! region at the flash base address permanently carries the authoritative
//! second-stage loader image: whatever an update file supplies for that
//! address is discarded and replaced by that image.

use crate::uf2::{Block, BlockModel};
use vstd::prelude::*;

verus! {

/// Base address of the execute-in-place flash mapping.
pub const FLASH_BASE: u32 = 0x1000_0000;

/// Erase granularity: the smallest region that must be erased as a unit.
pub const WINDOW_SIZE: usize = 4096;

/// One erase-and-program operation: erase the window starting at the
/// absolute address `addr` and program it with `bytes`, atomically.
#[derive(Clone, Debug, PartialEq, Eq)]
pub struct Commit {
    pub addr: u32,
    pub bytes: Vec<u8>,
}

/// The mathematical image of one commit.
#[verifier::ext_equal]
pub struct CommitModel {
    pub addr: u32,
    pub bytes: Seq<u8>,
}

impl Commit {
    /// The mathematical image of this commit.
    pub open spec fn model(&self) -> CommitModel {
        CommitModel { addr: self.addr, bytes: self.bytes@ }
    }

    /// A commit always programs one whole window.
    pub open spec fn wf(&self) -> bool {
        self.bytes@.len() == WINDOW_SIZE
    }
}

/// Why a block was rejected. Both causes are fatal: flash may already be
/// partially rewritten, so the update aborts with no retry.
#[derive(Clone, Copy, Debug, PartialEq, Eq, Structural)]
pub enum SequenceError {
    /// The block's target address lies below the current window's start:
    /// target addresses must never regress.
    AddressRegression,
    /// The block's bytes would run past the end of the window they start in.
    WindowOverrun,
}

/// The mathematical state of the writer: the current window's start address
/// (`0` while no block has arrived), the window buffer, and the authoritative
/// loader image.
#[verifier::ext_equal]
pub struct WriterModel {
    pub base: u32,
    pub buf: Seq<u8>,
    pub loader: Seq<u8>,
}

impl WriterModel {
    /// Buffer and loader image fit the window.
    pub open spec fn wf(&self) -> bool {
        self.buf.len() == WINDOW_SIZE && self.loader.len() <= WINDOW_SIZE
    }
}

/// An all-zero window buffer.
pub open spec fn window_zeros() -> Seq<u8> {
    Seq::new(WINDOW_SIZE as nat, |i: int| 0u8)
}

/// `buf` with `data` laid over it starting at offset `off`.
pub open spec fn write_at(buf: Seq<u8>, off: int, data: Seq<u8>) -> Seq<u8> {
    Seq::new(buf.len(), |i: int| if off <= i < off + data.len() { data[i - off] } else { buf[i] })
}

/// The writer's start state.
pub open spec fn fresh_model(loader: Seq<u8>) -> WriterModel {
    WriterModel { base: 0, buf: window_zeros(), loader }
}

/// The bytes a block actually contributes: for the flash base address the
/// authoritative loader image, unconditionally; otherwise its own payload.
pub open spec fn block_data(b: BlockModel, loader: Seq<u8>) -> Seq<u8> {
    if b.target_address == FLASH_BASE {
        loader
    } else {
        b.payload
    }
}

/// The window start in effect once `b` arrives: the first block's address
/// initializes an unset writer.
pub open spec fn effective_base(m: WriterModel, b: BlockModel) -> u32 {
    if m.base == 0 {
        b.target_address
    } else {
        m.base
    }
}

/// One step of the writer: the next state and the commit it emits, or the
/// error that aborts the update.
pub open spec fn step(m: WriterModel, b: BlockModel) -> Result<
    (WriterModel, Option<CommitModel>),
    SequenceError,
> {
    let base = effective_base(m, b);
    let data = block_data(b, m.loader);
    if b.target_address < base {
        Err(SequenceError::AddressRegression)
    } else {
        let off = b.target_address - base;
        if off < WINDOW_SIZE {
            if off + data.len() <= WINDOW_SIZE {
                Ok(
                    (
                        WriterModel { base, buf: write_at(m.buf, off, data), loader: m.loader },
                        None,
                    ),
                )
            } else {
                Err(SequenceError::WindowOverrun)
            }
        } else {
            Ok(
                (
                    WriterModel {
                        base: b.target_address,
                        buf: write_at(window_zeros(), 0, data),
                        loader: m.loader,
                    },
                    Some(CommitModel { addr: base, bytes: m.buf }),
                ),
            )
        }
    }
}

/// The models of a sequence of commits.
pub open spec fn commit_models(cs: Seq<Commit>) -> Seq<CommitModel> {
    cs.map_values(|c: Commit| c.model())
}

/// The commits an optional commit contributes to a stream's history.
pub open spec fn opt_commits(o: Option<CommitModel>) -> Seq<CommitModel> {
    match o {
        Some(c) => seq![c],
        None => Seq::empty(),
    }
}

/// The commit that ending the stream emits: the current window, unless no
/// block ever arrived.
pub open spec fn finish_commit(m: WriterModel) -> Option<CommitModel> {
    if m.base == 0 {
        None
    } else {
        Some(CommitModel { addr: m.base, bytes: m.buf })
    }
}

/// Accumulates blocks into one buffered window and emits a [`Commit`]
/// whenever an incoming block falls outside it. `base_addr == 0` means no
/// window is open yet.
pub struct FlashWriter {
    base_addr: u32,
    flash_data: Vec<u8>,
    loader: Vec<u8>,
}

impl FlashWriter {
    /// The mathematical state of this writer.
    pub closed spec fn model(&self) -> WriterModel {
        WriterModel { base: self.base_addr, buf: self.flash_data@, loader: self.loader@ }
    }

    /// The writer's invariant.
    pub open spec fn wf(&self) -> bool {
        self.model().wf()
    }

    /// A writer with no window open, carrying the authoritative loader image
    /// that will shield the reserved region.
    pub fn new(loader: Vec<u8>) -> (w: FlashWriter)
        requires
            loader.len() <= WINDOW_SIZE,
        ensures
            w.wf(),
            w.model() == fresh_model(loader@),
    {
        let w = FlashWriter { base_addr: 0, flash_data: zeroed_window(), loader };
        proof {
            assert(w.model() =~= fresh_model(w.loader@));
        }
        w
    }

    /// Feeds one block to the writer. Returns the commit for the previous
    /// window when the block opens a new one, `None` when the block lands in
    /// the current window, and the fatal error otherwise, leaving the writer
    /// untouched. Behaves exactly as [`step`] describes.
    pub fn next_block(&mut self, block: &Block) -> (r: Result<Option<Commit>, SequenceError>)
        requires
            old(self).wf(),
            block.wf(),
        ensures
            final(self).wf(),
            ({
                let out = step(old(self).model(), block.model());
                match r {
                    Ok(Some(c)) => {
                        &&& out matches Ok(p) && p.0 == final(self).model() && p.1 == Some(
                            c.model(),
                        )
                        &&& c.wf()
                    },
                    Ok(None) => out matches Ok(p) && p.0 == final(self).model() && p.1 is None,
                    Err(e) => {
                        &&& out == Err::<(WriterModel, Option<CommitModel>), SequenceError>(e)
                        &&& final(self).model() == old(self).model()
                    },
                }
            }),
    {
        if self.base_addr == 0 {
            self.base_addr = block.target_address;
        }
        if block.target_address < self.base_addr {
            return Err(SequenceError::AddressRegression);
        }
        let offset32 = block.target_address - self.base_addr;
        if offset32 < WINDOW_SIZE as u32 {
            let off: usize = offset32 as usize;
            if block.target_address == FLASH_BASE {
                if off + self.loader.len() > WINDOW_SIZE {
                    return Err(SequenceError::WindowOverrun);
                }
                copy_into(&mut self.flash_data, off, &self.loader);
            } else {
                if off + block.payload.len() > WINDOW_SIZE {
                    return Err(SequenceError::WindowOverrun);
                }
                copy_into(&mut self.flash_data, off, &block.payload);
            }
            Ok(None)
        } else {
            let mut fresh = zeroed_window();
            core::mem::swap(&mut self.flash_data, &mut fresh);
            let commit = Commit { addr: self.base_addr, bytes: fresh };
            self.base_addr = block.target_address;
            if block.target_address == FLASH_BASE {
                copy_into(&mut self.flash_data, 0, &self.loader);
            } else {
                copy_into(&mut self.flash_data, 0, &block.payload);
            }
            Ok(Some(commit))
        }
    }

    /// Commits the current, possibly partially filled, window. The caller
    /// owns the end of the stream and must call this exactly once after the
    /// last block; the writer is reset to its start state.
    pub fn finish(&mut self) -> (r: Option<Commit>)
        requires
            old(self).wf(),
        ensures
            final(self).wf(),
            final(self).model() == fresh_model(old(self).model().loader),
            match r {
                Some(c) => c.wf() && finish_commit(old(self).model()) == Some(c.model()),
                None => finish_commit(old(self).model()) is None,
            },
    {
        let mut fresh = zeroed_window();
        core::mem::swap(&mut self.flash_data, &mut fresh);
        let r = if self.base_addr == 0 {
            None
        } else {
            let commit = Commit { addr: self.base_addr, bytes: fresh };
            self.base_addr = 0;
            Some(commit)
        };
        proof {
            assert(self.model() =~= fresh_model(old(self).model().loader));
        }
        r
    }
}

/// A freshly erased window buffer, all zero.
fn zeroed_window() -> (v: Vec<u8>)
    ensures
        v@ == window_zeros(),
{
    let mut v: Vec<u8> = Vec::new();
    let mut i: usize = 0;
    while i < WINDOW_SIZE
        invariant
            i <= WINDOW_SIZE,
            v@.len() == i,
            forall|j: int| 0 <= j < i ==> v@[j] == 0u8,
        decreases WINDOW_SIZE - i,
    {
        v.push(0u8);
        i = i + 1;
    }
    proof {
        assert(v@ =~= window_zeros());
    }
    v
}

/// Copies `src` into `dst` starting at offset `off`.
pub(crate) fn copy_into(dst: &mut Vec<u8>, off: usize, src: &Vec<u8>)
    requires
        off + src.len() <= old(dst).len(),
    ensures
        final(dst)@ == write_at(old(dst)@, off as int, src@),
{
    let mut i: usize = 0;
    while i < src.len()
        invariant
            i <= src@.len(),
            off + src.len() <= dst.len(),
            off + src@.len() <= dst@.len(),
            dst@.len() == old(dst)@.len(),
            forall|j: int| 0 <= j < i ==> dst@[off + j] == src@[j],
            forall|j: int| 0 <= j < dst@.len() && !(off <= j < off + i) ==> dst@[j] == old(
                dst,
            )@[j],
        decreases src@.len() - i,
    {
        let b = src[i];
        dst[off + i] = b;
        i = i + 1;
    }
    proof {
        assert(dst@ =~= write_at(old(dst)@, off as int, src@));
    }
}


/// Runs the writer over a whole sequence of decoded blocks: the state it
/// reaches and the commits it emits in order, or the first error.
pub open spec fn run_blocks(m: WriterModel, blocks: Seq<BlockModel>) -> Result<
    (WriterModel, Seq<CommitModel>),
    SequenceError,
>
    decreases blocks.len(),
{
    if blocks.len() == 0 {
        Ok((m, Seq::empty()))
    } else {
        match run_blocks(m, blocks.drop_last()) {
            Err(e) => Err(e),
            Ok(p) => match step(p.0, blocks.last()) {
                Err(e) => Err(e),
                Ok(q) => Ok((q.0, p.1 + opt_commits(q.1))),
            },
        }
    }
}

/// Every commit a whole stream performs, in order, the trailing window
/// included, or the first error.
pub open spec fn run_stream(loader: Seq<u8>, blocks: Seq<BlockModel>) -> Result<
    Seq<CommitModel>,
    SequenceError,
> {
    match run_blocks(fresh_model(loader), blocks) {
        Err(e) => Err(e),
        Ok(p) => Ok(p.1 + opt_commits(finish_commit(p.0))),
    }
}

/// The absolute address `addr` lies in the window starting at `base`.
pub open spec fn in_window(base: u32, addr: u32) -> bool {
    base <= addr < base + WINDOW_SIZE
}

/// No window is erased twice: commit addresses are strictly increasing, a
/// whole window apart.
pub open spec fn windows_disjoint(commits: Seq<CommitModel>) -> bool {
    forall|i: int, j: int|
        0 <= i < j < commits.len() ==> (#[trigger] commits[i]).addr + WINDOW_SIZE <= (
        #[trigger] commits[j]).addr
}

/// Only touched windows are erased: every commit starts at some block's
/// target address.
pub open spec fn commits_touched(blocks: Seq<BlockModel>, commits: Seq<CommitModel>) -> bool {
    forall|i: int|
        0 <= i < commits.len() ==> exists|k: int|
            0 <= k < blocks.len() && blocks[k].target_address == (#[trigger] commits[i]).addr
}

/// No block is dropped: every block's target address lies inside a committed
/// window (inside exactly one, once the windows are disjoint).
pub open spec fn blocks_covered(blocks: Seq<BlockModel>, commits: Seq<CommitModel>) -> bool {
    forall|k: int|
        0 <= k < blocks.len() ==> exists|i: int|
            0 <= i < commits.len() && in_window(
                (#[trigger] commits[i]).addr,
                (#[trigger] blocks[k]).target_address,
            )
}

/// A block whose target address lies below the established window start is
/// rejected with the sequence error, and the step yields no state change and
/// no flash operation ([`FlashWriter::next_block`] then leaves the writer
/// untouched and returns the error).
pub proof fn lemma_regressing_block_rejected(m: WriterModel, b: BlockModel)
    requires
        m.base != 0,
        b.target_address < m.base,
    ensures
        step(m, b) == Err::<(WriterModel, Option<CommitModel>), SequenceError>(
            SequenceError::AddressRegression,
        ),
{
}


/// Inductive anatomy of a successful run: the commits emitted so far are
/// disjoint and touched, every processed block lies in one of them or in the
/// still-open window, the open window starts at a block's address, and every
/// commit lies wholly below the open window.
proof fn lemma_run_blocks_coverage(loader: Seq<u8>, blocks: Seq<BlockModel>)
    requires
        blocks.len() > 0 ==> blocks[0].target_address > 0,
        run_blocks(fresh_model(loader), blocks) is Ok,
    ensures
        ({
            let p = run_blocks(fresh_model(loader), blocks)->Ok_0;
            &&& windows_disjoint(p.1)
            &&& commits_touched(blocks, p.1)
            &&& blocks.len() == 0 ==> p.0 == fresh_model(loader) && p.1 == Seq::<
                CommitModel,
            >::empty()
            &&& blocks.len() > 0 ==> {
                &&& p.0.base > 0
                &&& (exists|k: int|
                    0 <= k < blocks.len() && (#[trigger] blocks[k]).target_address == p.0.base)
                &&& (forall|i: int|
                    0 <= i < p.1.len() ==> (#[trigger] p.1[i]).addr + WINDOW_SIZE <= p.0.base)
                &&& (forall|k: int|
                    0 <= k < blocks.len() ==> in_window(
                        p.0.base,
                        (#[trigger] blocks[k]).target_address,
                    ) || exists|i: int|
                        0 <= i < p.1.len() && in_window(
                            (#[trigger] p.1[i]).addr,
                            blocks[k].target_address,
                        ))
            }
        }),
    decreases blocks.len(),
{
    if blocks.len() == 0 {
        // the run is the start state with no commits
    } else {
        let prefix = blocks.drop_last();
        let b = blocks.last();
        assert(prefix.len() > 0 ==> prefix[0] == blocks[0]);
        lemma_run_blocks_coverage(loader, prefix);
        let p = run_blocks(fresh_model(loader), prefix)->Ok_0;
        let q = step(p.0, b)->Ok_0;
        let full = run_blocks(fresh_model(loader), blocks)->Ok_0;
        assert(full.0 == q.0 && full.1 == p.1 + opt_commits(q.1));
        assert(forall|k: int| 0 <= k < prefix.len() ==> prefix[k] == #[trigger] blocks[k]);
        if prefix.len() == 0 {
            // the first block initializes the window at its own address
            assert(b == blocks[0]);
            assert(p.0 == fresh_model(loader));
            assert(q.0.base == b.target_address && q.1 is None);
            assert(full.1 =~= Seq::<CommitModel>::empty());
            assert(in_window(full.0.base, blocks[blocks.len() - 1].target_address));
        } else {
            assert(p.0.base > 0);
            assert(b.target_address >= p.0.base);
            if b.target_address - p.0.base < WINDOW_SIZE {
                // the block lands in the open window: no commit is emitted
                assert(q.0.base == p.0.base && q.1 is None);
                assert(full.1 =~= p.1);
                assert(commits_touched(blocks, full.1)) by {
                    assert forall|i: int| 0 <= i < full.1.len() implies exists|k: int|
                        0 <= k < blocks.len() && blocks[k].target_address == (
                        #[trigger] full.1[i]).addr by {
                        let k = choose|k: int|
                            0 <= k < prefix.len() && prefix[k].target_address == p.1[i].addr;
                        assert(blocks[k].target_address == full.1[i].addr);
                    }
                }
                assert forall|k: int| 0 <= k < blocks.len() implies in_window(
                    full.0.base,
                    (#[trigger] blocks[k]).target_address,
                ) || exists|i: int|
                    0 <= i < full.1.len() && in_window(
                        (#[trigger] full.1[i]).addr,
                        blocks[k].target_address,
                    ) by {
                    if k == blocks.len() - 1 {
                        assert(in_window(full.0.base, b.target_address));
                    } else {
                        assert(blocks[k] == prefix[k]);
                    }
                }
                let k0 = choose|k: int|
                    0 <= k < prefix.len() && (#[trigger] prefix[k]).target_address == p.0.base;
                assert(blocks[k0].target_address == full.0.base);
            } else {
                // the block opens a new window: the old one is committed
                let c = CommitModel { addr: p.0.base, bytes: p.0.buf };
                assert(q.0.base == b.target_address && q.1 == Some(c));
                assert(full.1 =~= p.1.push(c));
                assert(forall|i: int| 0 <= i < p.1.len() ==> full.1[i] == #[trigger] p.1[i]);
                assert(full.1[p.1.len() as int] == c);
                assert(windows_disjoint(full.1)) by {
                    assert forall|i: int, j: int| 0 <= i < j < full.1.len() implies (
                    #[trigger] full.1[i]).addr + WINDOW_SIZE <= (#[trigger] full.1[j]).addr by {
                        if j < p.1.len() {
                            assert(p.1[i].addr + WINDOW_SIZE <= p.1[j].addr);
                        } else {
                            assert(p.1[i].addr + WINDOW_SIZE <= p.0.base);
                        }
                    }
                }
                assert(commits_touched(blocks, full.1)) by {
                    assert forall|i: int| 0 <= i < full.1.len() implies exists|k: int|
                        0 <= k < blocks.len() && blocks[k].target_address == (
                        #[trigger] full.1[i]).addr by {
                        if i < p.1.len() {
                            let k = choose|k: int|
                                0 <= k < prefix.len() && prefix[k].target_address == p.1[i].addr;
                            assert(blocks[k].target_address == full.1[i].addr);
                        } else {
                            let k = choose|k: int|
                                0 <= k < prefix.len() && (#[trigger] prefix[k]).target_address
                                    == p.0.base;
                            assert(blocks[k].target_address == full.1[i].addr);
                        }
                    }
                }
                assert(full.0.base > 0);
                assert(blocks[blocks.len() - 1].target_address == full.0.base);
                assert(forall|i: int|
                    0 <= i < full.1.len() ==> (#[trigger] full.1[i]).addr + WINDOW_SIZE
                        <= full.0.base);
                assert forall|k: int| 0 <= k < blocks.len() implies in_window(
                    full.0.base,
                    (#[trigger] blocks[k]).target_address,
                ) || exists|i: int|
                    0 <= i < full.1.len() && in_window(
                        (#[trigger] full.1[i]).addr,
                        blocks[k].target_address,
                    ) by {
                    if k == blocks.len() - 1 {
                        assert(in_window(full.0.base, b.target_address));
                    } else {
                        assert(blocks[k] == prefix[k]);
                        if in_window(p.0.base, prefix[k].target_address) {
                            assert(in_window(full.1[p.1.len() as int].addr,
                                blocks[k].target_address));
                        } else {
                            let i = choose|i: int|
                                0 <= i < p.1.len() && in_window(
                                    (#[trigger] p.1[i]).addr,
                                    prefix[k].target_address,
                                );
                            assert(in_window(full.1[i].addr, blocks[k].target_address));
                        }
                    }
                }
            }
        }
    }
}

/// For any stream the writer accepts whole, the committed windows are
/// pairwise disjoint — no window is erased twice — each starts at a touched
/// address, and every block lands inside one of them: the commits cover
/// exactly the windows the stream touches, with no gap and no duplicate.
pub proof fn lemma_stream_coverage(
    loader: Seq<u8>,
    blocks: Seq<BlockModel>,
    commits: Seq<CommitModel>,
)
    requires
        blocks.len() > 0,
        blocks[0].target_address > 0,
        run_stream(loader, blocks) == Ok::<Seq<CommitModel>, SequenceError>(commits),
    ensures
        windows_disjoint(commits),
        commits_touched(blocks, commits),
        blocks_covered(blocks, commits),
{
    lemma_run_blocks_coverage(loader, blocks);
    let p = run_blocks(fresh_model(loader), blocks)->Ok_0;
    let c = CommitModel { addr: p.0.base, bytes: p.0.buf };
    assert(finish_commit(p.0) == Some(c));
    assert(commits =~= p.1.push(c));
    assert(forall|i: int| 0 <= i < p.1.len() ==> commits[i] == #[trigger] p.1[i]);
    assert(commits[p.1.len() as int] == c);
    assert(windows_disjoint(commits)) by {
        assert forall|i: int, j: int| 0 <= i < j < commits.len() implies (
        #[trigger] commits[i]).addr + WINDOW_SIZE <= (#[trigger] commits[j]).addr by {
            if j < p.1.len() {
                assert(p.1[i].addr + WINDOW_SIZE <= p.1[j].addr);
            } else {
                assert(p.1[i].addr + WINDOW_SIZE <= p.0.base);
            }
        }
    }
    assert(commits_touched(blocks, commits)) by {
        assert forall|i: int| 0 <= i < commits.len() implies exists|k: int|
            0 <= k < blocks.len() && blocks[k].target_address == (#[trigger] commits[i]).addr by {
            if i < p.1.len() {
                let k = choose|k: int|
                    0 <= k < blocks.len() && (#[trigger] blocks[k]).target_address == p.1[i].addr;
                assert(blocks[k].target_address == commits[i].addr);
            } else {
                let k = choose|k: int|
                    0 <= k < blocks.len() && (#[trigger] blocks[k]).target_address == p.0.base;
                assert(blocks[k].target_address == commits[i].addr);
            }
        }
    }
    assert(blocks_covered(blocks, commits)) by {
        assert forall|k: int| 0 <= k < blocks.len() implies exists|i: int|
            0 <= i < commits.len() && in_window(
                (#[trigger] commits[i]).addr,
                (#[trigger] blocks[k]).target_address,
            ) by {
            if in_window(p.0.base, blocks[k].target_address) {
                assert(in_window(commits[p.1.len() as int].addr, blocks[k].target_address));
            } else {
                let i = choose|i: int|
                    0 <= i < p.1.len() && in_window(
                        (#[trigger] p.1[i]).addr,
                        blocks[k].target_address,
                    );
                assert(in_window(commits[i].addr, blocks[k].target_address));
            }
        }
    }
}


/// The byte at in-window offset `t` once every block has been laid over an
/// erased window starting at `base`: the latest block covering `t` wins;
/// untouched offsets stay zero. A block aimed at the flash base address
/// contributes the loader image.
pub open spec fn window_byte(loader: Seq<u8>, blocks: Seq<BlockModel>, base: u32, t: int) -> u8
    decreases blocks.len(),
{
    if blocks.len() == 0 {
        0u8
    } else {
        let b = blocks.last();
        let data = block_data(b, loader);
        let off = b.target_address - base;
        if off <= t < off + data.len() {
            data[t - off]
        } else {
            window_byte(loader, blocks.drop_last(), base, t)
        }
    }
}

/// Every block of the stream lands in the very window the first block
/// opened, and each fits it.
pub open spec fn all_in_first_window(loader: Seq<u8>, blocks: Seq<BlockModel>) -> bool {
    forall|k: int|
        0 <= k < blocks.len() ==> {
            let off = (#[trigger] blocks[k]).target_address - blocks[0].target_address;
            &&& blocks[0].target_address <= blocks[k].target_address
            &&& off < WINDOW_SIZE
            &&& off + block_data(blocks[k], loader).len() <= WINDOW_SIZE
        }
}

/// Inductive anatomy of a run that stays inside the first block's window:
/// it accepts every block, emits nothing, and buffers each byte as the
/// latest covering block wrote it.
proof fn lemma_run_blocks_single_window(loader: Seq<u8>, blocks: Seq<BlockModel>)
    requires
        loader.len() <= WINDOW_SIZE,
        blocks.len() > 0,
        blocks[0].target_address > 0,
        all_in_first_window(loader, blocks),
    ensures
        run_blocks(fresh_model(loader), blocks) is Ok,
        ({
            let p = run_blocks(fresh_model(loader), blocks)->Ok_0;
            &&& p.0.base == blocks[0].target_address
            &&& p.0.loader == loader
            &&& p.0.buf.len() == WINDOW_SIZE
            &&& p.1 == Seq::<CommitModel>::empty()
            &&& forall|t: int|
                0 <= t < WINDOW_SIZE ==> p.0.buf[t] == window_byte(
                    loader,
                    blocks,
                    blocks[0].target_address,
                    t,
                )
        }),
    decreases blocks.len(),
{
    let base = blocks[0].target_address;
    let b = blocks.last();
    let data = block_data(b, loader);
    let off = b.target_address - base;
    assert(base <= b.target_address && off < WINDOW_SIZE && off + data.len() <= WINDOW_SIZE);
    if blocks.len() == 1 {
        assert(blocks.drop_last() =~= Seq::<BlockModel>::empty());
        assert(b == blocks[0]);
        let q = step(fresh_model(loader), b)->Ok_0;
        assert(q.0.buf == write_at(window_zeros(), 0, data));
        let full = run_blocks(fresh_model(loader), blocks)->Ok_0;
        assert(full.1 =~= Seq::<CommitModel>::empty());
        assert forall|t: int| 0 <= t < WINDOW_SIZE implies full.0.buf[t] == window_byte(
            loader,
            blocks,
            base,
            t,
        ) by {
            if !(off <= t < off + data.len()) {
                assert(window_byte(loader, blocks.drop_last(), base, t) == 0u8);
            }
        }
    } else {
        let prefix = blocks.drop_last();
        assert(prefix[0] == blocks[0]);
        assert(all_in_first_window(loader, prefix)) by {
            assert(forall|k: int|
                0 <= k < prefix.len() ==> prefix[k] == #[trigger] blocks[k]);
        }
        lemma_run_blocks_single_window(loader, prefix);
        let p = run_blocks(fresh_model(loader), prefix)->Ok_0;
        assert(p.0.base == base);
        let q = step(p.0, b)->Ok_0;
        assert(q.0.base == base && q.1 is None);
        assert(q.0.buf == write_at(p.0.buf, off, data));
        let full = run_blocks(fresh_model(loader), blocks)->Ok_0;
        assert(full.1 =~= Seq::<CommitModel>::empty());
        assert forall|t: int| 0 <= t < WINDOW_SIZE implies full.0.buf[t] == window_byte(
            loader,
            blocks,
            base,
            t,
        ) by {
            if !(off <= t < off + data.len()) {
                assert(full.0.buf[t] == p.0.buf[t]);
                assert(window_byte(loader, blocks, base, t) == window_byte(
                    loader,
                    prefix,
                    base,
                    t,
                ));
            }
        }
    }
}

/// Any number of blocks landing in one open window, closed by the single
/// trailing commit, produce exactly one erase-and-program for that window;
/// each byte of it reads as the latest block covering that offset wrote it —
/// a later overlapping payload wins — and untouched bytes are zero.
pub proof fn lemma_single_window_one_commit(
    loader: Seq<u8>,
    blocks: Seq<BlockModel>,
    commits: Seq<CommitModel>,
)
    requires
        loader.len() <= WINDOW_SIZE,
        blocks.len() > 0,
        blocks[0].target_address > 0,
        all_in_first_window(loader, blocks),
        run_stream(loader, blocks) == Ok::<Seq<CommitModel>, SequenceError>(commits),
    ensures
        commits.len() == 1,
        commits[0].addr == blocks[0].target_address,
        commits[0].bytes.len() == WINDOW_SIZE,
        forall|t: int|
            0 <= t < WINDOW_SIZE ==> commits[0].bytes[t] == window_byte(
                loader,
                blocks,
                blocks[0].target_address,
                t,
            ),
{
    lemma_run_blocks_single_window(loader, blocks);
    let p = run_blocks(fresh_model(loader), blocks)->Ok_0;
    assert(commits =~= opt_commits(finish_commit(p.0)));
    assert(commits[0] == CommitModel { addr: p.0.base, bytes: p.0.buf });
}


/// The window starting at `base` contains the reserved prefix — the first
/// `loader.len()` bytes of flash — and `buf` reads back the authoritative
/// loader image there.
pub open spec fn reserved_prefix_intact(loader: Seq<u8>, base: u32, buf: Seq<u8>) -> bool {
    &&& base <= FLASH_BASE < base + WINDOW_SIZE
    &&& FLASH_BASE - base + loader.len() <= WINDOW_SIZE
    &&& forall|t: int| 0 <= t < loader.len() ==> buf[FLASH_BASE - base + t] == loader[t]
}

/// The block writes nothing into the reserved prefix, unless it is aimed at
/// the flash base address itself (and is then replaced by the loader image).
pub open spec fn spares_reserved_prefix(loader: Seq<u8>, b: BlockModel) -> bool {
    ||| b.target_address == FLASH_BASE
    ||| b.target_address + b.payload.len() <= FLASH_BASE
    ||| b.target_address >= FLASH_BASE + loader.len()
}

/// Inductive anatomy of the reserved prefix: once some block aimed at the
/// flash base address has been substituted, the loader image stands intact
/// in the open window or in an already-committed one, and later blocks that
/// spare the prefix keep it so.
proof fn lemma_run_blocks_reserved(loader: Seq<u8>, blocks: Seq<BlockModel>)
    requires
        loader.len() <= WINDOW_SIZE,
        blocks.len() > 0 ==> blocks[0].target_address > 0,
        run_blocks(fresh_model(loader), blocks) is Ok,
        forall|j: int|
            0 <= j < blocks.len() ==> spares_reserved_prefix(loader, #[trigger] blocks[j]),
    ensures
        ({
            let p = run_blocks(fresh_model(loader), blocks)->Ok_0;
            &&& p.0.loader == loader
            &&& p.0.buf.len() == WINDOW_SIZE
            &&& (exists|k: int|
                0 <= k < blocks.len() && (#[trigger] blocks[k]).target_address == FLASH_BASE)
                ==> reserved_prefix_intact(loader, p.0.base, p.0.buf) || exists|i: int|
                0 <= i < p.1.len() && reserved_prefix_intact(
                    loader,
                    (#[trigger] p.1[i]).addr,
                    p.1[i].bytes,
                )
        }),
    decreases blocks.len(),
{
    if blocks.len() == 0 {
    } else {
        let prefix = blocks.drop_last();
        let b = blocks.last();
        assert(prefix.len() > 0 ==> prefix[0] == blocks[0]);
        assert(forall|k: int| 0 <= k < prefix.len() ==> prefix[k] == #[trigger] blocks[k]);
        lemma_run_blocks_reserved(loader, prefix);
        lemma_run_blocks_coverage(loader, prefix);
        let p = run_blocks(fresh_model(loader), prefix)->Ok_0;
        let q = step(p.0, b)->Ok_0;
        let full = run_blocks(fresh_model(loader), blocks)->Ok_0;
        assert(full.0 == q.0 && full.1 == p.1 + opt_commits(q.1));
        let base = effective_base(p.0, b);
        let off = b.target_address - base;
        let data = block_data(b, loader);
        if b.target_address == FLASH_BASE {
            // the substitution itself lays the loader image down
            if off < WINDOW_SIZE {
                assert(q.0.buf == write_at(p.0.buf, off, loader));
                assert(reserved_prefix_intact(loader, q.0.base, q.0.buf));
            } else {
                assert(q.0.base == FLASH_BASE);
                assert(q.0.buf == write_at(window_zeros(), 0, loader));
                assert(reserved_prefix_intact(loader, q.0.base, q.0.buf));
            }
            assert(blocks[blocks.len() - 1].target_address == FLASH_BASE);
        } else {
            if exists|k: int|
                0 <= k < blocks.len() && (#[trigger] blocks[k]).target_address == FLASH_BASE {
                let k0 = choose|k: int|
                    0 <= k < blocks.len() && (#[trigger] blocks[k]).target_address == FLASH_BASE;
                assert(k0 < prefix.len() && prefix[k0] == blocks[k0]);
                assert(exists|k: int|
                    0 <= k < prefix.len() && (#[trigger] prefix[k]).target_address == FLASH_BASE);
                if exists|i: int|
                    0 <= i < p.1.len() && reserved_prefix_intact(
                        loader,
                        (#[trigger] p.1[i]).addr,
                        p.1[i].bytes,
                    ) {
                    // already committed: commits only grow
                    let i = choose|i: int|
                        0 <= i < p.1.len() && reserved_prefix_intact(
                            loader,
                            (#[trigger] p.1[i]).addr,
                            p.1[i].bytes,
                        );
                    assert(full.1[i] == p.1[i]);
                    assert(reserved_prefix_intact(loader, full.1[i].addr, full.1[i].bytes));
                } else {
                    // intact in the open window
                    assert(reserved_prefix_intact(loader, p.0.base, p.0.buf));
                    assert(p.0.base != 0);
                    assert(base == p.0.base);
                    if off < WINDOW_SIZE {
                        // the incoming payload spares the prefix bytes
                        assert(q.0.buf == write_at(p.0.buf, off, b.payload));
                        assert(reserved_prefix_intact(loader, q.0.base, q.0.buf)) by {
                            assert(b.target_address + b.payload.len() <= FLASH_BASE
                                || b.target_address >= FLASH_BASE + loader.len());
                            assert forall|t: int| 0 <= t < loader.len() implies q.0.buf[FLASH_BASE
                                - q.0.base + t] == loader[t] by {
                                assert(!(off <= FLASH_BASE - p.0.base + t < off
                                    + b.payload.len()));
                                assert(q.0.buf[FLASH_BASE - p.0.base + t] == p.0.buf[FLASH_BASE
                                    - p.0.base + t]);
                            }
                        }
                    } else {
                        // the open window is committed with the prefix intact
                        let c = CommitModel { addr: p.0.base, bytes: p.0.buf };
                        assert(q.1 == Some(c));
                        assert(full.1[p.1.len() as int] == c);
                        assert(reserved_prefix_intact(
                            loader,
                            full.1[p.1.len() as int].addr,
                            full.1[p.1.len() as int].bytes,
                        ));
                    }
                }
            }
        }
    }
}

/// For any block aimed at the flash base address, the committed bytes of the
/// window holding the reserved prefix read back as the authoritative
/// second-stage loader image, whatever payload the update file supplied —
/// provided no other block of the stream writes into that prefix.
pub proof fn lemma_reserved_region_shielded(
    loader: Seq<u8>,
    blocks: Seq<BlockModel>,
    commits: Seq<CommitModel>,
)
    requires
        loader.len() <= WINDOW_SIZE,
        blocks.len() > 0,
        blocks[0].target_address > 0,
        run_stream(loader, blocks) == Ok::<Seq<CommitModel>, SequenceError>(commits),
        exists|k: int|
            0 <= k < blocks.len() && (#[trigger] blocks[k]).target_address == FLASH_BASE,
        forall|j: int|
            0 <= j < blocks.len() ==> spares_reserved_prefix(loader, #[trigger] blocks[j]),
    ensures
        exists|i: int|
            0 <= i < commits.len() && reserved_prefix_intact(
                loader,
                (#[trigger] commits[i]).addr,
                commits[i].bytes,
            ),
{
    lemma_run_blocks_reserved(loader, blocks);
    lemma_run_blocks_coverage(loader, blocks);
    let p = run_blocks(fresh_model(loader), blocks)->Ok_0;
    let c = CommitModel { addr: p.0.base, bytes: p.0.buf };
    assert(finish_commit(p.0) == Some(c));
    assert(commits =~= p.1.push(c));
    if reserved_prefix_intact(loader, p.0.base, p.0.buf) {
        assert(commits[p.1.len() as int] == c);
        assert(reserved_prefix_intact(
            loader,
            commits[p.1.len() as int].addr,
            commits[p.1.len() as int].bytes,
        ));
    } else {
        let i = choose|i: int|
            0 <= i < p.1.len() && reserved_prefix_intact(
                loader,
                (#[trigger] p.1[i]).addr,
                p.1[i].bytes,
            );
        assert(commits[i] == p.1[i]);
        assert(reserved_prefix_intact(loader, commits[i].addr, commits[i].bytes));
    }
}


/// The byte a correctly flashed image holds at offset `a` from the flash
/// base: the authoritative loader image over the reserved prefix, the
/// binary's own byte up to its length, and erased-window zero beyond it.
pub open spec fn expected_byte(loader: Seq<u8>, bin: Seq<u8>, a: int) -> u8 {
    if a < loader.len() {
        loader[a]
    } else if a < bin.len() {
        bin[a]
    } else {
        0u8
    }
}

/// The blocks carry `bin` in consecutive 256-byte payloads — the customary
/// record payload for this board — starting at the flash base address.
pub open spec fn consecutive_stream(bin: Seq<u8>, blocks: Seq<BlockModel>) -> bool {
    forall|k: int|
        0 <= k < blocks.len() ==> (#[trigger] blocks[k]).target_address == FLASH_BASE + 256 * k
            && blocks[k].payload == bin.subrange(256 * k, 256 * k + 256)
}

/// Inductive anatomy of flashing a binary: after any prefix of a
/// consecutive stream, the committed windows hold the image bytes exactly,
/// and the open window holds them up to the write edge, zeros beyond it.
proof fn lemma_run_blocks_consecutive(loader: Seq<u8>, bin: Seq<u8>, blocks: Seq<BlockModel>)
    requires
        loader.len() == 256,
        bin.len() % 256 == 0,
        bin.len() <= 0x1000_0000,
        0 < blocks.len(),
        256 * blocks.len() <= bin.len(),
        consecutive_stream(bin, blocks),
    ensures
        run_blocks(fresh_model(loader), blocks) is Ok,
        ({
            let p = run_blocks(fresh_model(loader), blocks)->Ok_0;
            let k = blocks.len() as int;
            let w = p.1.len() as int;
            &&& p.0.loader == loader
            &&& p.0.buf.len() == WINDOW_SIZE
            &&& p.0.base == FLASH_BASE + 4096 * w
            &&& 0 < 256 * k - 4096 * w <= 4096
            &&& (forall|j: int|
                0 <= j < w ==> (#[trigger] p.1[j]).addr == FLASH_BASE + 4096 * j
                    && p.1[j].bytes.len() == WINDOW_SIZE)
            &&& (forall|j: int, u: int|
                0 <= j < w && 0 <= u < 4096 ==> #[trigger] p.1[j].bytes[u] == expected_byte(
                    loader,
                    bin,
                    4096 * j + u,
                ))
            &&& (forall|u: int|
                0 <= u < 256 * k - 4096 * w ==> #[trigger] p.0.buf[u] == expected_byte(
                    loader,
                    bin,
                    4096 * w + u,
                ))
            &&& (forall|u: int| 256 * k - 4096 * w <= u < 4096 ==> #[trigger] p.0.buf[u] == 0u8)
        }),
    decreases blocks.len(),
{
    let k = blocks.len() as int;
    let b = blocks.last();
    assert(b == blocks[k - 1]);
    assert(b.payload.len() == 256);
    if k == 1 {
        // the first block is the reserved one: the loader image replaces it
        assert(blocks.drop_last() =~= Seq::<BlockModel>::empty());
        assert(b.target_address == FLASH_BASE);
        let q = step(fresh_model(loader), b)->Ok_0;
        assert(q.0.buf == write_at(window_zeros(), 0, loader));
        let full = run_blocks(fresh_model(loader), blocks)->Ok_0;
        assert(full.1 =~= Seq::<CommitModel>::empty());
        assert forall|u: int| 0 <= u < 256 implies #[trigger] full.0.buf[u] == expected_byte(
            loader,
            bin,
            u,
        ) by {}
    } else {
        let prefix = blocks.drop_last();
        assert(forall|j: int| 0 <= j < prefix.len() ==> prefix[j] == #[trigger] blocks[j]);
        assert(consecutive_stream(bin, prefix));
        lemma_run_blocks_consecutive(loader, bin, prefix);
        let p = run_blocks(fresh_model(loader), prefix)->Ok_0;
        let w0 = p.1.len() as int;
        let edge = 256 * (k - 1) - 4096 * w0;
        assert(b.target_address == FLASH_BASE + 256 * (k - 1));
        assert(b.target_address != FLASH_BASE);
        assert(b.target_address - p.0.base == edge);
        let full = run_blocks(fresh_model(loader), blocks)->Ok_0;
        if edge < 4096 {
            // the block lands at the write edge of the open window
            assert(edge + 256 <= 4096);
            let q = step(p.0, b)->Ok_0;
            assert(q.0.buf == write_at(p.0.buf, edge, b.payload));
            assert(full.1 =~= p.1);
            assert(full.0 == q.0);
            assert forall|u: int| 0 <= u < 256 * k - 4096 * w0 implies #[trigger] full.0.buf[u]
                == expected_byte(loader, bin, 4096 * w0 + u) by {
                if edge <= u < edge + 256 {
                    assert(full.0.buf[u] == b.payload[u - edge]);
                    assert(b.payload[u - edge] == bin[256 * (k - 1) + (u - edge)]);
                } else {
                    assert(full.0.buf[u] == p.0.buf[u]);
                }
            }
            assert forall|u: int| 256 * k - 4096 * w0 <= u < 4096 implies #[trigger] full.0.buf[u]
                == 0u8 by {
                assert(full.0.buf[u] == p.0.buf[u]);
            }
        } else {
            // the open window is exactly full: it is committed and the block
            // opens the next one
            assert(edge == 4096);
            let c = CommitModel { addr: p.0.base, bytes: p.0.buf };
            let q = step(p.0, b)->Ok_0;
            assert(q.1 == Some(c));
            assert(q.0.base == b.target_address);
            assert(q.0.buf == write_at(window_zeros(), 0, b.payload));
            assert(full.1 =~= p.1.push(c));
            assert(full.0 == q.0);
            let w = w0 + 1;
            assert(full.1.len() == w);
            assert(forall|j: int| 0 <= j < w0 ==> full.1[j] == #[trigger] p.1[j]);
            assert(full.1[w0] == c);
            assert(256 * (k - 1) == 4096 * w);
            assert forall|j: int, u: int| 0 <= j < w && 0 <= u < 4096 implies #[trigger] full.1[j].bytes[u]
                == expected_byte(loader, bin, 4096 * j + u) by {
                if j < w0 {
                    assert(full.1[j].bytes[u] == p.1[j].bytes[u]);
                } else {
                    assert(full.1[j] == c);
                    assert(c.bytes[u] == expected_byte(loader, bin, 4096 * w0 + u));
                }
            }
            assert forall|u: int| 0 <= u < 256 * k - 4096 * w implies #[trigger] full.0.buf[u]
                == expected_byte(loader, bin, 4096 * w + u) by {
                assert(0 <= u < 256);
                assert(full.0.buf[u] == b.payload[u]);
                assert(b.payload[u] == bin[256 * (k - 1) + u]);
            }
        }
    }
}

/// Round trip of a whole image: a consecutive stream built from a binary,
/// run through the writer and closed by the trailing commit, programs the
/// windows in order with exactly the binary's bytes — the authoritative
/// loader image standing over the reserved prefix — and zero padding past
/// the binary's end.
pub proof fn lemma_stream_reproduces_image(loader: Seq<u8>, bin: Seq<u8>, blocks: Seq<BlockModel>)
    requires
        loader.len() == 256,
        bin.len() % 256 == 0,
        0 < bin.len() <= 0x1000_0000,
        256 * blocks.len() == bin.len(),
        consecutive_stream(bin, blocks),
    ensures
        run_stream(loader, blocks) is Ok,
        ({
            let commits = run_stream(loader, blocks)->Ok_0;
            &&& 4096 * (commits.len() - 1) < bin.len() <= 4096 * commits.len()
            &&& (forall|j: int|
                0 <= j < commits.len() ==> (#[trigger] commits[j]).addr == FLASH_BASE + 4096 * j
                    && commits[j].bytes.len() == WINDOW_SIZE)
            &&& (forall|j: int, u: int|
                0 <= j < commits.len() && 0 <= u < 4096 ==> #[trigger] commits[j].bytes[u]
                    == expected_byte(loader, bin, 4096 * j + u))
        }),
{
    lemma_run_blocks_consecutive(loader, bin, blocks);
    let p = run_blocks(fresh_model(loader), blocks)->Ok_0;
    let w = p.1.len() as int;
    let c = CommitModel { addr: p.0.base, bytes: p.0.buf };
    assert(p.0.base != 0);
    assert(finish_commit(p.0) == Some(c));
    let commits = run_stream(loader, blocks)->Ok_0;
    assert(commits =~= p.1.push(c));
    assert(forall|j: int| 0 <= j < w ==> commits[j] == #[trigger] p.1[j]);
    assert(commits[w] == c);
    let fill = bin.len() - 4096 * w;
    assert(0 < fill <= 4096);
    assert forall|j: int, u: int| 0 <= j < commits.len() && 0 <= u < 4096 implies
        #[trigger] commits[j].bytes[u] == expected_byte(loader, bin, 4096 * j + u) by {
        if j < w {
            assert(commits[j].bytes[u] == p.1[j].bytes[u]);
        } else {
            assert(commits[j] == c);
            if u < fill {
                assert(c.bytes[u] == expected_byte(loader, bin, 4096 * w + u));
            } else {
                assert(c.bytes[u] == 0u8);
                assert(4096 * w + u >= bin.len());
                assert(bin.len() >= 256);
            }
        }
    }
}

} // verus!
