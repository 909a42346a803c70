//! An in-memory flash device. It honours the same discipline as the real
//! part: a whole erase-granularity window is erased and programmed as one
//! atomic operation, and an operation outside the device or off the erase
//! grid fails. Replaying an update against it shows exactly what the real
//! flash would hold.

use crate::flash::{
    commit_models, copy_into, expected_byte, run_stream, Commit, CommitModel, FLASH_BASE,
    WINDOW_SIZE, write_at,
};
use crate::uf2::BlockModel;
use crate::uf2::le_word;
use vstd::prelude::*;

verus! {

/// Why the device refused an operation. Any device failure is fatal for the
/// running update.
#[derive(Clone, Copy, Debug, PartialEq, Eq, Structural)]
pub enum DeviceError {
    /// The operation reaches outside the device.
    OutOfRange,
    /// An erase must start on an erase-granularity boundary.
    Misaligned,
}

/// What erasing and programming `c` does to a device of `mem.len()` bytes
/// mapped at `base`: the new contents, or the error.
pub open spec fn spec_erase_and_program(base: u32, mem: Seq<u8>, c: CommitModel) -> Result<
    Seq<u8>,
    DeviceError,
> {
    if c.addr < base || c.addr - base + c.bytes.len() > mem.len() {
        Err(DeviceError::OutOfRange)
    } else if c.addr % (WINDOW_SIZE as u32) != 0 {
        Err(DeviceError::Misaligned)
    } else {
        Ok(write_at(mem, c.addr - base, c.bytes))
    }
}

/// A failure while carrying out a prefix stands for the whole sequence.
proof fn lemma_apply_all_err(base: u32, mem: Seq<u8>, cs: Seq<CommitModel>, i: int)
    requires
        0 <= i <= cs.len(),
        spec_apply_all(base, mem, cs.take(i)) is Err,
    ensures
        spec_apply_all(base, mem, cs) == spec_apply_all(base, mem, cs.take(i)),
    decreases cs.len() - i,
{
    if i == cs.len() {
        assert(cs.take(i) =~= cs);
    } else {
        assert(cs.take(i + 1).drop_last() =~= cs.take(i));
        lemma_apply_all_err(base, mem, cs, i + 1);
    }
}

/// A flash device held in memory: byte `i` of `mem` is the byte at absolute
/// address `base + i`.
pub struct SimFlash {
    base: u32,
    mem: Vec<u8>,
}

impl SimFlash {
    /// The absolute address this device is mapped at.
    pub closed spec fn spec_base(&self) -> u32 {
        self.base
    }

    /// The device's contents.
    pub closed spec fn mem(&self) -> Seq<u8> {
        self.mem@
    }

    /// The device fits the 32-bit address space.
    pub open spec fn wf(&self) -> bool {
        self.spec_base() + self.mem().len() <= 0x1_0000_0000
    }

    /// A device of `size` bytes mapped at `base`, in the erased state.
    pub fn new(base: u32, size: usize) -> (d: SimFlash)
        requires
            base + size <= 0x1_0000_0000,
        ensures
            d.wf(),
            d.spec_base() == base,
            d.mem() == Seq::new(size as nat, |i: int| 0xFFu8),
    {
        let mut mem: Vec<u8> = Vec::new();
        let mut i: usize = 0;
        while i < size
            invariant
                i <= size,
                mem@.len() == i,
                forall|j: int| 0 <= j < i ==> mem@[j] == 0xFFu8,
            decreases size - i,
        {
            mem.push(0xFFu8);
            i = i + 1;
        }
        proof {
            assert(mem@ =~= Seq::new(size as nat, |j: int| 0xFFu8));
        }
        SimFlash { base, mem }
    }

    /// Number of bytes the device holds.
    pub fn size(&self) -> (n: usize)
        ensures
            n == self.mem().len(),
    {
        self.mem.len()
    }

    /// The absolute address this device is mapped at.
    pub fn base_address(&self) -> (a: u32)
        ensures
            a == self.spec_base(),
    {
        self.base
    }

    /// Erases the window `c` names and programs it with `c`'s bytes, as one
    /// atomic operation. Behaves exactly as [`spec_erase_and_program`]
    /// describes; on an error the contents are untouched.
    pub fn erase_and_program(&mut self, c: &Commit) -> (r: Result<(), DeviceError>)
        requires
            old(self).wf(),
        ensures
            final(self).wf(),
            final(self).spec_base() == old(self).spec_base(),
            match r {
                Ok(()) => {
                    &&& spec_erase_and_program(old(self).spec_base(), old(self).mem(), c.model())
                        == Ok::<Seq<u8>, DeviceError>(final(self).mem())
                },
                Err(e) => {
                    &&& spec_erase_and_program(old(self).spec_base(), old(self).mem(), c.model())
                        == Err::<Seq<u8>, DeviceError>(e)
                    &&& final(self).mem() == old(self).mem()
                },
            },
    {
        if c.addr < self.base || ((c.addr - self.base) as usize) > self.mem.len() || self.mem.len()
            - ((c.addr - self.base) as usize) < c.bytes.len() {
            return Err(DeviceError::OutOfRange);
        }
        if c.addr % (WINDOW_SIZE as u32) != 0 {
            return Err(DeviceError::Misaligned);
        }
        let off: usize = (c.addr - self.base) as usize;
        copy_into(&mut self.mem, off, &c.bytes);
        Ok(())
    }

    /// Carries a whole update's commits out in order, stopping at the first
    /// failure — the half-written state the update design accepts and never
    /// retries. Behaves exactly as [`spec_apply_all`] describes.
    pub fn apply_all(&mut self, commits: &Vec<Commit>) -> (r: Result<(), DeviceError>)
        requires
            old(self).wf(),
        ensures
            final(self).wf(),
            final(self).spec_base() == old(self).spec_base(),
            match r {
                Ok(()) => spec_apply_all(
                    old(self).spec_base(),
                    old(self).mem(),
                    commit_models(commits@),
                ) == Ok::<Seq<u8>, DeviceError>(final(self).mem()),
                Err(e) => spec_apply_all(
                    old(self).spec_base(),
                    old(self).mem(),
                    commit_models(commits@),
                ) == Err::<Seq<u8>, DeviceError>(e),
            },
    {
        let ghost base0: u32 = self.base;
        let ghost mem0: Seq<u8> = self.mem@;
        let ghost cms: Seq<CommitModel> = commit_models(commits@);
        let mut i: usize = 0;
        while i < commits.len()
            invariant
                i <= commits@.len(),
                base0 == old(self).spec_base(),
                mem0 == old(self).mem(),
                self.wf(),
                self.spec_base() == base0,
                cms == commit_models(commits@),
                cms.len() == commits@.len(),
                spec_apply_all(base0, mem0, cms.take(i as int)) == Ok::<Seq<u8>, DeviceError>(
                    self.mem(),
                ),
            decreases commits@.len() - i,
        {
            proof {
                assert(cms.take(i + 1).drop_last() =~= cms.take(i as int));
                assert(cms.take(i + 1).last() == commits@[i as int].model());
            }
            match self.erase_and_program(&commits[i]) {
                Ok(()) => {},
                Err(e) => {
                    proof {
                        lemma_apply_all_err(base0, mem0, cms, i + 1);
                    }
                    return Err(e);
                },
            }
            i = i + 1;
        }
        proof {
            assert(cms.take(i as int) =~= cms);
        }
        Ok(())
    }

    /// Reads `len` bytes starting at the absolute address `addr`.
    pub fn read(&self, addr: u32, len: usize) -> (r: Result<Vec<u8>, DeviceError>)
        requires
            self.wf(),
        ensures
            match r {
                Ok(v) => addr >= self.spec_base() && addr - self.spec_base() + len
                    <= self.mem().len() && v@ == self.mem().subrange(
                    addr - self.spec_base(),
                    addr - self.spec_base() + len,
                ),
                Err(e) => e == DeviceError::OutOfRange && (addr < self.spec_base() || addr
                    - self.spec_base() + len > self.mem().len()),
            },
    {
        if addr < self.base || ((addr - self.base) as usize) > self.mem.len() || self.mem.len() - (
        (addr - self.base) as usize) < len {
            return Err(DeviceError::OutOfRange);
        }
        let off: usize = (addr - self.base) as usize;
        let mut v: Vec<u8> = Vec::new();
        let mut i: usize = 0;
        while i < len
            invariant
                i <= len,
                off + len <= self.mem.len(),
                v@.len() == i,
                forall|j: int| 0 <= j < i ==> v@[j] == self.mem@[off + j],
            decreases len - i,
        {
            v.push(self.mem[off + i]);
            i = i + 1;
        }
        proof {
            assert(v@ =~= self.mem().subrange(
                addr - self.spec_base(),
                addr - self.spec_base() + len,
            ));
        }
        Ok(v)
    }

    /// Reads the little-endian word at the absolute address `addr`.
    pub fn read_word(&self, addr: u32) -> (r: Result<u32, DeviceError>)
        requires
            self.wf(),
        ensures
            match r {
                Ok(w) => addr >= self.spec_base() && addr - self.spec_base() + 4
                    <= self.mem().len() && w == le_word(self.mem(), addr - self.spec_base()),
                Err(e) => e == DeviceError::OutOfRange && (addr < self.spec_base() || addr
                    - self.spec_base() + 4 > self.mem().len()),
            },
    {
        if addr < self.base || ((addr - self.base) as usize) > self.mem.len() || self.mem.len() - (
        (addr - self.base) as usize) < 4 {
            return Err(DeviceError::OutOfRange);
        }
        let off: usize = (addr - self.base) as usize;
        let b0 = self.mem[off] as u32;
        let b1 = self.mem[off + 1] as u32;
        let b2 = self.mem[off + 2] as u32;
        let b3 = self.mem[off + 3] as u32;
        Ok(b0 + b1 * 0x100 + b2 * 0x1_0000 + b3 * 0x100_0000)
    }
}

/// What carrying a whole sequence of commits out does to the device, in
/// order, stopping at the first failure.
pub open spec fn spec_apply_all(base: u32, mem: Seq<u8>, cs: Seq<CommitModel>) -> Result<
    Seq<u8>,
    DeviceError,
>
    decreases cs.len(),
{
    if cs.len() == 0 {
        Ok(mem)
    } else {
        match spec_apply_all(base, mem, cs.drop_last()) {
            Err(e) => Err(e),
            Ok(m2) => spec_erase_and_program(base, m2, cs.last()),
        }
    }
}

/// Programming a whole image's commit sequence — one window at each
/// consecutive erase-aligned address from the flash base — succeeds on a
/// device mapped at the flash base, leaves exactly the expected byte at
/// every programmed offset, and touches nothing beyond the programmed
/// windows.
pub proof fn lemma_apply_image_commits(
    mem: Seq<u8>,
    cs: Seq<CommitModel>,
    loader: Seq<u8>,
    bin: Seq<u8>,
)
    requires
        forall|j: int|
            0 <= j < cs.len() ==> (#[trigger] cs[j]).addr == FLASH_BASE + 4096 * j
                && cs[j].bytes.len() == WINDOW_SIZE,
        forall|j: int, u: int|
            0 <= j < cs.len() && 0 <= u < 4096 ==> #[trigger] cs[j].bytes[u] == expected_byte(
                loader,
                bin,
                4096 * j + u,
            ),
        4096 * cs.len() <= mem.len(),
        FLASH_BASE + mem.len() <= 0x1_0000_0000,
    ensures
        spec_apply_all(FLASH_BASE, mem, cs) is Ok,
        ({
            let m2 = spec_apply_all(FLASH_BASE, mem, cs)->Ok_0;
            &&& m2.len() == mem.len()
            &&& (forall|a: int|
                0 <= a < 4096 * cs.len() ==> #[trigger] m2[a] == expected_byte(loader, bin, a))
            &&& (forall|a: int| 4096 * cs.len() <= a < mem.len() ==> #[trigger] m2[a] == mem[a])
        }),
    decreases cs.len(),
{
    if cs.len() > 0 {
        let prefix = cs.drop_last();
        let w = prefix.len() as int;
        let c = cs.last();
        assert(forall|j: int| 0 <= j < w ==> prefix[j] == #[trigger] cs[j]);
        assert forall|j: int, u: int| 0 <= j < w && 0 <= u < 4096 implies
            #[trigger] prefix[j].bytes[u] == expected_byte(loader, bin, 4096 * j + u) by {
            assert(prefix[j] == cs[j]);
        }
        lemma_apply_image_commits(mem, prefix, loader, bin);
        let m1 = spec_apply_all(FLASH_BASE, mem, prefix)->Ok_0;
        assert(c.addr == FLASH_BASE + 4096 * w);
        assert(c.addr % (WINDOW_SIZE as u32) == 0) by {
            assert(c.addr == (65536 + w) * 4096);
            vstd::arithmetic::div_mod::lemma_mod_multiples_basic(65536 + w, 4096);
        }
        let m2 = write_at(m1, 4096 * w, c.bytes);
        assert(spec_erase_and_program(FLASH_BASE, m1, c) == Ok::<Seq<u8>, DeviceError>(m2));
        assert forall|a: int| 0 <= a < 4096 * cs.len() implies #[trigger] m2[a] == expected_byte(
            loader,
            bin,
            a,
        ) by {
            if a < 4096 * w {
                assert(m2[a] == m1[a]);
            } else {
                assert(m2[a] == c.bytes[a - 4096 * w]);
            }
        }
        assert forall|a: int| 4096 * cs.len() <= a < mem.len() implies #[trigger] m2[a]
            == mem[a] by {
            assert(m2[a] == m1[a]);
        }
    }
}

/// Round trip against the device: a consecutive stream built from a binary,
/// run through the parser-fed writer and carried out against a simulated
/// flash mapped at the flash base, reproduces the binary — the authoritative
/// loader image standing over the reserved prefix, zero padding to the end
/// of the last touched window — and leaves every other byte of the device as
/// it was.
pub proof fn lemma_replay_reproduces_image(
    loader: Seq<u8>,
    bin: Seq<u8>,
    blocks: Seq<BlockModel>,
    mem: Seq<u8>,
)
    requires
        loader.len() == 256,
        bin.len() % 256 == 0,
        0 < bin.len() <= 0x1000_0000,
        256 * blocks.len() == bin.len(),
        crate::flash::consecutive_stream(bin, blocks),
        bin.len() + 4096 <= mem.len(),
        FLASH_BASE + mem.len() <= 0x1_0000_0000,
    ensures
        run_stream(loader, blocks) is Ok,
        ({
            let cs = run_stream(loader, blocks)->Ok_0;
            &&& spec_apply_all(FLASH_BASE, mem, cs) is Ok
            &&& {
                let m2 = spec_apply_all(FLASH_BASE, mem, cs)->Ok_0;
                &&& m2.len() == mem.len()
                &&& (forall|a: int|
                    0 <= a < 4096 * cs.len() ==> #[trigger] m2[a] == expected_byte(
                        loader,
                        bin,
                        a,
                    ))
                &&& (forall|a: int| 4096 * cs.len() <= a < mem.len() ==> #[trigger] m2[a] == mem[a])
            }
        }),
{
    crate::flash::lemma_stream_reproduces_image(loader, bin, blocks);
    let cs = run_stream(loader, blocks)->Ok_0;
    assert(4096 * cs.len() < bin.len() + 4096);
    lemma_apply_image_commits(mem, cs, loader, bin);
}

} // verus!
