//! Decoding and encoding of the fixed-size wire records that carry an update
//! image: 512 bytes, little-endian, two leading magic words, a trailing magic
//! word, and a payload of at most 476 meaningful bytes aimed at an absolute
//! flash address.

use vstd::prelude::*;

verus! {

/// Size in bytes of one wire record.
pub const BLOCK_LEN: usize = 512;

/// Largest number of payload bytes one record may declare.
pub const PAYLOAD_CAPACITY: usize = 476;

/// First leading magic word.
pub const MAGIC_START0: u32 = 0x0A32_4655;

/// Second leading magic word.
pub const MAGIC_START1: u32 = 0x9E5D_5157;

/// Trailing magic word.
pub const MAGIC_END: u32 = 0x0AB1_6F30;

/// Why a record was rejected. Any rejection is fatal for the whole update:
/// there is no per-record retry.
#[derive(Clone, Copy, Debug, PartialEq, Eq, Structural)]
pub enum FormatError {
    /// The buffer did not hold exactly one whole record.
    WrongLength,
    /// A leading or trailing magic word did not match.
    BadMagic,
    /// The declared payload size exceeds the record's payload capacity.
    PayloadTooLarge,
}

/// The mathematical image of one decoded block. The payload's length is the
/// declared payload size.
#[verifier::ext_equal]
pub struct BlockModel {
    pub block_number: u32,
    pub block_count: u32,
    pub target_address: u32,
    pub payload: Seq<u8>,
}

/// The little-endian word stored at byte offset `i`.
pub open spec fn le_word(s: Seq<u8>, i: int) -> int
    recommends
        0 <= i,
        i + 4 <= s.len(),
{
    s[i] + s[i + 1] * 0x100 + s[i + 2] * 0x1_0000 + s[i + 3] * 0x100_0000
}

/// Both leading magic words and the trailing magic word are in place.
pub open spec fn magic_ok(s: Seq<u8>) -> bool
    recommends
        s.len() == BLOCK_LEN,
{
    &&& le_word(s, 0) == MAGIC_START0
    &&& le_word(s, 4) == MAGIC_START1
    &&& le_word(s, 508) == MAGIC_END
}

/// What decoding one buffer yields: the exact field values on success, and
/// the first failing check otherwise.
pub open spec fn spec_parse(s: Seq<u8>) -> Result<BlockModel, FormatError> {
    if s.len() != BLOCK_LEN {
        Err(FormatError::WrongLength)
    } else if !magic_ok(s) {
        Err(FormatError::BadMagic)
    } else if le_word(s, 16) > PAYLOAD_CAPACITY {
        Err(FormatError::PayloadTooLarge)
    } else {
        Ok(BlockModel {
            block_number: le_word(s, 20) as u32,
            block_count: le_word(s, 24) as u32,
            target_address: le_word(s, 12) as u32,
            payload: s.subrange(32, 32 + le_word(s, 16)),
        })
    }
}

/// One decoded block. The payload holds exactly the declared number of
/// meaningful bytes; the record's remaining payload capacity is dropped.
#[derive(Clone, Debug, PartialEq, Eq)]
pub struct Block {
    pub block_number: u32,
    pub block_count: u32,
    pub target_address: u32,
    pub payload: Vec<u8>,
}

impl Block {
    /// The mathematical image of this block.
    pub open spec fn model(&self) -> BlockModel {
        BlockModel {
            block_number: self.block_number,
            block_count: self.block_count,
            target_address: self.target_address,
            payload: self.payload@,
        }
    }

    /// The payload fits the record's capacity.
    pub open spec fn wf(&self) -> bool {
        self.payload@.len() <= PAYLOAD_CAPACITY
    }

    /// Decodes exactly one record. Pure: no side effects and no partial
    /// acceptance; the caller decides when the stream ends.
    pub fn parse(buf: &Vec<u8>) -> (r: Result<Block, FormatError>)
        ensures
            match r {
                Ok(b) => spec_parse(buf@) == Ok::<BlockModel, FormatError>(b.model()) && b.wf(),
                Err(e) => spec_parse(buf@) == Err::<BlockModel, FormatError>(e),
            },
    {
        if buf.len() != BLOCK_LEN {
            return Err(FormatError::WrongLength);
        }
        let m0 = read_le_word(buf, 0);
        let m1 = read_le_word(buf, 4);
        let me = read_le_word(buf, 508);
        if m0 != MAGIC_START0 || m1 != MAGIC_START1 || me != MAGIC_END {
            return Err(FormatError::BadMagic);
        }
        let payload_size = read_le_word(buf, 16);
        if payload_size > PAYLOAD_CAPACITY as u32 {
            return Err(FormatError::PayloadTooLarge);
        }
        let size: usize = payload_size as usize;
        let mut payload: Vec<u8> = Vec::new();
        let mut i: usize = 0;
        while i < size
            invariant
                i <= size,
                size <= PAYLOAD_CAPACITY,
                buf@.len() == BLOCK_LEN,
                payload@ == buf@.subrange(32, 32 + i),
            decreases size - i,
        {
            payload.push(buf[32 + i]);
            i = i + 1;
        }
        let block = Block {
            block_number: read_le_word(buf, 20),
            block_count: read_le_word(buf, 24),
            target_address: read_le_word(buf, 12),
            payload,
        };
        Ok(block)
    }
}

/// Reads the little-endian word at byte offset `i`.
fn read_le_word(buf: &Vec<u8>, i: usize) -> (w: u32)
    requires
        i + 4 <= buf.len(),
    ensures
        w == le_word(buf@, i as int),
{
    let b0 = buf[i] as u32;
    let b1 = buf[i + 1] as u32;
    let b2 = buf[i + 2] as u32;
    let b3 = buf[i + 3] as u32;
    b0 + b1 * 0x100 + b2 * 0x1_0000 + b3 * 0x100_0000
}


/// Writes `w` little-endian at byte offset `i`, leaving every other byte
/// alone.
fn write_le_word(buf: &mut Vec<u8>, i: usize, w: u32)
    requires
        i + 4 <= old(buf).len(),
    ensures
        final(buf)@.len() == old(buf)@.len(),
        le_word(final(buf)@, i as int) == w,
        forall|j: int|
            0 <= j < old(buf)@.len() && !(i <= j < i + 4) ==> final(buf)@[j] == old(buf)@[j],
{
    proof {
        assert(w / 0x100_0000 < 0x100) by (bit_vector);
        assert(w % 0x100 + ((w / 0x100) % 0x100) * 0x100 + ((w / 0x1_0000) % 0x100) * 0x1_0000 + (
        w / 0x100_0000) * 0x100_0000 == w) by (bit_vector);
    }
    let b0: u8 = (w % 0x100) as u8;
    let b1: u8 = ((w / 0x100) % 0x100) as u8;
    let b2: u8 = ((w / 0x1_0000) % 0x100) as u8;
    let b3: u8 = (w / 0x100_0000) as u8;
    buf[i] = b0;
    buf[i + 1] = b1;
    buf[i + 2] = b2;
    buf[i + 3] = b3;
}

impl Block {
    /// Builds the 512-byte record that carries this block: the exact
    /// preimage of [`Block::parse`]. Unused payload capacity and the
    /// flags and family words are zero.
    pub fn encode(&self) -> (r: Vec<u8>)
        requires
            self.wf(),
        ensures
            r@.len() == BLOCK_LEN,
            spec_parse(r@) == Ok::<BlockModel, FormatError>(self.model()),
    {
        let mut r: Vec<u8> = Vec::new();
        let mut i: usize = 0;
        while i < BLOCK_LEN
            invariant
                i <= BLOCK_LEN,
                r@.len() == i,
            decreases BLOCK_LEN - i,
        {
            r.push(0u8);
            i = i + 1;
        }
        write_le_word(&mut r, 0, MAGIC_START0);
        write_le_word(&mut r, 4, MAGIC_START1);
        write_le_word(&mut r, 12, self.target_address);
        write_le_word(&mut r, 16, self.payload.len() as u32);
        write_le_word(&mut r, 20, self.block_number);
        write_le_word(&mut r, 24, self.block_count);
        let ghost r_mid: Seq<u8> = r@;
        let mut k: usize = 0;
        while k < self.payload.len()
            invariant
                k <= self.payload@.len(),
                self.payload@.len() <= PAYLOAD_CAPACITY,
                r@.len() == BLOCK_LEN,
                r_mid.len() == BLOCK_LEN,
                forall|j: int| 0 <= j < k ==> r@[32 + j] == self.payload@[j],
                forall|j: int|
                    0 <= j < BLOCK_LEN && !(32 <= j < 32 + k) ==> r@[j] == r_mid[j],
            decreases self.payload@.len() - k,
        {
            let b = self.payload[k];
            r[32 + k] = b;
            k = k + 1;
        }
        write_le_word(&mut r, 508, MAGIC_END);
        proof {
            assert(r@.subrange(32, 32 + le_word(r@, 16)) =~= self.payload@);
            assert(spec_parse(r@) == Ok::<BlockModel, FormatError>(self.model()));
        }
        r
    }
}

/// Decodes a whole stream of chunks, one record per chunk: all the blocks in
/// order, or the first record's error. Reading the chunks off storage is the
/// caller's side of the work.
pub fn read_blocks(chunks: &Vec<Vec<u8>>) -> (r: Result<Vec<Block>, FormatError>)
    ensures
        match r {
            Ok(blocks) => {
                &&& blocks@.len() == chunks@.len()
                &&& forall|i: int|
                    0 <= i < chunks@.len() ==> spec_parse(chunks@[i]@) == Ok::<
                        BlockModel,
                        FormatError,
                    >((#[trigger] blocks@[i]).model())
            },
            Err(e) => exists|i: int|
                0 <= i < chunks@.len() && spec_parse(#[trigger] chunks@[i]@) == Err::<
                    BlockModel,
                    FormatError,
                >(e) && (forall|j: int| 0 <= j < i ==> spec_parse(#[trigger] chunks@[j]@) is Ok),
        },
{
    let mut blocks: Vec<Block> = Vec::new();
    let mut i: usize = 0;
    while i < chunks.len()
        invariant
            i <= chunks@.len(),
            blocks@.len() == i,
            forall|j: int|
                0 <= j < i ==> spec_parse(chunks@[j]@) == Ok::<BlockModel, FormatError>(
                    (#[trigger] blocks@[j]).model(),
                ),
        decreases chunks@.len() - i,
    {
        match Block::parse(&chunks[i]) {
            Ok(b) => blocks.push(b),
            Err(e) => {
                proof {
                    assert(spec_parse(chunks@[i as int]@) == Err::<BlockModel, FormatError>(e));
                    assert forall|j: int| 0 <= j < i as int implies spec_parse(
                        #[trigger] chunks@[j]@,
                    ) is Ok by {
                        assert(spec_parse(chunks@[j]@) == Ok::<BlockModel, FormatError>(
                            blocks@[j].model(),
                        ));
                    }
                }
                return Err(e);
            },
        }
        i = i + 1;
    }
    Ok(blocks)
}

} // verus!
