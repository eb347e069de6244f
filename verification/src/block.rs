//! Blocks, the device that stores them, and a one-block cache in front of it.

use vstd::prelude::*;

verus! {

/// A standard 512 byte block (also known as a sector).
#[derive(Clone, Copy)]
pub struct Block {
    /// The 512 bytes in this block.
    pub contents: [u8; 512],
}

/// The numeric address of a block on a device.
#[derive(Clone, Copy, Debug, PartialEq, Eq, Structural)]
pub struct BlockIdx(pub u32);

/// A number of blocks.
#[derive(Clone, Copy, Debug, PartialEq, Eq, Structural)]
pub struct BlockCount(pub u32);

/// What a device stores: the bytes of each block, by block number.
pub type Disk = Map<u32, Seq<u8>>;

/// A block of zeros.
pub open spec fn blank_block() -> Seq<u8> {
    Seq::new(512, |i: int| 0u8)
}

/// `disk` after `blocks` were written one behind the other from `start` on.
pub open spec fn with_blocks(disk: Disk, start: int, blocks: Seq<Block>) -> Disk
    decreases blocks.len(),
{
    if blocks.len() == 0 {
        disk
    } else {
        with_blocks(disk, start, blocks.drop_last()).insert(
            (start + blocks.len() - 1) as u32,
            blocks.last().contents@,
        )
    }
}

impl Block {
    /// All blocks are 512 bytes long.
    pub const LEN: usize = 512;

    /// `Block::LEN` as a `u32`.
    pub const LEN_U32: u32 = 512;

    /// Create a new block full of zeros.
    pub fn new() -> (block: Block)
        ensures
            block.contents@ == blank_block(),
    {
        Block { contents: [0u8; 512] }
    }
}

impl BlockCount {
    /// How many blocks it takes to hold `byte_count` bytes.
    pub fn from_bytes(byte_count: u32) -> (count: BlockCount)
        ensures
            count.0 == (byte_count + 511) / 512,
    {
        let whole: u32 = byte_count / 512;
        if byte_count % 512 == 0 {
            BlockCount(whole)
        } else {
            BlockCount(whole + 1)
        }
    }
}

/// Something that stores blocks.
///
/// Blocks are transferred whole. A write that fails has stored some of the
/// leading blocks it was given and never all of them, so the failed write of a
/// single block changes nothing.
pub trait BlockDevice: Sized {
    /// The errors that the device can report.
    type Error;

    /// What the device stores. An implementation that is not verified need not
    /// say.
    open spec fn disk(&self) -> Disk {
        arbitrary()
    }

    /// Read blocks, starting at the given block number.
    fn read(&self, blocks: &mut [Block], start_block_idx: BlockIdx) -> (result: Result<
        (),
        Self::Error,
    >)
        ensures
            final(blocks)@.len() == old(blocks)@.len(),
            result is Ok ==> forall|k: int|
                0 <= k < old(blocks)@.len() ==> (#[trigger] final(blocks)@[k]).contents@
                    == self.disk()[(start_block_idx.0 + k) as u32],
    ;

    /// Write blocks, starting at the given block number.
    fn write(&mut self, blocks: &[Block], start_block_idx: BlockIdx) -> (result: Result<
        (),
        Self::Error,
    >)
        ensures
            result is Ok ==> final(self).disk() == with_blocks(
                old(self).disk(),
                start_block_idx.0 as int,
                blocks@,
            ),
            result is Err ==> exists|k: int|
                0 <= k && (k < blocks@.len() || k == 0) && final(self).disk() == with_blocks(
                    old(self).disk(),
                    start_block_idx.0 as int,
                    #[trigger] blocks@.take(k),
                ),
    ;

    /// Determine how many blocks this device can hold.
    fn num_blocks(&self) -> Result<BlockCount, Self::Error>;
}

/// A single block of a device, held in memory.
pub struct BlockCache<D: BlockDevice> {
    block_device: D,
    block: [Block; 1],
    block_idx: Option<BlockIdx>,
    faults: Ghost<Seq<D::Error>>,
}

impl<D: BlockDevice> BlockCache<D> {
    /// What the device behind the cache stores.
    pub closed spec fn disk(&self) -> Disk {
        self.block_device.disk()
    }

    /// The number of the block held in memory.
    pub closed spec fn cached(&self) -> Option<u32> {
        match self.block_idx {
            Some(idx) => Some(idx.0),
            None => None,
        }
    }

    /// The bytes held in memory.
    pub closed spec fn buffer(&self) -> Seq<u8> {
        self.block@[0].contents@
    }

    /// The errors that the device has reported so far.
    pub closed spec fn fault_list(&self) -> Seq<D::Error> {
        self.faults@
    }

    /// How many errors the device has reported so far.
    pub open spec fn faults(&self) -> nat {
        self.fault_list().len()
    }

    /// The latest error that the device has reported.
    pub open spec fn last_fault(&self) -> D::Error {
        self.fault_list().last()
    }

    /// Has the device reported no error since `before`?
    pub open spec fn untroubled(&self, before: &BlockCache<D>) -> bool {
        self.fault_list() == before.fault_list()
    }

    /// Is the list of errors that of `before`, or longer?
    pub open spec fn at_or_after(&self, before: &BlockCache<D>) -> bool {
        self.untroubled(before) || self.faults() > before.faults()
    }

    /// Has the device reported exactly one error since `before`, namely `error`?
    pub open spec fn failed_with(&self, before: &BlockCache<D>, error: D::Error) -> bool {
        &&& self.fault_list() == before.fault_list().push(error)
        &&& self.faults() == before.faults() + 1
    }

    /// Is the block held in memory the one that the device stores?
    pub open spec fn clean(&self) -> bool {
        self.cached() matches Some(idx) ==> self.buffer() == self.disk()[idx]
    }

    /// Create a cache that holds no block yet.
    pub fn new(block_device: D) -> (cache: BlockCache<D>)
        ensures
            cache.clean(),
            cache.cached() is None,
            cache.disk() == block_device.disk(),
            cache.faults() == 0,
    {
        BlockCache {
            block_device,
            block: [Block::new()],
            block_idx: None,
            faults: Ghost(Seq::empty()),
        }
    }

    /// Give back the device, without writing anything.
    pub fn free(self) -> (block_device: D)
        ensures
            block_device.disk() == self.disk(),
    {
        self.block_device
    }

    /// Hold the given block in memory.
    fn load(&mut self, block_idx: BlockIdx) -> (result: Result<(), D::Error>)
        requires
            old(self).clean(),
        ensures
            final(self).clean(),
            final(self).disk() == old(self).disk(),
            match result {
                Ok(()) => {
                    &&& final(self).cached() == Some(block_idx.0)
                    &&& final(self).untroubled(old(self))
                },
                Err(error) => final(self).failed_with(old(self), error),
            },
    {
        let hit = match self.block_idx {
            Some(idx) => idx.0 == block_idx.0,
            None => false,
        };
        if !hit {
            self.block_idx = None;
            match self.block_device.read(&mut self.block, block_idx) {
                Ok(()) => {},
                Err(error) => {
                    proof {
                        self.faults@ = self.faults@.push(error);
                    }
                    return Err(error);
                },
            }
            self.block_idx = Some(block_idx);
        }
        Ok(())
    }

    /// Read a block, and return a reference to it.
    pub fn read(&mut self, block_idx: BlockIdx) -> (result: Result<&Block, D::Error>)
        requires
            old(self).clean(),
        ensures
            final(self).clean(),
            final(self).disk() == old(self).disk(),
            match result {
                Ok(block) => {
                    &&& block.contents@ == old(self).disk()[block_idx.0]
                    &&& final(self).untroubled(old(self))
                },
                Err(error) => final(self).failed_with(old(self), error),
            },
    {
        match self.load(block_idx) {
            Ok(()) => Ok(&self.block[0]),
            Err(error) => Err(error),
        }
    }

    /// Read a block, and return a reference through which its copy in memory
    /// can be changed; `write_back` then stores it.
    pub fn read_mut(&mut self, block_idx: BlockIdx) -> (result: Result<&mut Block, D::Error>)
        requires
            old(self).clean(),
        ensures
            final(self).disk() == old(self).disk(),
            match result {
                Ok(block) => {
                    &&& block.contents@ == old(self).disk()[block_idx.0]
                    &&& final(self).cached() == Some(block_idx.0)
                    &&& final(self).buffer() == final(block).contents@
                    &&& final(self).untroubled(old(self))
                },
                Err(error) => {
                    &&& final(self).clean()
                    &&& final(self).failed_with(old(self), error)
                },
            },
    {
        match self.load(block_idx) {
            Ok(()) => Ok(&mut self.block[0]),
            Err(error) => Err(error),
        }
    }

    /// Hold a block of zeros under the given number, and return a reference
    /// through which it can be changed; `write_back` then stores it.
    pub fn blank_mut(&mut self, block_idx: BlockIdx) -> (block: &mut Block)
        ensures
            block.contents@ == blank_block(),
            final(self).disk() == old(self).disk(),
            final(self).cached() == Some(block_idx.0),
            final(self).buffer() == final(block).contents@,
            final(self).untroubled(old(self)),
    {
        self.block_idx = Some(block_idx);
        self.block[0] = Block::new();
        &mut self.block[0]
    }

    /// Store the block held in memory. A failure leaves no block in memory, so
    /// that what could not be stored is not carried along by a later write.
    pub fn write_back(&mut self) -> (result: Result<(), D::Error>)
        requires
            old(self).cached() is Some,
        ensures
            final(self).clean(),
            match result {
                Ok(()) => {
                    &&& final(self).disk() == old(self).disk().insert(
                        old(self).cached()->0,
                        old(self).buffer(),
                    )
                    &&& final(self).untroubled(old(self))
                },
                Err(error) => {
                    &&& final(self).disk() == old(self).disk()
                    &&& final(self).failed_with(old(self), error)
                },
            },
    {
        let block_idx = match self.block_idx {
            Some(block_idx) => block_idx,
            None => return Ok(()),
        };
        self.store(block_idx)
    }

    /// Store the block held in memory, and then store it a second time under
    /// the given number.
    pub fn write_back_with_duplicate(&mut self, duplicate: BlockIdx) -> (result: Result<
        (),
        D::Error,
    >)
        requires
            old(self).cached() is Some,
        ensures
            final(self).clean(),
            ({
                let once = old(self).disk().insert(old(self).cached()->0, old(self).buffer());
                match result {
                    Ok(()) => {
                        &&& final(self).disk() == once.insert(duplicate.0, old(self).buffer())
                        &&& final(self).untroubled(old(self))
                    },
                    Err(error) => {
                        &&& final(self).disk() == old(self).disk() || final(self).disk() == once
                        &&& final(self).failed_with(old(self), error)
                    },
                }
            }),
    {
        let block_idx = match self.block_idx {
            Some(block_idx) => block_idx,
            None => return Ok(()),
        };
        match self.store(block_idx) {
            Ok(()) => self.store(duplicate),
            Err(error) => Err(error),
        }
    }

    /// Store the bytes held in memory under the given number.
    fn store(&mut self, block_idx: BlockIdx) -> (result: Result<(), D::Error>)
        ensures
            match result {
                Ok(()) => {
                    &&& final(self).disk() == old(self).disk().insert(
                        block_idx.0,
                        old(self).buffer(),
                    )
                    &&& final(self).cached() == old(self).cached()
                    &&& final(self).buffer() == old(self).buffer()
                    &&& final(self).untroubled(old(self))
                },
                Err(error) => {
                    &&& final(self).disk() == old(self).disk()
                    &&& final(self).cached() is None
                    &&& final(self).failed_with(old(self), error)
                },
            },
    {
        proof {
            reveal_with_fuel(with_blocks, 2);
        }
        match self.block_device.write(&self.block, block_idx) {
            Ok(()) => {
                assert(self.block@.drop_last() =~= Seq::empty());
                Ok(())
            },
            Err(error) => {
                proof {
                    self.faults@ = self.faults@.push(error);
                }
                self.block_idx = None;
                Err(error)
            },
        }
    }
}

} // verus!
