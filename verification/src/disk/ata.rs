//! The ATA disk controller, as far as it is arithmetic: which bytes go to
//! which ports to ask for sectors, what its status byte says, and where
//! the words that it hands over go.

use vstd::prelude::*;

verus! {

/// The port of the device control register, which switches the
/// controller's interrupt on and off and resets it.
pub const ATA_INTERRUPT_PORT: u16 = 0x3f6;

/// The port that takes the number of sectors.
pub const SECTOR_COUNT_PORT: u16 = 0x1f2;

/// The port that takes the lowest byte of the block address.
pub const LBA_LOW_PORT: u16 = 0x1f3;

/// The port that takes the drive and the highest bits of the block
/// address.
pub const DRIVE_PORT: u16 = 0x1f6;

/// The port that the data is fetched from.
pub const DATA_PORT: u16 = 0x1f0;

/// The port that the status byte is fetched from.
pub const STATUS_PORT: u16 = 0x1f7;

/// The port that takes the command.
pub const COMMAND_PORT: u16 = 0x1f7;

/// The command to read sectors.
pub const READ_COMMAND: u8 = 0x20;

/// The bit of the status byte that says that the controller is busy.
pub const STATUS_BUSY: u8 = 0x80;

/// The bit of the status byte that says that the controller is ready.
pub const STATUS_READY: u8 = 0x40;

/// Words of four bytes in a sector of 512 bytes.
pub const WORDS_PER_SECTOR: u32 = 128;

/// A value on its way to a port.
#[derive(Clone, Copy, Debug, PartialEq, Eq, Structural)]
#[allow(inconsistent_fields)]
pub enum PortWrite {
    Byte { port: u16, value: u8 },
    Word { port: u16, value: u16 },
}

/// The byte for the drive register: the master drive, addressed by block,
/// with bits 24 to 27 of the block address.
pub open spec fn drive_select(logical_block_address: u32) -> u8 {
    (0xE0 + (logical_block_address / 0x100_0000) % 16) as u8
}

/// What is written to the ports to ask for `amount_of_sectors` sectors
/// from block `logical_block_address` on: the controller's interrupt is
/// switched off, then come the sector count, the drive byte and the three
/// low bytes of the block address, all three to the port of the lowest,
/// and at last the command to read.
pub open spec fn read_request(logical_block_address: u32, amount_of_sectors: u16) -> Seq<
    PortWrite,
> {
    seq![
        PortWrite::Byte { port: ATA_INTERRUPT_PORT, value: 2 },
        PortWrite::Word { port: SECTOR_COUNT_PORT, value: amount_of_sectors },
        PortWrite::Byte { port: DRIVE_PORT, value: drive_select(logical_block_address) },
        PortWrite::Byte { port: LBA_LOW_PORT, value: (logical_block_address % 256) as u8 },
        PortWrite::Byte { port: LBA_LOW_PORT, value: ((logical_block_address / 256) % 256) as u8 },
        PortWrite::Byte {
            port: LBA_LOW_PORT,
            value: ((logical_block_address / 65536) % 256) as u8,
        },
        PortWrite::Byte { port: COMMAND_PORT, value: READ_COMMAND },
    ]
}

/// The four bytes of a word, lowest first.
pub open spec fn word_bytes(word: u32) -> Seq<u8> {
    seq![
        (word % 256) as u8,
        ((word / 256) % 256) as u8,
        ((word / 65536) % 256) as u8,
        ((word / 16777216) % 256) as u8,
    ]
}

/// The bytes of the words, word after word, each lowest byte first.
pub open spec fn words_bytes(words: Seq<u32>) -> Seq<u8>
    decreases words.len(),
{
    if words.len() == 0 {
        Seq::<u8>::empty()
    } else {
        words_bytes(words.drop_last()) + word_bytes(words.last())
    }
}

/// The first disk on the first ATA controller.
#[derive(Clone, Copy, Debug)]
pub struct Disk;

impl Disk {
    /// What is written to the ports to ask for sectors.
    pub fn read_request(&self, logical_block_address: u32, amount_of_sectors: u16) -> (writes: Vec<
        PortWrite,
    >)
        ensures
            writes@ == read_request(logical_block_address, amount_of_sectors),
    {
        let lba = logical_block_address;
        let drive = (0xE0 | ((lba >> 24) & 0xF)) as u8;
        let low = lba as u8;
        let mid = (lba >> 8) as u8;
        let high = (lba >> 16) as u8;
        proof {
            assert((0xE0 | ((lba >> 24) & 0xF)) as u8 == (0xE0 + (lba / 0x100_0000) % 16) as u8)
                by (bit_vector);
            assert(lba as u8 == (lba % 256) as u8) by (bit_vector);
            assert((lba >> 8) as u8 == ((lba / 256) % 256) as u8) by (bit_vector);
            assert((lba >> 16) as u8 == ((lba / 65536) % 256) as u8) by (bit_vector);
        }
        let mut writes: Vec<PortWrite> = Vec::new();
        writes.push(PortWrite::Byte { port: ATA_INTERRUPT_PORT, value: 2 });
        writes.push(PortWrite::Word { port: SECTOR_COUNT_PORT, value: amount_of_sectors });
        writes.push(PortWrite::Byte { port: DRIVE_PORT, value: drive });
        writes.push(PortWrite::Byte { port: LBA_LOW_PORT, value: low });
        writes.push(PortWrite::Byte { port: LBA_LOW_PORT, value: mid });
        writes.push(PortWrite::Byte { port: LBA_LOW_PORT, value: high });
        writes.push(PortWrite::Byte { port: COMMAND_PORT, value: READ_COMMAND });
        proof {
            assert(writes@ =~= read_request(logical_block_address, amount_of_sectors));
        }
        writes
    }

    /// How many words the controller hands over for `amount_of_sectors`
    /// sectors.
    pub fn words_to_read(&self, amount_of_sectors: u16) -> (count: u32)
        ensures
            count == amount_of_sectors * 128,
    {
        amount_of_sectors as u32 * WORDS_PER_SECTOR
    }

    /// Copies the words that the controller handed over to the end of
    /// `target`, each lowest byte first.
    pub fn read(&self, target: &mut Vec<u8>, words: &Vec<u32>)
        ensures
            final(target)@ == old(target)@ + words_bytes(words@),
    {
        let mut i: usize = 0;
        proof {
            assert(words@.take(0) =~= Seq::<u32>::empty());
            assert(target@ =~= old(target)@ + words_bytes(words@.take(0)));
        }
        while i < words.len()
            invariant
                i <= words.len(),
                target@ == old(target)@ + words_bytes(words@.take(i as int)),
            decreases words.len() - i,
        {
            let word = words[i];
            let b0 = word as u8;
            let b1 = (word >> 8) as u8;
            let b2 = (word >> 16) as u8;
            let b3 = (word >> 24) as u8;
            proof {
                assert(word as u8 == (word % 256) as u8) by (bit_vector);
                assert((word >> 8) as u8 == ((word / 256) % 256) as u8) by (bit_vector);
                assert((word >> 16) as u8 == ((word / 65536) % 256) as u8) by (bit_vector);
                assert((word >> 24) as u8 == ((word / 16777216) % 256) as u8) by (bit_vector);
            }
            target.push(b0);
            target.push(b1);
            target.push(b2);
            target.push(b3);
            proof {
                let next = words@.take(i + 1);
                assert(next.drop_last() =~= words@.take(i as int));
                assert(next.last() == word);
                assert(target@ =~= old(target)@ + words_bytes(next));
            }
            i += 1;
        }
        proof {
            assert(words@.take(words.len() as int) =~= words@);
        }
    }

    /// The status byte says that the controller is ready.
    pub fn is_ready(&self, status: u8) -> (ready: bool)
        ensures
            ready == (status & STATUS_READY != 0),
            ready == ((status / 64) % 2 == 1),
    {
        proof {
            assert((status & 0x40 != 0) == ((status / 64) % 2 == 1)) by (bit_vector);
        }
        (status & STATUS_READY) != 0
    }

    /// The status byte says that the controller is busy.
    pub fn is_busy(&self, status: u8) -> (busy: bool)
        ensures
            busy == (status & STATUS_BUSY != 0),
            busy == (status >= 128),
    {
        proof {
            assert((status & 0x80 != 0) == (status >= 128)) by (bit_vector);
        }
        (status & STATUS_BUSY) != 0
    }

    /// The status byte says that the next word can be fetched: the
    /// controller is ready and not busy.
    pub fn can_transfer(&self, status: u8) -> (go: bool)
        ensures
            go == (status & STATUS_READY != 0 && status & STATUS_BUSY == 0),
            go == (64 <= status < 128),
    {
        proof {
            assert((status & 0x40 != 0 && status & 0x80 == 0) == (64 <= status < 128))
                by (bit_vector);
        }
        !(self.is_busy(status) || !self.is_ready(status))
    }

    /// What is written to the ports after a transfer: the controller is
    /// reset, and its interrupt switched off again.
    pub fn reset(&self) -> (writes: Vec<PortWrite>)
        ensures
            writes@ == seq![
                PortWrite::Byte { port: ATA_INTERRUPT_PORT, value: 6 },
                PortWrite::Byte { port: ATA_INTERRUPT_PORT, value: 2 },
            ],
    {
        let mut writes: Vec<PortWrite> = Vec::new();
        writes.push(PortWrite::Byte { port: ATA_INTERRUPT_PORT, value: 6 });
        writes.push(PortWrite::Byte { port: ATA_INTERRUPT_PORT, value: 2 });
        proof {
            assert(writes@ =~= seq![
                PortWrite::Byte { port: ATA_INTERRUPT_PORT, value: 6 },
                PortWrite::Byte { port: ATA_INTERRUPT_PORT, value: 2 },
            ]);
        }
        writes
    }
}

} // verus!
