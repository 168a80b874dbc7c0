//! The boot record in the first sector of a FAT16 volume.

use vstd::prelude::*;
use vstd::string::StringExecFns;

verus! {

/// Bytes in a sector.
pub const SECTOR_SIZE: usize = 512;

/// The text that `String::from_utf8_lossy` of the standard library makes
/// of the bytes: the text that they encode in UTF-8, with the replacement
/// character in the place of each part that encodes nothing.
pub uninterp spec fn utf8_lossy(bytes: Seq<u8>) -> Seq<char>;

/// `String::from_utf8_lossy` of the standard library, made an owned
/// string. What it returns depends on the bytes alone.
#[verifier::external_body]
fn from_utf8_lossy(bytes: &[u8]) -> (text: String)
    ensures
        text@ == utf8_lossy(bytes@),
{
    String::from_utf8_lossy(bytes).into_owned()
}

/// The number that two bytes give, lowest first.
pub open spec fn u16_at(bytes: Seq<u8>, offset: int) -> int {
    bytes[offset] + 256 * bytes[offset + 1]
}

/// The number that four bytes give, lowest first.
pub open spec fn u32_at(bytes: Seq<u8>, offset: int) -> int {
    bytes[offset] + 256 * bytes[offset + 1] + 65536 * bytes[offset + 2] + 16777216 * bytes[offset
        + 3]
}

fn read_u16(sector: &[u8], offset: usize) -> (value: u16)
    requires
        offset + 2 <= sector@.len(),
    ensures
        value == u16_at(sector@, offset as int),
{
    sector[offset] as u16 + 256 * (sector[offset + 1] as u16)
}

fn read_u32(sector: &[u8], offset: usize) -> (value: u32)
    requires
        offset + 4 <= sector@.len(),
    ensures
        value == u32_at(sector@, offset as int),
{
    sector[offset] as u32 + 256 * (sector[offset + 1] as u32) + 65536 * (sector[offset + 2] as u32)
        + 16777216 * (sector[offset + 3] as u32)
}

fn read_bytes(sector: &[u8], offset: usize, count: usize) -> (bytes: Vec<u8>)
    requires
        offset + count <= sector@.len(),
    ensures
        bytes@ == sector@.subrange(offset as int, offset + count),
{
    let mut bytes: Vec<u8> = Vec::new();
    let mut i: usize = 0;
    let length = sector.len();
    while i < count
        invariant
            i <= count,
            length == sector@.len(),
            offset + count <= sector@.len(),
            bytes@ == sector@.subrange(offset as int, offset + i),
        decreases count - i,
    {
        bytes.push(sector[offset + i]);
        proof {
            assert(bytes@ =~= sector@.subrange(offset as int, offset + i + 1));
        }
        i += 1;
    }
    bytes
}

/// The first part of the boot record. Each field lies at the first offset
/// after the field before it that is a multiple of its own size.
#[derive(Debug)]
pub struct BiosParameterBlock {
    pub jmp_short3c_nop: Vec<u8>,
    pub oem_identifier: Vec<u8>,
    pub bytes_per_sector: u16,
    pub sectors_per_cluster: u8,
    pub reserved_sectors: u16,
    pub number_of_tables: u8,
    pub number_of_root_entries: u16,
    pub sector_count: u16,
    pub media_descriptor_type: u8,
    pub sectors_per_fat: u16,
    pub sectors_per_track: u16,
    pub number_of_heads: u16,
    pub number_of_hidden_sectors: u32,
    pub large_sector_count: u32,
}

/// The second part of the boot record, from offset 40 on, up to the
/// name of the file system. Each field lies at the first offset after the
/// field before it that is a multiple of its own size.
#[derive(Debug)]
pub struct ExtendedBootRecord {
    pub drive_number: u8,
    pub reserved: u8,
    pub signature: u8,
    pub serial: u32,
    pub label: Vec<u8>,
    pub system_identifier: Vec<u8>,
}

/// The boot record: its two parts.
#[derive(Debug)]
pub struct BootRecord {
    pub bios_parameter_block: BiosParameterBlock,
    pub extended_boot_record: ExtendedBootRecord,
}

/// The boot record that the sector holds.
pub open spec fn boot_record_of(sector: Seq<u8>, record: BootRecord) -> bool {
    let bpb = record.bios_parameter_block;
    let ebr = record.extended_boot_record;
    &&& bpb.jmp_short3c_nop@ == sector.subrange(0, 3)
    &&& bpb.oem_identifier@ == sector.subrange(3, 11)
    &&& bpb.bytes_per_sector == u16_at(sector, 12)
    &&& bpb.sectors_per_cluster == sector[14]
    &&& bpb.reserved_sectors == u16_at(sector, 16)
    &&& bpb.number_of_tables == sector[18]
    &&& bpb.number_of_root_entries == u16_at(sector, 20)
    &&& bpb.sector_count == u16_at(sector, 22)
    &&& bpb.media_descriptor_type == sector[24]
    &&& bpb.sectors_per_fat == u16_at(sector, 26)
    &&& bpb.sectors_per_track == u16_at(sector, 28)
    &&& bpb.number_of_heads == u16_at(sector, 30)
    &&& bpb.number_of_hidden_sectors == u32_at(sector, 32)
    &&& bpb.large_sector_count == u32_at(sector, 36)
    &&& ebr.drive_number == sector[40]
    &&& ebr.reserved == sector[41]
    &&& ebr.signature == sector[42]
    &&& ebr.serial == u32_at(sector, 44)
    &&& ebr.label@ == sector.subrange(48, 59)
    &&& ebr.system_identifier@ == sector.subrange(59, 67)
}

/// A FAT16 volume, known by its boot record.
#[derive(Debug)]
pub struct Fat16 {
    boot_record: BootRecord,
}

impl Fat16 {
    /// The boot record.
    pub closed spec fn record(&self) -> BootRecord {
        self.boot_record
    }

    /// The volume whose first sector is `sector`; `None` if `sector` is
    /// shorter than a sector.
    pub fn new(sector: &[u8]) -> (volume: Option<Fat16>)
        ensures
            volume is Some <==> sector@.len() >= 512,
            volume is Some ==> boot_record_of(sector@, volume.unwrap().record()),
    {
        if sector.len() < SECTOR_SIZE {
            return None;
        }
        let bios_parameter_block = BiosParameterBlock {
            jmp_short3c_nop: read_bytes(sector, 0, 3),
            oem_identifier: read_bytes(sector, 3, 8),
            bytes_per_sector: read_u16(sector, 12),
            sectors_per_cluster: sector[14],
            reserved_sectors: read_u16(sector, 16),
            number_of_tables: sector[18],
            number_of_root_entries: read_u16(sector, 20),
            sector_count: read_u16(sector, 22),
            media_descriptor_type: sector[24],
            sectors_per_fat: read_u16(sector, 26),
            sectors_per_track: read_u16(sector, 28),
            number_of_heads: read_u16(sector, 30),
            number_of_hidden_sectors: read_u32(sector, 32),
            large_sector_count: read_u32(sector, 36),
        };
        let extended_boot_record = ExtendedBootRecord {
            drive_number: sector[40],
            reserved: sector[41],
            signature: sector[42],
            serial: read_u32(sector, 44),
            label: read_bytes(sector, 48, 11),
            system_identifier: read_bytes(sector, 59, 8),
        };
        Some(Fat16 { boot_record: BootRecord { bios_parameter_block, extended_boot_record } })
    }

    /// The boot record.
    pub fn boot_record(&self) -> (record: &BootRecord)
        ensures
            *record == self.record(),
    {
        &self.boot_record
    }

    /// Two lines of text: who formatted the volume, and its label, each
    /// read as UTF-8 as far as it is.
    pub fn info(&self) -> (info: String)
        ensures
            info@ == info_text(
                utf8_lossy(self.record().bios_parameter_block.oem_identifier@),
                utf8_lossy(self.record().extended_boot_record.label@),
            ),
    {
        let oem = from_utf8_lossy(self.boot_record.bios_parameter_block.oem_identifier.as_slice());
        let label = from_utf8_lossy(self.boot_record.extended_boot_record.label.as_slice());
        Self::describe(oem.as_str(), label.as_str())
    }

    /// Two lines of text that name who formatted a volume and its label.
    pub fn describe(oem_identifier: &str, label: &str) -> (info: String)
        ensures
            info@ == info_text(oem_identifier@, label@),
    {
        let mut info = String::new();
        info.append("OEM Identifier: ");
        info.append(oem_identifier);
        info.append("\n");
        info.append("Label: ");
        info.append(label);
        proof {
            assert(info@ =~= info_text(oem_identifier@, label@));
        }
        info
    }
}

/// Two lines of text that name who formatted a volume and its label.
pub open spec fn info_text(oem_identifier: Seq<char>, label: Seq<char>) -> Seq<char> {
    "OEM Identifier: "@ + oem_identifier + "\n"@ + "Label: "@ + label
}

} // verus!
