use kernel::disk::ata::{Disk, PortWrite};
use kernel::disk::fat16::Fat16;

fn sector() -> Vec<u8> {
    let mut sector = vec![0u8; 512];
    sector[0] = 0xeb;
    sector[1] = 0x3c;
    sector[2] = 0x90;
    sector[3..11].copy_from_slice(b"MSWIN4.1");
    sector[12] = 0x00;
    sector[13] = 0x02;
    sector[14] = 4;
    sector[16] = 0x34;
    sector[17] = 0x12;
    sector[32..36].copy_from_slice(&[0x78, 0x56, 0x34, 0x12]);
    sector[44..48].copy_from_slice(&[0xef, 0xbe, 0xad, 0xde]);
    sector[48..59].copy_from_slice(b"NO NAME    ");
    sector[59..67].copy_from_slice(b"FAT16   ");
    sector
}

#[test]
fn read_request_names_drive_and_block() {
    let writes = Disk.read_request(0x0123_4567, 1);
    assert_eq!(
        writes,
        vec![
            PortWrite::Byte { port: 0x3f6, value: 2 },
            PortWrite::Word { port: 0x1f2, value: 1 },
            PortWrite::Byte { port: 0x1f6, value: 0xe1 },
            PortWrite::Byte { port: 0x1f3, value: 0x67 },
            PortWrite::Byte { port: 0x1f3, value: 0x45 },
            PortWrite::Byte { port: 0x1f3, value: 0x23 },
            PortWrite::Byte { port: 0x1f7, value: 0x20 },
        ]
    );
    let writes = Disk.read_request(0xffff_ffff, 0xffff);
    assert_eq!(writes[1], PortWrite::Word { port: 0x1f2, value: 0xffff });
    assert_eq!(writes[2], PortWrite::Byte { port: 0x1f6, value: 0xef });
    let writes = Disk.read_request(0, 1);
    assert_eq!(writes[2], PortWrite::Byte { port: 0x1f6, value: 0xe0 });
}

#[test]
fn status_bits() {
    assert!(Disk.is_ready(0x40));
    assert!(Disk.is_ready(0x58));
    assert!(!Disk.is_ready(0x80));
    assert!(!Disk.is_ready(0));
    assert!(Disk.is_busy(0x80));
    assert!(Disk.is_busy(0xd0));
    assert!(!Disk.is_busy(0x40));
    assert!(!Disk.is_busy(0x7f));
    assert!(Disk.can_transfer(0x40));
    assert!(Disk.can_transfer(0x58));
    assert!(!Disk.can_transfer(0xc0));
    assert!(!Disk.can_transfer(0x80));
    assert!(!Disk.can_transfer(0x00));
}

#[test]
fn words_come_lowest_byte_first() {
    let mut target = vec![9u8];
    Disk.read(&mut target, &vec![0x0403_0201, 0xdead_beef]);
    assert_eq!(target, vec![9, 1, 2, 3, 4, 0xef, 0xbe, 0xad, 0xde]);
    Disk.read(&mut target, &Vec::new());
    assert_eq!(target.len(), 9);
    assert_eq!(Disk.words_to_read(1), 128);
    assert_eq!(Disk.words_to_read(0xffff), 0xffff * 128);
}

#[test]
fn reset_writes() {
    assert_eq!(
        Disk.reset(),
        vec![PortWrite::Byte { port: 0x3f6, value: 6 }, PortWrite::Byte { port: 0x3f6, value: 2 }]
    );
}

#[test]
fn boot_record_fields() {
    let volume = Fat16::new(&sector()).unwrap();
    let record = volume.boot_record();
    assert_eq!(record.bios_parameter_block.jmp_short3c_nop, vec![0xeb, 0x3c, 0x90]);
    assert_eq!(record.bios_parameter_block.oem_identifier, b"MSWIN4.1".to_vec());
    assert_eq!(record.bios_parameter_block.bytes_per_sector, 512);
    assert_eq!(record.bios_parameter_block.sectors_per_cluster, 4);
    assert_eq!(record.bios_parameter_block.reserved_sectors, 0x1234);
    assert_eq!(record.bios_parameter_block.number_of_hidden_sectors, 0x1234_5678);
    assert_eq!(record.extended_boot_record.serial, 0xdead_beef);
    assert_eq!(record.extended_boot_record.label, b"NO NAME    ".to_vec());
    assert_eq!(record.extended_boot_record.system_identifier, b"FAT16   ".to_vec());
}

#[test]
fn a_short_sector_is_no_volume() {
    assert!(Fat16::new(&[0u8; 511]).is_none());
    assert!(Fat16::new(&[]).is_none());
    assert!(Fat16::new(&[0u8; 512]).is_some());
    assert!(Fat16::new(&[0u8; 600]).is_some());
}

#[test]
fn info_names_formatter_and_label() {
    let volume = Fat16::new(&sector()).unwrap();
    assert_eq!(volume.info(), "OEM Identifier: MSWIN4.1\nLabel: NO NAME    ");
}

#[test]
fn info_replaces_what_is_not_text() {
    let mut bytes = sector();
    bytes[3] = 0xff;
    bytes[48] = 0xc3;
    bytes[49] = 0xa9;
    let volume = Fat16::new(&bytes).unwrap();
    assert_eq!(volume.info(), "OEM Identifier: \u{fffd}SWIN4.1\nLabel: \u{e9} NAME    ");
}

#[test]
fn describe_puts_the_two_lines_together() {
    assert_eq!(Fat16::describe("mkfs.fat", "DATA"), "OEM Identifier: mkfs.fat\nLabel: DATA");
    assert_eq!(Fat16::describe("", ""), "OEM Identifier: \nLabel: ");
}
