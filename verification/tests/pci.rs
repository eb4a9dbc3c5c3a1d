use hyperion::pci::{pci_config_address, pci_config_word, ConfigRead, Device, DeviceLocation, DeviceScan};

#[test]
fn config_address_and_word() {
    assert_eq!(pci_config_address(1, 2, 3, 0x0E), 0x8001_130C);
    assert_eq!(pci_config_word(0x1234_5678, 0), 0x5678);
    assert_eq!(pci_config_word(0x1234_5678, 2), 0x1234);
    assert_eq!(pci_config_word(0x1234_5678, 0xA), 0x1234);
}

#[test]
fn device_names() {
    let loc = DeviceLocation { bus: 0, device: 3, func: 0 };
    let d = Device::from_config(loc, 0x8086, 0x100E, 0x0003, 0x0200);
    assert_eq!((d.class, d.subclass, d.prog_if, d.rev_id), (2, 0, 0, 3));
    assert_eq!(d.class_name(), "Network Controller");
    assert_eq!(d.subclass_name(), "Ethernet controller");
    assert_eq!((d.bus(), d.device(), d.func()), (0, 3, 0));
    let b = Device::from_config(loc, 0x8086, 0x1237, 0, 0x0600);
    assert_eq!(b.subclass_name(), "Host bridge");
    let r = Device::from_config(loc, 1, 1, 0, 0x3300);
    assert_eq!(r.class_name(), "(Reserved)");
    assert_eq!(r.subclass_name(), "unknown");
}

/// Configuration space with a device at bus 0 slot 1: its function 0 has the class
/// word `class`, and function 2 exists when `second` is set.
fn config_word(read: ConfigRead, class: u16, second: bool) -> u16 {
    let present = read.bus == 0 && read.device == 1 && (read.func == 0 || (second && read.func == 2));
    if !present {
        return 0xFFFF;
    }
    match read.offset {
        0 => 0x8086,
        2 => 0x100E + read.func as u16,
        8 => 0x0103,
        0xA => class,
        _ => 0,
    }
}

fn scan(class: u16, second: bool) -> (Vec<Device>, usize) {
    let mut s = DeviceScan::new();
    let mut found = Vec::new();
    let mut reads = 0;
    while let Some(read) = s.next_read() {
        reads += 1;
        if let Some(d) = s.feed(config_word(read, class, second)) {
            found.push(d);
        }
    }
    (found, reads)
}

#[test]
fn scan_finds_a_single_function_device() {
    let (found, reads) = scan(0x0200, true);
    assert_eq!(found.len(), 1);
    let d = found[0];
    assert_eq!((d.location.bus, d.location.device, d.location.func), (0, 1, 0));
    assert_eq!((d.vendor_id, d.device_id, d.class, d.subclass), (0x8086, 0x100E, 2, 0));
    // one vendor read per slot, and five more reads for the device
    assert_eq!(reads, 8192 + 5);
}

#[test]
fn scan_takes_the_header_type_from_offset_a() {
    // the word read for the header type is the class word: subclass 0x80 marks the
    // device as having several functions
    let (found, reads) = scan(0x0680, true);
    assert_eq!(found.len(), 2);
    assert_eq!(found[1].location.func, 2);
    assert_eq!(found[1].device_id, 0x1010);
    assert_eq!(reads, 8192 + 1 + 2 * 4 + 6);
}
