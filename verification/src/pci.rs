//! PCI devices: names of device classes, configuration space addressing, and the
//! scan over all buses, devices and functions.

use vstd::prelude::*;

verus! {

/// The name of PCI device class `class`.
pub open spec fn spec_class_name(class: u8) -> &'static str {
    match class {
        0x0 => "Unclassified",
        0x1 => "Mass Storage Controller",
        0x2 => "Network Controller",
        0x3 => "Display Controller",
        0x4 => "Multimedia Controller",
        0x5 => "Memory Controller",
        0x6 => "Bridge",
        0x7 => "Simple Communication Controller",
        0x8 => "Base System Peripheral",
        0x9 => "Input Device Controller",
        0xA => "Docking Station",
        0xB => "Processor",
        0xC => "Serial Bus Controller",
        0xD => "Wireless Controller",
        0xE => "Intelligent Controller",
        0xF => "Satellite Communication Controller",
        0x10 => "Encryption Controller",
        0x11 => "Signal Processing Controller",
        0x12 => "Processing Accelerator",
        0x13 => "Non-Essential Instrumentation",
        0x40 => "Co-Processor",
        0xFF => "Unassigned Class (Vendor specific)",
        _ => "(Reserved)",
    }
}

/// The name of subclass `subclass` of PCI device class `class`.
pub open spec fn spec_subclass_name(class: u8, subclass: u8) -> &'static str {
    match (class, subclass) {
        (0x0, 0x0) => "VGA incompatible controller unclassified device",
        (0x0, 0x1) => "VGA incompatible controller unclassified device",
        (0x0, _) => "Unknown unclassified device",
        (0x1, 0x0) => "SCSI bus controller",
        (0x1, 0x1) => "IDE controller",
        (0x1, 0x2) => "Floppy disk controller",
        (0x1, 0x3) => "IPI bus controller",
        (0x1, 0x4) => "RAID controller",
        (0x1, 0x5) => "ATA controller",
        (0x1, 0x6) => "SATA controller",
        (0x1, 0x7) => "Serial attached SCSI controller",
        (0x1, 0x8) => "Non-Volatile memory controller",
        (0x1, 0x80) => "Other storage controller",
        (0x1, _) => "Unknown storage controller",
        (0x2, 0x0) => "Ethernet controller",
        (0x2, 0x1) => "Token ring controller",
        (0x2, 0x2) => "FDDI controller",
        (0x2, 0x3) => "ATM controller",
        (0x2, 0x4) => "ISDN controller",
        (0x2, 0x5) => "WorldFip controller",
        (0x2, 0x6) => "PICMG 2.14 multi-computing controller",
        (0x2, 0x7) => "Infiniband controller",
        (0x2, 0x8) => "Fabric controller",
        (0x2, 0x80) => "Other network controller",
        (0x2, _) => "Unknown network controller",
        (0x3, 0x0) => "VGA compatible controller",
        (0x3, 0x1) => "XGA controller",
        (0x3, 0x2) => "3D Controller",
        (0x3, 0x80) => "Other display controller",
        (0x3, _) => "Unknown display controller",
        (0x6, 0x0) => "Host bridge",
        (0x6, 0x1) => "ISA bridge",
        (0x6, 0x2) => "EISA bridge",
        (0x6, 0x3) => "MCA bridge",
        (0x6, 0x4) => "PCI-to-PCI bridge",
        (0x6, 0x5) => "PCMCIA bridge",
        (0x6, 0x6) => "NuBus bridge",
        (0x6, 0x7) => "CardBus bridge",
        (0x6, 0x8) => "RACEway bridge",
        (0x6, 0x9) => "PCI-to-PCI bridge",
        (0x6, 0xA) => "InfiniBand-to-PCI host bridge",
        (0x6, 0x80) => "Other bridge",
        (0x6, _) => "Unknown bridge",
        (0xC, 0x0) => "FireWire (IEEE 1394) controller",
        (0xC, 0x1) => "ACCESS bus controller",
        (0xC, 0x2) => "SSA controller",
        (0xC, 0x3) => "USB controller",
        (0xC, 0x4) => "Fibre controller",
        (0xC, 0x5) => "SMBus controller",
        (0xC, 0x6) => "InfiniBand controller",
        (0xC, 0x7) => "IPMI controller",
        (0xC, 0x8) => "SERCOS interface (IEC 61491)",
        (0xC, 0x9) => "CANbus controller",
        (0xC, 0x80) => "Other serial bus controller",
        (0xC, _) => "Unknown serial bus controller",
        _ => "unknown",
    }
}

/// Where a device sits: bus, device slot and function.
#[derive(Debug, Clone, Copy, PartialEq, Eq, Structural)]
pub struct DeviceLocation {
    pub bus: u8,
    pub device: u8,
    pub func: u8,
}

/// A PCI device function as its configuration space describes it.
#[derive(Debug, Clone, Copy, PartialEq, Eq, Structural)]
pub struct Device {
    pub location: DeviceLocation,
    pub vendor_id: u16,
    pub device_id: u16,
    pub class: u8,
    pub subclass: u8,
    pub prog_if: u8,
    pub rev_id: u8,
}

impl Device {
    /// The device at `location` whose configuration words are `vendor_id`, `device_id`,
    /// `progif_rev` (offset 8) and `class_subclass` (offset 10).
    pub fn from_config(
        location: DeviceLocation,
        vendor_id: u16,
        device_id: u16,
        progif_rev: u16,
        class_subclass: u16,
    ) -> (r: Device)
        ensures
            r.location == location,
            r.vendor_id == vendor_id,
            r.device_id == device_id,
            r.class == class_subclass / 256,
            r.subclass == class_subclass % 256,
            r.prog_if == progif_rev / 256,
            r.rev_id == progif_rev % 256,
    {
        assert(class_subclass >> 8 == class_subclass / 256 && class_subclass & 0xFF == class_subclass % 256
            && progif_rev >> 8 == progif_rev / 256 && progif_rev & 0xFF == progif_rev % 256) by (bit_vector);
        Device {
            location,
            vendor_id,
            device_id,
            class: (class_subclass >> 8) as u8,
            subclass: (class_subclass & 0xFF) as u8,
            prog_if: (progif_rev >> 8) as u8,
            rev_id: (progif_rev & 0xFF) as u8,
        }
    }

    pub fn class_name(&self) -> (r: &'static str)
        ensures
            r == spec_class_name(self.class),
            self.class == 0xC <==> r == "Serial Bus Controller",
            self.class == 0xD <==> r == "Wireless Controller",
    {
        proof {
            lemma_class_names(self.class);
        }
        match self.class {
            0x0 => "Unclassified",
            0x1 => "Mass Storage Controller",
            0x2 => "Network Controller",
            0x3 => "Display Controller",
            0x4 => "Multimedia Controller",
            0x5 => "Memory Controller",
            0x6 => "Bridge",
            0x7 => "Simple Communication Controller",
            0x8 => "Base System Peripheral",
            0x9 => "Input Device Controller",
            0xA => "Docking Station",
            0xB => "Processor",
            0xC => "Serial Bus Controller",
            0xD => "Wireless Controller",
            0xE => "Intelligent Controller",
            0xF => "Satellite Communication Controller",
            0x10 => "Encryption Controller",
            0x11 => "Signal Processing Controller",
            0x12 => "Processing Accelerator",
            0x13 => "Non-Essential Instrumentation",
            0x40 => "Co-Processor",
            0xFF => "Unassigned Class (Vendor specific)",
            _ => "(Reserved)",
        }
    }

    pub fn subclass_name(&self) -> (r: &'static str)
        ensures
            r == spec_subclass_name(self.class, self.subclass),
    {
        match (self.class, self.subclass) {
            (0x0, 0x0) => "VGA incompatible controller unclassified device",
            (0x0, 0x1) => "VGA incompatible controller unclassified device",
            (0x0, _) => "Unknown unclassified device",
            (0x1, 0x0) => "SCSI bus controller",
            (0x1, 0x1) => "IDE controller",
            (0x1, 0x2) => "Floppy disk controller",
            (0x1, 0x3) => "IPI bus controller",
            (0x1, 0x4) => "RAID controller",
            (0x1, 0x5) => "ATA controller",
            (0x1, 0x6) => "SATA controller",
            (0x1, 0x7) => "Serial attached SCSI controller",
            (0x1, 0x8) => "Non-Volatile memory controller",
            (0x1, 0x80) => "Other storage controller",
            (0x1, _) => "Unknown storage controller",
            (0x2, 0x0) => "Ethernet controller",
            (0x2, 0x1) => "Token ring controller",
            (0x2, 0x2) => "FDDI controller",
            (0x2, 0x3) => "ATM controller",
            (0x2, 0x4) => "ISDN controller",
            (0x2, 0x5) => "WorldFip controller",
            (0x2, 0x6) => "PICMG 2.14 multi-computing controller",
            (0x2, 0x7) => "Infiniband controller",
            (0x2, 0x8) => "Fabric controller",
            (0x2, 0x80) => "Other network controller",
            (0x2, _) => "Unknown network controller",
            (0x3, 0x0) => "VGA compatible controller",
            (0x3, 0x1) => "XGA controller",
            (0x3, 0x2) => "3D Controller",
            (0x3, 0x80) => "Other display controller",
            (0x3, _) => "Unknown display controller",
            (0x6, 0x0) => "Host bridge",
            (0x6, 0x1) => "ISA bridge",
            (0x6, 0x2) => "EISA bridge",
            (0x6, 0x3) => "MCA bridge",
            (0x6, 0x4) => "PCI-to-PCI bridge",
            (0x6, 0x5) => "PCMCIA bridge",
            (0x6, 0x6) => "NuBus bridge",
            (0x6, 0x7) => "CardBus bridge",
            (0x6, 0x8) => "RACEway bridge",
            (0x6, 0x9) => "PCI-to-PCI bridge",
            (0x6, 0xA) => "InfiniBand-to-PCI host bridge",
            (0x6, 0x80) => "Other bridge",
            (0x6, _) => "Unknown bridge",
            (0xC, 0x0) => "FireWire (IEEE 1394) controller",
            (0xC, 0x1) => "ACCESS bus controller",
            (0xC, 0x2) => "SSA controller",
            (0xC, 0x3) => "USB controller",
            (0xC, 0x4) => "Fibre controller",
            (0xC, 0x5) => "SMBus controller",
            (0xC, 0x6) => "InfiniBand controller",
            (0xC, 0x7) => "IPMI controller",
            (0xC, 0x8) => "SERCOS interface (IEC 61491)",
            (0xC, 0x9) => "CANbus controller",
            (0xC, 0x80) => "Other serial bus controller",
            (0xC, _) => "Unknown serial bus controller",
            _ => "unknown",
        }
    }

    pub fn bus(&self) -> (r: u8)
        ensures
            r == self.location.bus,
    {
        self.location.bus
    }

    pub fn device(&self) -> (r: u8)
        ensures
            r == self.location.device,
    {
        self.location.device
    }

    pub fn func(&self) -> (r: u8)
        ensures
            r == self.location.func,
    {
        self.location.func
    }
}

/// The PCI class code table: each defined class code has its own name, and every
/// other code is reserved. A name belongs to exactly one defined code.
pub proof fn lemma_class_names(class: u8)
    ensures
        spec_class_name(class) == "Unclassified" <==> class == 0x0,
        spec_class_name(class) == "Mass Storage Controller" <==> class == 0x1,
        spec_class_name(class) == "Network Controller" <==> class == 0x2,
        spec_class_name(class) == "Display Controller" <==> class == 0x3,
        spec_class_name(class) == "Multimedia Controller" <==> class == 0x4,
        spec_class_name(class) == "Memory Controller" <==> class == 0x5,
        spec_class_name(class) == "Bridge" <==> class == 0x6,
        spec_class_name(class) == "Simple Communication Controller" <==> class == 0x7,
        spec_class_name(class) == "Base System Peripheral" <==> class == 0x8,
        spec_class_name(class) == "Input Device Controller" <==> class == 0x9,
        spec_class_name(class) == "Docking Station" <==> class == 0xA,
        spec_class_name(class) == "Processor" <==> class == 0xB,
        spec_class_name(class) == "Serial Bus Controller" <==> class == 0xC,
        spec_class_name(class) == "Wireless Controller" <==> class == 0xD,
        spec_class_name(class) == "Intelligent Controller" <==> class == 0xE,
        spec_class_name(class) == "Satellite Communication Controller" <==> class == 0xF,
        spec_class_name(class) == "Encryption Controller" <==> class == 0x10,
        spec_class_name(class) == "Signal Processing Controller" <==> class == 0x11,
        spec_class_name(class) == "Processing Accelerator" <==> class == 0x12,
        spec_class_name(class) == "Non-Essential Instrumentation" <==> class == 0x13,
        spec_class_name(class) == "Co-Processor" <==> class == 0x40,
        spec_class_name(class) == "Unassigned Class (Vendor specific)" <==> class == 0xFF,
        spec_class_name(class) == "(Reserved)" <==> (class != 0x0 && class != 0x1 && class != 0x2 && class != 0x3 && class != 0x4 && class != 0x5 && class != 0x6 && class != 0x7 && class != 0x8 && class != 0x9 && class != 0xA && class != 0xB && class != 0xC && class != 0xD && class != 0xE && class != 0xF && class != 0x10 && class != 0x11 && class != 0x12 && class != 0x13 && class != 0x40 && class != 0xFF),
{
}

/// The PCI subclass table: the name of each defined subclass of the classes that
/// have subclass names, the class's own "unknown" name for its other subclasses, and
/// "unknown" for every other class.
pub proof fn lemma_subclass_names(class: u8, subclass: u8)
    ensures
        class == 0x0 && subclass == 0x0 ==> spec_subclass_name(class, subclass) == "VGA incompatible controller unclassified device",
        class == 0x0 && subclass == 0x1 ==> spec_subclass_name(class, subclass) == "VGA incompatible controller unclassified device",
        class == 0x0 && subclass != 0x0 && subclass != 0x1 ==> spec_subclass_name(class, subclass) == "Unknown unclassified device",
        class == 0x1 && subclass == 0x0 ==> spec_subclass_name(class, subclass) == "SCSI bus controller",
        class == 0x1 && subclass == 0x1 ==> spec_subclass_name(class, subclass) == "IDE controller",
        class == 0x1 && subclass == 0x2 ==> spec_subclass_name(class, subclass) == "Floppy disk controller",
        class == 0x1 && subclass == 0x3 ==> spec_subclass_name(class, subclass) == "IPI bus controller",
        class == 0x1 && subclass == 0x4 ==> spec_subclass_name(class, subclass) == "RAID controller",
        class == 0x1 && subclass == 0x5 ==> spec_subclass_name(class, subclass) == "ATA controller",
        class == 0x1 && subclass == 0x6 ==> spec_subclass_name(class, subclass) == "SATA controller",
        class == 0x1 && subclass == 0x7 ==> spec_subclass_name(class, subclass) == "Serial attached SCSI controller",
        class == 0x1 && subclass == 0x8 ==> spec_subclass_name(class, subclass) == "Non-Volatile memory controller",
        class == 0x1 && subclass == 0x80 ==> spec_subclass_name(class, subclass) == "Other storage controller",
        class == 0x1 && subclass != 0x0 && subclass != 0x1 && subclass != 0x2 && subclass != 0x3 && subclass != 0x4 && subclass != 0x5 && subclass != 0x6 && subclass != 0x7 && subclass != 0x8 && subclass != 0x80 ==> spec_subclass_name(class, subclass) == "Unknown storage controller",
        class == 0x2 && subclass == 0x0 ==> spec_subclass_name(class, subclass) == "Ethernet controller",
        class == 0x2 && subclass == 0x1 ==> spec_subclass_name(class, subclass) == "Token ring controller",
        class == 0x2 && subclass == 0x2 ==> spec_subclass_name(class, subclass) == "FDDI controller",
        class == 0x2 && subclass == 0x3 ==> spec_subclass_name(class, subclass) == "ATM controller",
        class == 0x2 && subclass == 0x4 ==> spec_subclass_name(class, subclass) == "ISDN controller",
        class == 0x2 && subclass == 0x5 ==> spec_subclass_name(class, subclass) == "WorldFip controller",
        class == 0x2 && subclass == 0x6 ==> spec_subclass_name(class, subclass) == "PICMG 2.14 multi-computing controller",
        class == 0x2 && subclass == 0x7 ==> spec_subclass_name(class, subclass) == "Infiniband controller",
        class == 0x2 && subclass == 0x8 ==> spec_subclass_name(class, subclass) == "Fabric controller",
        class == 0x2 && subclass == 0x80 ==> spec_subclass_name(class, subclass) == "Other network controller",
        class == 0x2 && subclass != 0x0 && subclass != 0x1 && subclass != 0x2 && subclass != 0x3 && subclass != 0x4 && subclass != 0x5 && subclass != 0x6 && subclass != 0x7 && subclass != 0x8 && subclass != 0x80 ==> spec_subclass_name(class, subclass) == "Unknown network controller",
        class == 0x3 && subclass == 0x0 ==> spec_subclass_name(class, subclass) == "VGA compatible controller",
        class == 0x3 && subclass == 0x1 ==> spec_subclass_name(class, subclass) == "XGA controller",
        class == 0x3 && subclass == 0x2 ==> spec_subclass_name(class, subclass) == "3D Controller",
        class == 0x3 && subclass == 0x80 ==> spec_subclass_name(class, subclass) == "Other display controller",
        class == 0x3 && subclass != 0x0 && subclass != 0x1 && subclass != 0x2 && subclass != 0x80 ==> spec_subclass_name(class, subclass) == "Unknown display controller",
        class == 0x6 && subclass == 0x0 ==> spec_subclass_name(class, subclass) == "Host bridge",
        class == 0x6 && subclass == 0x1 ==> spec_subclass_name(class, subclass) == "ISA bridge",
        class == 0x6 && subclass == 0x2 ==> spec_subclass_name(class, subclass) == "EISA bridge",
        class == 0x6 && subclass == 0x3 ==> spec_subclass_name(class, subclass) == "MCA bridge",
        class == 0x6 && subclass == 0x4 ==> spec_subclass_name(class, subclass) == "PCI-to-PCI bridge",
        class == 0x6 && subclass == 0x5 ==> spec_subclass_name(class, subclass) == "PCMCIA bridge",
        class == 0x6 && subclass == 0x6 ==> spec_subclass_name(class, subclass) == "NuBus bridge",
        class == 0x6 && subclass == 0x7 ==> spec_subclass_name(class, subclass) == "CardBus bridge",
        class == 0x6 && subclass == 0x8 ==> spec_subclass_name(class, subclass) == "RACEway bridge",
        class == 0x6 && subclass == 0x9 ==> spec_subclass_name(class, subclass) == "PCI-to-PCI bridge",
        class == 0x6 && subclass == 0xA ==> spec_subclass_name(class, subclass) == "InfiniBand-to-PCI host bridge",
        class == 0x6 && subclass == 0x80 ==> spec_subclass_name(class, subclass) == "Other bridge",
        class == 0x6 && subclass != 0x0 && subclass != 0x1 && subclass != 0x2 && subclass != 0x3 && subclass != 0x4 && subclass != 0x5 && subclass != 0x6 && subclass != 0x7 && subclass != 0x8 && subclass != 0x9 && subclass != 0xA && subclass != 0x80 ==> spec_subclass_name(class, subclass) == "Unknown bridge",
        class == 0xC && subclass == 0x0 ==> spec_subclass_name(class, subclass) == "FireWire (IEEE 1394) controller",
        class == 0xC && subclass == 0x1 ==> spec_subclass_name(class, subclass) == "ACCESS bus controller",
        class == 0xC && subclass == 0x2 ==> spec_subclass_name(class, subclass) == "SSA controller",
        class == 0xC && subclass == 0x3 ==> spec_subclass_name(class, subclass) == "USB controller",
        class == 0xC && subclass == 0x4 ==> spec_subclass_name(class, subclass) == "Fibre controller",
        class == 0xC && subclass == 0x5 ==> spec_subclass_name(class, subclass) == "SMBus controller",
        class == 0xC && subclass == 0x6 ==> spec_subclass_name(class, subclass) == "InfiniBand controller",
        class == 0xC && subclass == 0x7 ==> spec_subclass_name(class, subclass) == "IPMI controller",
        class == 0xC && subclass == 0x8 ==> spec_subclass_name(class, subclass) == "SERCOS interface (IEC 61491)",
        class == 0xC && subclass == 0x9 ==> spec_subclass_name(class, subclass) == "CANbus controller",
        class == 0xC && subclass == 0x80 ==> spec_subclass_name(class, subclass) == "Other serial bus controller",
        class == 0xC && subclass != 0x0 && subclass != 0x1 && subclass != 0x2 && subclass != 0x3 && subclass != 0x4 && subclass != 0x5 && subclass != 0x6 && subclass != 0x7 && subclass != 0x8 && subclass != 0x9 && subclass != 0x80 ==> spec_subclass_name(class, subclass) == "Unknown serial bus controller",
        class != 0x0 && class != 0x1 && class != 0x2 && class != 0x3 && class != 0x6 && class != 0xC ==> spec_subclass_name(class, subclass) == "unknown",
{
}

/// The fields of a configuration address: bit 31 enables it, bits 16..24 hold the bus,
/// bits 11..16 the device slot, bits 8..11 the function and bits 2..8 the register
/// offset, whose low two bits are cleared; nothing else is set. So two reads of
/// different buses, slots, functions or registers go to different addresses.
pub proof fn lemma_config_address_fields(bus: u8, slot: u8, func: u8, offs: u8)
    requires
        slot < 32,
        func < 8,
    ensures
        (spec_config_address(bus, slot, func, offs) >> 16u32) & 0xFFu32 == bus as u32,
        (spec_config_address(bus, slot, func, offs) >> 11u32) & 0x1Fu32 == slot as u32,
        (spec_config_address(bus, slot, func, offs) >> 8u32) & 0x7u32 == func as u32,
        spec_config_address(bus, slot, func, offs) & 0xFFu32 == (offs as u32) & 0xFCu32,
        spec_config_address(bus, slot, func, offs) & 0x7F00_0000u32 == 0,
        spec_config_address(bus, slot, func, offs) & 0x8000_0000u32 != 0,
{
    let b = bus as u32;
    let s = slot as u32;
    let f = func as u32;
    let o = offs as u32;
    assert({
        let r = (b << 16u32) | (s << 11u32) | (f << 8u32) | (o & 0xFCu32) | 0x8000_0000u32;
        &&& (r >> 16u32) & 0xFFu32 == b
        &&& (r >> 11u32) & 0x1Fu32 == s
        &&& (r >> 8u32) & 0x7u32 == f
        &&& r & 0xFFu32 == o & 0xFCu32
        &&& r & 0x7F00_0000u32 == 0
        &&& r & 0x8000_0000u32 != 0
    }) by (bit_vector)
        requires
            b < 256,
            s < 32,
            f < 8,
            o < 256,
    ;
}

/// Distinct devices, functions or registers have distinct configuration addresses.
pub proof fn lemma_config_address_distinct(
    bus1: u8,
    slot1: u8,
    func1: u8,
    offs1: u8,
    bus2: u8,
    slot2: u8,
    func2: u8,
    offs2: u8,
)
    requires
        slot1 < 32,
        func1 < 8,
        slot2 < 32,
        func2 < 8,
        spec_config_address(bus1, slot1, func1, offs1) == spec_config_address(bus2, slot2, func2, offs2),
    ensures
        bus1 == bus2,
        slot1 == slot2,
        func1 == func2,
        offs1 & 0xFC == offs2 & 0xFC,
{
    lemma_config_address_fields(bus1, slot1, func1, offs1);
    lemma_config_address_fields(bus2, slot2, func2, offs2);
    let o1 = offs1 as u32;
    let o2 = offs2 as u32;
    assert((o1 & 0xFCu32 == o2 & 0xFCu32) ==> (offs1 & 0xFC == offs2 & 0xFC)) by (bit_vector)
        requires
            o1 == offs1 as u32,
            o2 == offs2 as u32,
    ;
}

/// The configuration address of word `offs` of function `func` of device `slot` on `bus`.
pub open spec fn spec_config_address(bus: u8, slot: u8, func: u8, offs: u8) -> u32 {
    ((bus as u32) << 16u32) | ((slot as u32) << 11u32) | ((func as u32) << 8u32) | ((offs as u32)
        & 0xFCu32) | 0x8000_0000u32
}

/// The value written to the configuration address port to read word `offs` of
/// function `func` of device `slot` on `bus`.
pub fn pci_config_address(bus: u8, slot: u8, func: u8, offs: u8) -> (r: u32)
    ensures
        r == spec_config_address(bus, slot, func, offs),
        slot < 32 && func < 8 ==> {
            &&& (r >> 16u32) & 0xFFu32 == bus as u32
            &&& (r >> 11u32) & 0x1Fu32 == slot as u32
            &&& (r >> 8u32) & 0x7u32 == func as u32
            &&& r & 0xFFu32 == (offs as u32) & 0xFCu32
            &&& r & 0x7F00_0000u32 == 0
            &&& r & 0x8000_0000u32 != 0
        },
{
    proof {
        if slot < 32 && func < 8 {
            lemma_config_address_fields(bus, slot, func, offs);
        }
    }
    ((bus as u32) << 16) | ((slot as u32) << 11) | ((func as u32) << 8) | ((offs as u32) & 0xFC)
        | 0x8000_0000u32
}

/// The 16-bit word at offset `offs` out of the 32-bit configuration data `data`.
pub fn pci_config_word(data: u32, offs: u8) -> (r: u16)
    ensures
        r == if offs & 2 == 0 {
            data % 0x1_0000
        } else {
            data / 0x1_0000
        },
{
    assert((offs as u32) & 2u32 <= 2) by (bit_vector);
    let shift = ((offs as u32) & 2) * 8;
    if offs & 2 == 0 {
        assert(shift == 0) by (bit_vector)
            requires
                offs & 2 == 0,
                shift == ((offs as u32) & 2u32) * 8,
        ;
        assert((data >> 0u32) & 0xFFFF == data % 0x1_0000) by (bit_vector);
    } else {
        assert(shift == 16) by (bit_vector)
            requires
                offs & 2 != 0,
                shift == ((offs as u32) & 2u32) * 8,
        ;
        assert((data >> 16u32) & 0xFFFF == data / 0x1_0000) by (bit_vector);
    }
    ((data >> shift) & 0xFFFF) as u16
}

/// One read of a configuration word.
#[derive(Debug, Clone, Copy, PartialEq, Eq, Structural)]
pub struct ConfigRead {
    pub bus: u8,
    pub device: u8,
    pub func: u8,
    pub offset: u8,
}

/// What the scan waits for at its current position.
#[derive(Debug, Clone, Copy, PartialEq, Eq, Structural)]
pub enum ScanStage {
    /// vendor of function 0, to see whether the slot is in use
    SlotVendor,
    /// the header type word of the slot
    HeaderType,
    /// vendor of the current function
    FuncVendor,
    /// device id of the current function
    DeviceId,
    /// programming interface and revision of the current function
    ProgIfRev,
    /// class and subclass of the current function
    ClassSubclass,
}

/// Number of device slots: 256 buses of 32 devices.
pub const SLOTS: u16 = 8192;

/// The scan over every bus, device and function, one configuration word at a time.
///
/// [`DeviceScan::next_read`] tells which word to read next; the word goes back in
/// with [`DeviceScan::feed`], which hands out each device once its last word is in.
pub struct DeviceScan {
    slot: u16,
    func: u8,
    multi: bool,
    stage: ScanStage,
    vendor_id: u16,
    device_id: u16,
    progif_rev: u16,
}

/// The offset of the word that stage `stage` reads.
pub open spec fn stage_offset(stage: ScanStage) -> u8 {
    match stage {
        ScanStage::SlotVendor => 0,
        ScanStage::HeaderType => 0xA,
        ScanStage::FuncVendor => 0,
        ScanStage::DeviceId => 2,
        ScanStage::ProgIfRev => 8,
        ScanStage::ClassSubclass => 10,
    }
}

impl DeviceScan {
    pub closed spec fn wf(&self) -> bool {
        &&& self.slot <= SLOTS
        &&& self.func < 8
        &&& (self.stage == ScanStage::SlotVendor || self.stage == ScanStage::HeaderType) ==> self.func
            == 0 && !self.multi
        &&& !self.multi ==> self.func == 0
        &&& (self.stage == ScanStage::DeviceId || self.stage == ScanStage::ProgIfRev || self.stage
            == ScanStage::ClassSubclass) ==> self.vendor_id != 0xFFFF
    }

    pub closed spec fn slot(&self) -> u16 {
        self.slot
    }

    pub closed spec fn func(&self) -> u8 {
        self.func
    }

    pub closed spec fn stage(&self) -> ScanStage {
        self.stage
    }

    pub closed spec fn multi(&self) -> bool {
        self.multi
    }

    pub closed spec fn words(&self) -> (u16, u16, u16) {
        (self.vendor_id, self.device_id, self.progif_rev)
    }

    /// Is the scan over every slot?
    pub open spec fn done(&self) -> bool {
        self.slot() >= SLOTS
    }

    /// The word the scan waits for.
    pub open spec fn pending(&self) -> Option<ConfigRead> {
        if self.done() {
            None
        } else {
            Some(
                ConfigRead {
                    bus: (self.slot() / 32) as u8,
                    device: (self.slot() % 32) as u8,
                    func: self.func(),
                    offset: stage_offset(self.stage()),
                },
            )
        }
    }

    /// How far the scan has come: every feed moves it strictly forward, and it never
    /// passes the end of the last slot.
    pub open spec fn progress(&self) -> int {
        self.slot() * 64 + if self.stage() == ScanStage::SlotVendor {
            0
        } else if self.stage() == ScanStage::HeaderType {
            1
        } else {
            2 + self.func() * 4 + match self.stage() {
                ScanStage::FuncVendor => 0int,
                ScanStage::DeviceId => 1int,
                ScanStage::ProgIfRev => 2int,
                _ => 3int,
            }
        }
    }

    /// A scan at the first word of the first slot.
    pub fn new() -> (r: Self)
        ensures
            r.wf(),
            r.slot() == 0,
            r.stage() == ScanStage::SlotVendor,
            r.func() == 0,
            !r.multi(),
            r.words() == (0u16, 0u16, 0u16),
            r.pending() == Some(ConfigRead { bus: 0, device: 0, func: 0, offset: 0 }),
    {
        DeviceScan {
            slot: 0,
            func: 0,
            multi: false,
            stage: ScanStage::SlotVendor,
            vendor_id: 0,
            device_id: 0,
            progif_rev: 0,
        }
    }

    /// The word to read next, or `None` once every slot is scanned.
    pub fn next_read(&self) -> (r: Option<ConfigRead>)
        requires
            self.wf(),
        ensures
            r == self.pending(),
    {
        if self.slot >= SLOTS {
            None
        } else {
            let offset = match self.stage {
                ScanStage::SlotVendor => 0,
                ScanStage::HeaderType => 0xA,
                ScanStage::FuncVendor => 0,
                ScanStage::DeviceId => 2,
                ScanStage::ProgIfRev => 8,
                ScanStage::ClassSubclass => 10,
            };
            Some(
                ConfigRead {
                    bus: (self.slot / 32) as u8,
                    device: (self.slot % 32) as u8,
                    func: self.func,
                    offset,
                },
            )
        }
    }

    /// Move on to the next function of a multi function slot, or to the next slot.
    fn next_func(&mut self)
        requires
            old(self).wf(),
            old(self).slot() < SLOTS,
        ensures
            final(self).wf(),
            old(self).multi() && old(self).func() < 7 ==> final(self).slot() == old(self).slot()
                && final(self).func() == old(self).func() + 1 && final(self).stage()
                == ScanStage::FuncVendor && final(self).multi(),
            !(old(self).multi() && old(self).func() < 7) ==> final(self).slot() == old(self).slot()
                + 1 && final(self).func() == 0 && final(self).stage() == ScanStage::SlotVendor,
    {
        if self.multi && self.func < 7 {
            self.func = self.func + 1;
            self.stage = ScanStage::FuncVendor;
        } else {
            self.slot = self.slot + 1;
            self.func = 0;
            self.multi = false;
            self.stage = ScanStage::SlotVendor;
        }
    }

    /// Take in the word that [`DeviceScan::next_read`] asked for. A slot whose vendor
    /// reads `0xFFFF` is empty; a header type with bit 7 set marks 8 functions, else
    /// only function 0 is scanned; a function whose vendor reads `0xFFFF` is absent;
    /// the class word completes a device, which is returned.
    pub fn feed(&mut self, word: u16) -> (r: Option<Device>)
        requires
            old(self).wf(),
            !old(self).done(),
        ensures
            final(self).wf(),
            final(self).progress() > old(self).progress(),
            final(self).progress() <= SLOTS * 64,
            r is Some <==> old(self).stage() == ScanStage::ClassSubclass,
            r matches Some(d) ==> d.vendor_id != 0xFFFF,
            r matches Some(d) ==> d == spec_device(
                DeviceLocation {
                    bus: (old(self).slot() / 32) as u8,
                    device: (old(self).slot() % 32) as u8,
                    func: old(self).func(),
                },
                old(self).words().0,
                old(self).words().1,
                old(self).words().2,
                word,
            ),
            old(self).stage() == ScanStage::SlotVendor && word == 0xFFFF ==> final(self).slot()
                == old(self).slot() + 1 && final(self).stage() == ScanStage::SlotVendor,
            old(self).stage() == ScanStage::SlotVendor && word != 0xFFFF ==> final(self).slot()
                == old(self).slot() && final(self).stage() == ScanStage::HeaderType,
            old(self).stage() == ScanStage::HeaderType ==> final(self).slot() == old(self).slot()
                && final(self).func() == 0 && final(self).stage() == ScanStage::FuncVendor
                && final(self).multi() == (word & 0x80 != 0),
            old(self).stage() == ScanStage::FuncVendor && word != 0xFFFF ==> final(self).slot()
                == old(self).slot() && final(self).func() == old(self).func() && final(self).stage()
                == ScanStage::DeviceId && final(self).words().0 == word,
            old(self).stage() == ScanStage::DeviceId ==> final(self).slot() == old(self).slot()
                && final(self).func() == old(self).func() && final(self).stage()
                == ScanStage::ProgIfRev && final(self).words().0 == old(self).words().0
                && final(self).words().1 == word,
            old(self).stage() == ScanStage::ProgIfRev ==> final(self).slot() == old(self).slot()
                && final(self).func() == old(self).func() && final(self).stage()
                == ScanStage::ClassSubclass && final(self).words().0 == old(self).words().0
                && final(self).words().1 == old(self).words().1 && final(self).words().2 == word,
            (old(self).stage() == ScanStage::ClassSubclass || (old(self).stage()
                == ScanStage::FuncVendor && word == 0xFFFF)) ==> if old(self).multi() && old(
                self,
            ).func() < 7 {
                final(self).slot() == old(self).slot() && final(self).func() == old(self).func() + 1
                    && final(self).stage() == ScanStage::FuncVendor
            } else {
                final(self).slot() == old(self).slot() + 1 && final(self).stage()
                    == ScanStage::SlotVendor
            },
    {
        match self.stage {
            ScanStage::SlotVendor => {
                if word == 0xFFFF {
                    self.next_func();
                } else {
                    self.stage = ScanStage::HeaderType;
                }
                None
            },
            ScanStage::HeaderType => {
                let header_type = word & 0xFF;
                assert((word & 0xFF) & 0x80 == word & 0x80) by (bit_vector);
                self.multi = header_type & 0x80 != 0;
                self.func = 0;
                self.stage = ScanStage::FuncVendor;
                None
            },
            ScanStage::FuncVendor => {
                if word == 0xFFFF {
                    self.next_func();
                } else {
                    self.vendor_id = word;
                    self.stage = ScanStage::DeviceId;
                }
                None
            },
            ScanStage::DeviceId => {
                self.device_id = word;
                self.stage = ScanStage::ProgIfRev;
                None
            },
            ScanStage::ProgIfRev => {
                self.progif_rev = word;
                self.stage = ScanStage::ClassSubclass;
                None
            },
            ScanStage::ClassSubclass => {
                let location = DeviceLocation {
                    bus: (self.slot / 32) as u8,
                    device: (self.slot % 32) as u8,
                    func: self.func,
                };
                let d = Device::from_config(
                    location,
                    self.vendor_id,
                    self.device_id,
                    self.progif_rev,
                    word,
                );
                self.next_func();
                Some(d)
            },
        }
    }
}

/// The device at `location` with the given configuration words.
pub open spec fn spec_device(
    location: DeviceLocation,
    vendor_id: u16,
    device_id: u16,
    progif_rev: u16,
    class_subclass: u16,
) -> Device {
    Device {
        location,
        vendor_id,
        device_id,
        class: (class_subclass / 256) as u8,
        subclass: (class_subclass % 256) as u8,
        prog_if: (progif_rev / 256) as u8,
        rev_id: (progif_rev % 256) as u8,
    }
}

} // verus!
