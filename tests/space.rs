use addr_space::{Error, Region, RegionInfo, Space, SpaceTable};

fn ram(kind: &str, base: u64, size: usize) -> Region {
    Region::new(kind, base, vec![0u8; size])
}

fn space_with_ram_and_rom() -> Space {
    let mut s = Space::new();
    assert!(s.add_region("ram", ram("ram", 0x1000, 0x1000)).is_ok());
    assert!(s.add_region("rom", ram("rom", 0x2000, 0x1000)).is_ok());
    s
}

#[test]
fn ram_rom_scenario() {
    let mut s = space_with_ram_and_rom();
    match s.add_region("ram2", ram("ram", 0x1500, 0x10)) {
        Err(Error::Overlap(name, msg)) => {
            assert_eq!(name, "ram");
            assert_eq!(
                msg,
                "region [ram2 : base 0x1500, size 0x10] is overlapped with [ram : base 0x1000, size 0x1000]!"
            );
        }
        other => panic!("unexpected {:?}", other),
    }
    assert_eq!(s.get_region_by_addr(0x1004).unwrap().info(), RegionInfo { base: 0x1000, size: 0x1000 });
    assert_eq!(s.read_u32(0x1004), Ok(0));
    assert_eq!(s.read_u32(0x3000), Err(0x3000));
}

#[test]
fn disjoint_regions_all_resolve() {
    let mut s = Space::new();
    let layout: [(&str, u64, usize); 4] =
        [("c", 0x300, 0x10), ("a", 0x100, 0x100), ("b", 0x200, 0x1), ("d", 0x311, 0x20)];
    for (name, base, size) in layout.iter() {
        assert!(s.add_region(name, ram(name, *base, *size)).is_ok());
    }
    for (name, base, size) in layout.iter() {
        let last = base + *size as u64 - 1;
        for addr in [*base, last] {
            let r = s.get_region_by_addr(addr).unwrap();
            assert_eq!(r.kind(), *name);
        }
        assert_eq!(s.get_region(name).unwrap().info().base, *base);
    }
    for addr in [0u64, 0xff, 0x201, 0x2ff, 0x310, 0x331, u64::MAX] {
        assert_eq!(s.get_region_by_addr(addr).err(), Some(addr));
    }
}

#[test]
fn empty_space_is_unmapped() {
    let s = Space::new();
    assert_eq!(s.get_region_by_addr(0).err(), Some(0));
    assert_eq!(s.read_u8(0x1234), Err(0x1234));
    assert!(s.get_region("ram").is_none());
}

fn assert_overlap(base: u64, size: usize) {
    let mut s = Space::new();
    assert!(s.add_region("first", ram("a", 0x1000, 0x100)).is_ok());
    let before = s.to_string();
    match s.add_region("second", ram("b", base, size)) {
        Err(Error::Overlap(name, msg)) => {
            assert_eq!(name, "first");
            assert!(msg.contains("second") && msg.contains("first"));
        }
        other => panic!("unexpected {:?}", other),
    }
    assert!(s.get_region("second").is_none());
    assert_eq!(s.to_string(), before);
}

#[test]
fn overlap_configurations_refused() {
    assert_overlap(0x1000, 0x100); // the same range
    assert_overlap(0x1080, 0x100); // start inside
    assert_overlap(0x0f80, 0x81); // last byte inside
    assert_overlap(0x0f00, 0x300); // contains the first
    assert_overlap(0x1010, 0x10); // contained in the first
    assert_overlap(0x10ff, 0x1); // last byte of the first
}

#[test]
fn abutting_regions_accepted() {
    let mut s = Space::new();
    assert!(s.add_region("mid", ram("a", 0x1000, 0x100)).is_ok());
    assert!(s.add_region("low", ram("a", 0x0f00, 0x100)).is_ok());
    assert!(s.add_region("high", ram("a", 0x1100, 0x100)).is_ok());
    assert_eq!(s.get_region_by_addr(0x10ff).unwrap().info().base, 0x1000);
    assert_eq!(s.get_region_by_addr(0x1100).unwrap().info().base, 0x1100);
    assert_eq!(s.get_region_by_addr(0x0fff).unwrap().info().base, 0x0f00);
}

#[test]
fn first_overlapping_region_is_named() {
    let mut s = Space::new();
    assert!(s.add_region("high", ram("a", 0x2000, 0x100)).is_ok());
    assert!(s.add_region("low", ram("a", 0x1000, 0x100)).is_ok());
    match s.add_region("wide", ram("a", 0x0800, 0x2000)) {
        Err(Error::Overlap(name, _)) => assert_eq!(name, "low"),
        other => panic!("unexpected {:?}", other),
    }
}

#[test]
fn taken_name_refused_without_overlap() {
    let mut s = space_with_ram_and_rom();
    match s.add_region("ram", ram("ram", 0x8000, 0x10)) {
        Err(Error::Renamed(name, msg)) => {
            assert_eq!(name, "ram");
            assert_eq!(msg, "region name ram has existed!");
        }
        other => panic!("unexpected {:?}", other),
    }
    assert_eq!(s.get_region_by_addr(0x8000).err(), Some(0x8000));
    assert_eq!(s.get_region("ram").unwrap().info().base, 0x1000);
}

#[test]
fn zero_size_region_refused() {
    let mut s = Space::new();
    match s.add_region("empty", ram("a", 0x1000, 0)) {
        Err(Error::Invalid(name, msg)) => {
            assert_eq!(name, "empty");
            assert_eq!(msg, "region [empty : base 0x1000, size 0x0] is empty or passes the top of the space!");
        }
        other => panic!("unexpected {:?}", other),
    }
    assert!(s.get_region("empty").is_none());
}

#[test]
fn wrapping_region_refused() {
    let mut s = Space::new();
    match s.add_region("wrap", ram("a", u64::MAX - 2, 4)) {
        Err(Error::Invalid(name, _)) => assert_eq!(name, "wrap"),
        other => panic!("unexpected {:?}", other),
    }
    match s.add_region("top", ram("a", u64::MAX - 3, 4)) {
        Err(Error::Invalid(name, _)) => assert_eq!(name, "top"),
        other => panic!("unexpected {:?}", other),
    }
    assert!(s.get_region("top").is_none());
    assert!(s.add_region("high", ram("a", u64::MAX - 4, 4)).is_ok());
    assert_eq!(s.get_region_by_addr(u64::MAX - 1).unwrap().kind(), "a");
    assert_eq!(s.get_region_by_addr(u64::MAX).err(), Some(u64::MAX));
    assert_eq!(s.read_u32(u64::MAX - 4), Ok(0));
}

#[test]
fn delete_absent_name_is_noop() {
    let mut s = space_with_ram_and_rom();
    let before = s.to_string();
    assert!(s.delete_region("nothing").is_empty());
    assert_eq!(s.to_string(), before);
    assert!(s.get_region("ram").is_some());
}

#[test]
fn deleted_range_becomes_unmapped() {
    let mut s = space_with_ram_and_rom();
    s.delete_region("ram");
    assert!(s.get_region("ram").is_none());
    assert_eq!(s.get_region_by_addr(0x1000).err(), Some(0x1000));
    assert_eq!(s.read_u32(0x1ffc), Err(0x1ffc));
    assert_eq!(s.get_region_by_addr(0x2000).unwrap().kind(), "rom");
    assert!(s.add_region("ram", ram("ram", 0x1800, 0x10)).is_ok());
}

#[test]
fn handles_released_once_in_order() {
    let mut s = space_with_ram_and_rom();
    s.clean("ram", 7);
    s.clean("rom", 9);
    s.clean("ram", 3);
    s.clean("ram", 7);
    assert_eq!(s.delete_region("ram"), vec![7, 3]);
    assert!(s.delete_region("ram").is_empty());
    assert_eq!(s.delete_region("rom"), vec![9]);
}

#[test]
fn typed_access_is_little_endian() {
    let mut s = space_with_ram_and_rom();
    assert_eq!(s.write_u32(0x1000, 0x1122_3344), Ok(()));
    assert_eq!(s.read_u8(0x1000), Ok(0x44));
    assert_eq!(s.read_u8(0x1003), Ok(0x11));
    assert_eq!(s.read_u16(0x1001), Ok(0x2233));
    assert_eq!(s.read_u32(0x1000), Ok(0x1122_3344));
    assert_eq!(s.write_u64(0x2008, 0x0102_0304_0506_0708), Ok(()));
    assert_eq!(s.read_u64(0x2008), Ok(0x0102_0304_0506_0708));
    assert_eq!(s.read_u8(0x200f), Ok(0x01));
    assert_eq!(s.write_u16(0x1010, 0xbeef), Ok(()));
    assert_eq!(s.read_u16(0x1010), Ok(0xbeef));
    assert_eq!(s.write_u8(0x1fff, 0x5a), Ok(()));
    assert_eq!(s.read_u8(0x1fff), Ok(0x5a));
    assert_eq!(s.write_u8(0x3000, 1), Err(0x3000));
}

#[test]
fn access_past_region_end_goes_to_region() {
    let mut s = Space::new();
    assert!(s.add_region("ram", ram("ram", 0x1000, 0x10)).is_ok());
    assert!(s.add_region("next", ram("ram", 0x1010, 0x10)).is_ok());
    assert_eq!(s.write_u32(0x100e, 0xaabb_ccdd), Ok(()));
    assert_eq!(s.read_u16(0x100e), Ok(0xccdd));
    assert_eq!(s.read_u32(0x100e), Ok(0x0000_ccdd));
    assert_eq!(s.read_u8(0x1010), Ok(0));
    assert_eq!(s.write_u64(0x100c, u64::MAX), Ok(()));
    assert_eq!(s.read_u64(0x100c), Ok(0xffff_ffff));
    assert_eq!(s.read_u16(0x100f), Ok(0x00ff));
    assert_eq!(s.read_u64(0x1020), Err(0x1020));
}

#[test]
fn byte_ranges_round_trip() {
    let mut s = space_with_ram_and_rom();
    assert_eq!(s.write_bytes(0x1ffe, &[1, 2]), Ok(()));
    let mut buf = [0u8; 2];
    assert_eq!(s.read_bytes(0x1ffe, &mut buf), Ok(()));
    assert_eq!(buf, [1, 2]);
    assert_eq!(s.write_bytes(0x1fff, &[7, 8]), Ok(()));
    let mut wide = [9u8; 3];
    assert_eq!(s.read_bytes(0x1ffe, &mut wide), Ok(()));
    assert_eq!(wide, [1, 7, 0]);
    assert_eq!(s.read_u8(0x2000), Ok(0));
    let mut far = [9u8; 2];
    assert_eq!(s.read_bytes(0x3000, &mut far), Err(0x3000));
    assert_eq!(far, [9, 9]);
    assert_eq!(s.write_bytes(0x3000, &[1]), Err(0x3000));
}

#[test]
fn listing_shows_regions_by_base() {
    let mut s = Space::new();
    assert!(s.add_region("rom", ram("rom", 0x2000, 0x1000)).is_ok());
    assert!(s.add_region("ram", ram("ram", 0x1000, 0x1000)).is_ok());
    let expected = String::from("regions:\n")
        + "   ram       (     ram     )  : 0x00000000001000 -> 0x00000000001fff\n"
        + "   rom       (     rom     )  : 0x00000000002000 -> 0x00000000002fff\n";
    assert_eq!(s.to_string(), expected);
    assert_eq!(Space::new().to_string(), "regions:\n");
}

#[test]
fn get_space_returns_one_space_per_name() {
    let mut t = SpaceTable::new();
    assert!(!t.contains("bus"));
    let a = t.get_space("bus");
    let b = t.get_space("bus");
    let c = t.get_space("io");
    assert_eq!(a, b);
    assert_ne!(a, c);
    assert!(t.contains("bus"));
    assert!(t.space_mut(a).add_region("ram", ram("ram", 0x1000, 0x10)).is_ok());
    assert_eq!(t.space(b).get_region_by_addr(0x1004).unwrap().kind(), "ram");
    assert!(t.space(c).get_region("ram").is_none());
}

#[test]
fn region_reports_its_shape() {
    let r = Region::new("flash", 0x4000, vec![1, 2, 3]);
    assert_eq!(r.info(), RegionInfo { base: 0x4000, size: 3 });
    assert_eq!(r.kind(), "flash");
    assert_eq!(r.read_u16(0x4001), 0x0302);
    assert_eq!(r.read_u16(0x4002), 0x0003);
    let mut r = r;
    r.write_u32(0x3fff, 0x1122_3344);
    assert_eq!(r.read_u32(0x4000), 0x0011_2233);
}

#[test]
fn listing_matches_std_padding() {
    let mut s = Space::new();
    let base = 0xffff_ffff_ffff_0000u64;
    assert!(s.add_region("a_very_long_name", ram("ab", base, 0x100)).is_ok());
    assert!(s.add_region("é", ram("flash memory!!", 0x10, 0x10)).is_ok());
    let expected = format!(
        "regions:\n   {:<10}({:^13})  : {:#016x} -> {:#016x}\n   {:<10}({:^13})  : {:#016x} -> {:#016x}\n",
        "é", "flash memory!!", 0x10u64, 0x1fu64, "a_very_long_name", "ab", base, base + 0xff
    );
    assert_eq!(s.to_string(), expected);
}
