use kernel::address::VirtAddr;
use kernel::area_map::AreaMap;
use kernel::vm_area::{MapPermission, MapType, VmArea, MAP_R};

fn area(start: u64, end: u64) -> VmArea {
    VmArea::new(
        VirtAddr(start * 4096),
        VirtAddr(end * 4096),
        MapType::Framed,
        MapPermission::from_bits(MAP_R).unwrap(),
    )
}

fn starts(areas: &AreaMap) -> Vec<u64> {
    (0..areas.len()).map(|i| areas.at(i).start_vpn().0).collect()
}

#[test]
fn a_new_store_has_no_area() {
    let mut areas = AreaMap::new();
    assert_eq!(areas.len(), 0);
    assert!(areas.pop().is_none());
    assert_eq!(areas.len(), 0);
}

#[test]
fn areas_stand_where_they_were_put() {
    let mut areas = AreaMap::new();
    areas.insert(0, area(0x30, 0x32));
    areas.insert(0, area(0x10, 0x11));
    areas.insert(1, area(0x20, 0x24));
    areas.insert(3, area(0x40, 0x41));
    assert_eq!(starts(&areas), vec![0x10, 0x20, 0x30, 0x40]);
    assert_eq!(areas.at(1).end_vpn().0, 0x24);
    assert_eq!(areas.at(2).end_vpn().0, 0x32);
}

#[test]
fn an_area_is_taken_out_by_its_position() {
    let mut areas = AreaMap::new();
    for (index, start) in [0x10u64, 0x20, 0x30, 0x40].iter().enumerate() {
        areas.insert(index, area(*start, *start + 1));
    }
    let taken = areas.remove(1);
    assert_eq!(taken.start_vpn().0, 0x20);
    assert_eq!(starts(&areas), vec![0x10, 0x30, 0x40]);
    let last = areas.pop().unwrap();
    assert_eq!(last.start_vpn().0, 0x40);
    assert_eq!(starts(&areas), vec![0x10, 0x30]);
    // The first page of an area that left is free for another one.
    areas.insert(1, area(0x20, 0x28));
    assert_eq!(starts(&areas), vec![0x10, 0x20, 0x30]);
    assert_eq!(areas.at(1).end_vpn().0, 0x28);
}
