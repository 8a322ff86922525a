use tiered_smt::{interval_addresses, Printer};

#[test]
fn printer_keeps_low_bits_of_frame_pointer() {
    let p = Printer::new(7, 2, 0x1_0000_0005);
    assert_eq!((p.clk, p.ctx, p.fmp), (7, 2, 5));
    let q = Printer::new(1, 0, 1 << 30);
    assert_eq!(q.fmp, 1 << 30);
}

#[test]
fn stack_items_to_print_is_capped() {
    assert_eq!(Printer::stack_items_to_print(16, None), 16);
    assert_eq!(Printer::stack_items_to_print(16, Some(4)), 4);
    assert_eq!(Printer::stack_items_to_print(16, Some(40)), 16);
}

#[test]
fn local_memory_offset_points_at_first_local() {
    let p = Printer::new(0, 0, 100);
    assert_eq!(p.local_memory_offset(1), 100);
    assert_eq!(p.local_memory_offset(4), 97);
    assert_eq!(p.local_memory_offset(0), 101);
}

#[test]
fn interval_addresses_cover_both_ends() {
    assert_eq!(interval_addresses(3, 5, 0), vec![(3, 3), (4, 4), (5, 5)]);
    assert_eq!(interval_addresses(0, 1, 10), vec![(0, 10), (1, 11)]);
    assert_eq!(interval_addresses(7, 7, 0), vec![(7, 7)]);
    assert!(interval_addresses(8, 7, 0).is_empty());
}
