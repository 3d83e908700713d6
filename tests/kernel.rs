use qip::kernel::{controls_fire, deposit, get_bit, project, swap_bits, with_bit};

#[test]
fn swap_twice_is_identity() {
    let a = vec![0, 1];
    let b = vec![4, 5];
    for x in 0..64u64 {
        let y = swap_bits(x, &a, &b);
        assert_eq!(swap_bits(y, &a, &b), x);
    }
    assert_eq!(swap_bits(0b000011, &a, &b), 0b110000);
    assert_eq!(swap_bits(0b010001, &a, &b), 0b010001);
    assert_eq!(swap_bits(0b000001, &a, &b), 0b010000);
}

#[test]
fn cccx_fires_only_when_all_controls_are_one() {
    let c = vec![0, 1, 2];
    for x in 0..8u64 {
        assert_eq!(controls_fire(x, &c), x == 7);
    }
    assert!(controls_fire(0, &vec![]));
}

#[test]
fn project_reads_register_value_msb_first() {
    let idx = vec![4, 0];
    assert_eq!(project(0b10000, &idx), 0b10);
    assert_eq!(project(0b00001, &idx), 0b01);
    assert_eq!(project(0b10001, &idx), 0b11);
    assert_eq!(project(0b01110, &idx), 0);
}

#[test]
fn deposit_places_register_value() {
    let idx = vec![1, 2, 3];
    assert_eq!(deposit(0, &idx, 5), 0b1010);
    assert_eq!(deposit(0b1_0001, &idx, 7), 0b1_1111);
    assert_eq!(project(deposit(0b1_0001, &idx, 3), &idx), 3);
}

#[test]
fn bits() {
    assert!(get_bit(4, 2));
    assert!(!get_bit(4, 1));
    assert_eq!(with_bit(4, 0, true), 5);
    assert_eq!(with_bit(5, 2, false), 1);
}

#[test]
fn ccx_flips_target_only_when_both_controls_are_one() {
    // Controls on bits 0 and 1, an X on bit 2 of a three-qubit register.
    let ctl = vec![0, 1];
    let target = vec![2];
    let ccx = |b: u64| -> u64 {
        if controls_fire(b, &ctl) {
            deposit(b, &target, 1 - project(b, &target))
        } else {
            b
        }
    };
    assert_eq!(ccx(0b011), 0b111);
    assert_eq!(ccx(0b111), 0b011);
    assert_eq!(ccx(0b001), 0b001);
    assert_eq!(ccx(0b010), 0b010);
    assert_eq!(ccx(0b000), 0b000);
}
