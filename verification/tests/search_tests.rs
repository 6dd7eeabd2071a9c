use quanjp::search::{
    available_cores, launch_plan, meminfo_is_readable, parse_meminfo,
    search_target_digits,
};

#[test]
fn core_planning() {
    assert_eq!(available_cores(16), 15);
    assert_eq!(available_cores(1), 1);
    assert_eq!(available_cores(0), 1);
    assert_eq!(launch_plan(43), (2, 21));
    assert_eq!(launch_plan(15), (1, 15));
    assert_eq!(launch_plan(41), (1, 41));
    assert_eq!(launch_plan(42), (2, 21));
    assert_eq!(launch_plan(64), (3, 21));
    assert_eq!(launch_plan(0), (1, 0));
    assert_eq!(search_target_digits(0), 16_000);
    assert_eq!(search_target_digits(1), 10_000);
    assert_eq!(search_target_digits(5), 6_000);
}

#[test]
fn memory_from_free() {
    let out = "               total        used        free      shared  buff/cache   available\nMem:    67430019072  5000000000 40000000000     1000000 22000000000 61000000000\nSwap:             0           0           0\n";
    assert!(meminfo_is_readable(out));
    assert_eq!(parse_meminfo(out), (62, 56));
    assert_eq!(parse_meminfo("nothing"), (0, 0));
    assert!(!meminfo_is_readable("Mem: 1 2 3\n"));
    assert_eq!(parse_meminfo("Mem: x y z w v 2147483648\n"), (0, 2));
}
