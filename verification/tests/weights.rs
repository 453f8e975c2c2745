use poseidon_merkle::weights::{saturating_mul, RuntimeDbWeight, WeightInfo, Weights};

fn rocks_db() -> Weights {
    Weights::new(RuntimeDbWeight { read: 25_000_000, write: 100_000_000 })
}

#[test]
fn weights_add_base_units_reads_and_writes() {
    let w = rocks_db();
    assert_eq!(w.create_group(3), 7_618_000 + 3 * 151_000 + 25_000_000 + 3 * 100_000_000);
    assert_eq!(w.create_group(0), 7_618_000 + 25_000_000 + 300_000_000);
    assert_eq!(w.set_manager_required(), 8_000_000 + 25_000_000 + 100_000_000);
    assert_eq!(w.set_manager(), 8_000_000 + 25_000_000 + 100_000_000);
    assert_eq!(w.set_stopped(), 7_000_000 + 25_000_000 + 100_000_000);
    assert_eq!(
        w.add_members(2),
        305_389_489_000 + 2 * 63_659_275_000 + 3 * 25_000_000 + 2 * 100_000_000
    );
    assert_eq!(w.verify_path(32), 310_970_311_000 + 32 * 3_666_683_000 + 25_000_000);
    assert_eq!(w.on_finalize(), 14_000_000 + 2 * 25_000_000 + 100_000_000);
}

#[test]
fn weights_without_storage_costs() {
    let w = Weights::new(RuntimeDbWeight { read: 0, write: 0 });
    assert_eq!(w.create_group(1), 7_618_000 + 151_000);
    assert_eq!(w.add_members(1), 305_389_489_000 + 63_659_275_000);
    assert_eq!(w.verify_path(1), 310_970_311_000 + 3_666_683_000);
    assert_eq!(w.on_finalize(), 14_000_000);
}

#[test]
fn weights_saturate() {
    let w = Weights::new(RuntimeDbWeight { read: u64::MAX, write: 1 });
    assert_eq!(w.create_group(1), u64::MAX);
    assert_eq!(w.verify_path(0), u64::MAX);
    let w = Weights::new(RuntimeDbWeight { read: 1, write: u64::MAX / 2 });
    assert_eq!(w.create_group(1), u64::MAX);
    assert_eq!(w.set_stopped(), 7_000_000 + 1 + u64::MAX / 2);
    let big = Weights::new(RuntimeDbWeight { read: 0, write: 0 });
    assert_eq!(big.add_members(u32::MAX), u64::MAX);
    assert_eq!(
        big.verify_path(u32::MAX),
        310_970_311_000 + 3_666_683_000 * (u32::MAX as u64)
    );
}

#[test]
fn products_saturate() {
    assert_eq!(saturating_mul(6, 7), 42);
    assert_eq!(saturating_mul(0, u64::MAX), 0);
    assert_eq!(saturating_mul(u64::MAX, 1), u64::MAX);
    assert_eq!(saturating_mul(u64::MAX, 2), u64::MAX);
    assert_eq!(saturating_mul(1 << 32, 1 << 32), u64::MAX);
    assert_eq!(saturating_mul(1 << 32, (1 << 32) - 1), u64::MAX - (1 << 32) + 1);
    let db = RuntimeDbWeight { read: 5, write: 9 };
    assert_eq!(db.reads(3), 15);
    assert_eq!(db.writes(3), 27);
}
