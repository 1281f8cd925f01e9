//! Tests for the space-filling-curve strategies: Morton interleaving, the
//! Hilbert delegation, and the quantization round trips of both.

use particle_fluid::curves::{
    hilbert_cell_round_trip, scaled_cell_i64, z_order, z_order_split, HilbertCurve,
    SpaceFillingCurve, ZOrderCurve,
};
use particle_fluid::v2::V2;

#[test]
fn z_order_limits() {
    let result = z_order(2, 1, 32);
    println!("z_order: {}", result);
}

#[test]
fn z_order_interleaves_bits() {
    assert_eq!(z_order(0, 0, 16), 0);
    assert_eq!(z_order(1, 0, 16), 1);
    assert_eq!(z_order(0, 1, 16), 2);
    assert_eq!(z_order(1, 1, 16), 3);
    assert_eq!(z_order(2, 4, 16), 36);
    assert_eq!(z_order(2, 1, 32), 6);
    assert_eq!(z_order(0xFFFF, 0xFFFF, 16), 0xFFFF_FFFF);
}

#[test]
fn z_order_split_inverts_interleave() {
    for &(x, y) in &[(0u64, 0u64), (1, 0), (0, 1), (7, 13), (255, 0), (1023, 512), (65535, 65535)]
    {
        let m = z_order(x, y, 16);
        assert_eq!(z_order_split(m), (x, y));
    }
}

#[test]
fn z_order_monotone_on_cells() {
    // Componentwise-larger cells never get a smaller order.
    let mut prev = z_order(3, 5, 16);
    for step in 1u64..20 {
        let cur = z_order(3 + step, 5 + step, 16);
        assert!(cur >= prev);
        prev = cur;
    }
}

#[test]
fn scaled_cell_matches_float_cast() {
    // x / 20 (length units), truncated toward zero and saturated at zero,
    // mirroring an `as u64` cast of a float quotient.
    assert_eq!(scaled_cell_i64(0, 0xFFFF), 0);
    assert_eq!(scaled_cell_i64(19_999, 0xFFFF), 0);
    assert_eq!(scaled_cell_i64(20_000, 0xFFFF), 1);
    assert_eq!(scaled_cell_i64(45_000, 0xFFFF), 2);
    assert_eq!(scaled_cell_i64(-5, 0xFFFF), 0);
    assert_eq!(scaled_cell_i64(-100_000, 0xFFFF), 0);
    assert_eq!(scaled_cell_i64(i64::MAX / 2, 0xFFFF), 0xFFFF);
}

#[test]
fn z_curve_round_trip_within_one_cell() {
    let xy = <ZOrderCurve<V2> as SpaceFillingCurve>::pair_of(
        <ZOrderCurve<V2> as SpaceFillingCurve>::number_of(45_000, 83_000),
    );
    assert_eq!(xy, (40_000, 80_000));
    assert!(45_000 - xy.0 < 20_000 && xy.0 <= 45_000);
    assert!(83_000 - xy.1 < 20_000 && xy.1 <= 83_000);
}

#[test]
fn hilbert_round_trip_within_one_cell() {
    let xy = <HilbertCurve<V2> as SpaceFillingCurve>::pair_of(
        <HilbertCurve<V2> as SpaceFillingCurve>::number_of(45_000, 83_000),
    );
    assert_eq!(xy, (40_000, 80_000));
}

#[test]
fn hilbert_cells_round_trip_exhaustively() {
    for x in 0u64..32 {
        for y in 0u64..32 {
            assert_eq!(hilbert_cell_round_trip(x, y), (x, y));
        }
    }
    assert_eq!(hilbert_cell_round_trip(255, 255), (255, 255));
}

#[test]
fn hilbert_orders_distinguish_cells() {
    // The forward transform cannot be handing a coordinate back: distinct
    // cells along one axis give distinct, non-coordinate orders.
    let a = <HilbertCurve<V2> as SpaceFillingCurve>::number_of(0, 0);
    let b = <HilbertCurve<V2> as SpaceFillingCurve>::number_of(20_000, 0);
    let c = <HilbertCurve<V2> as SpaceFillingCurve>::number_of(0, 20_000);
    assert_ne!(a, b);
    assert_ne!(a, c);
    assert_ne!(b, c);
}
