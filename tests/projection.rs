use isomap::iso::{IVec2, IsometricOperations};

#[test]
fn to_isometric_exact_values() {
    assert_eq!(IVec2 { x: 1, y: 0 }.to_isometric(), IVec2 { x: 64, y: 32 });
    assert_eq!(IVec2 { x: 0, y: 1 }.to_isometric(), IVec2 { x: 64, y: -32 });
    assert_eq!(IVec2 { x: 3, y: 2 }.to_isometric(), IVec2 { x: 320, y: 32 });
    assert_eq!(IVec2 { x: -2, y: 5 }.to_isometric(), IVec2 { x: 192, y: -224 });
}

#[test]
fn from_isometric_inside_footprint() {
    assert_eq!(IVec2 { x: 74, y: 32 }.from_isometric(), IVec2 { x: 1, y: 0 });
    assert_eq!(IVec2 { x: 100, y: 40 }.from_isometric(), IVec2 { x: 1, y: 0 });
    assert_eq!(IVec2 { x: -1, y: 0 }.from_isometric(), IVec2 { x: -1, y: -1 });
    assert_eq!(IVec2 { x: 0, y: 0 }.from_isometric(), IVec2 { x: 0, y: 0 });
}

#[test]
fn round_trip_on_grid_points() {
    for x in -20i64..20 {
        for y in -20i64..20 {
            let p = IVec2 { x, y };
            assert_eq!(p.to_isometric().from_isometric(), p);
        }
    }
    let far = IVec2 { x: 1 << 40, y: -(1 << 40) };
    assert_eq!(far.to_isometric().from_isometric(), far);
}

#[test]
fn from_isometric_at_extremes() {
    let p = IVec2 { x: i64::MAX, y: i64::MAX }.from_isometric();
    assert_eq!(p.x, ((i64::MAX as i128 * 3) / 128) as i64);
    let q = IVec2 { x: i64::MIN, y: i64::MIN }.from_isometric();
    assert_eq!(q.x, (i64::MIN as i128 * 3).div_euclid(128) as i64);
}
