use hyleus::noise::{gradient_bits, hash, CornerHashes, NoisePeriod};

#[test]
fn hash_reference_values() {
    assert_eq!(hash(0, 0), 0);
    assert_eq!(hash(1, 2), -1170811272);
    assert_eq!(hash(-5, 7), -1576155107);
    assert_eq!(hash(123456, -98765), -326614296);
}

#[test]
fn cell_hashes_reference_values() {
    let c = CornerHashes::of_cell(0, 0, 0);
    assert_eq!((c.ll, c.lr, c.ul, c.ur), (-1787533808, 31902329, -870686117, -2146011584));
    let c = CornerHashes::of_cell(3, -4, 17);
    assert_eq!((c.ll, c.lr, c.ul, c.ur), (1400111120, 528517389, 988124603, 1316736564));
    let r = CornerHashes::of_cell(0, 0, 0).reseeded();
    assert_eq!((r.ll, r.lr, r.ul, r.ur), (-2020353456, 18013213, 276072199, 725892928));
}

#[test]
fn periodic_cell_hashes_reference_values() {
    let p = NoisePeriod::new(8, 4, 1);
    let c = CornerHashes::of_periodic_cell(5, 6, &p, 3);
    assert_eq!((c.ll, c.lr, c.ul, c.ur), (-1761518207, 1908374070, -478166343, -77307582));
}

#[test]
fn periods_round_trip() {
    for p in [2, 3, 7, 100, 65536] {
        let n = NoisePeriod::new(p, p, p);
        assert_eq!(n.x_period(), p);
        assert_eq!(n.y_period(), p);
        assert_eq!(n.z_period(), p);
    }
    let big = NoisePeriod::new(i32::MAX, 0, 0);
    assert_eq!(big.x_period(), 1431655766);
}

#[test]
fn small_and_zero_periods() {
    let n = NoisePeriod::new(1, -3, 0);
    assert_eq!(n.x_period(), 2);
    assert!(!n.is_null());
    assert_eq!(n.z_period(), 0);
    // y reads 0 whenever there is no period along z.
    assert_eq!(n.y_period(), 0);
    let null = NoisePeriod::null();
    assert!(null.is_null());
    assert_eq!(null.x_period(), 0);
}

#[test]
fn gradients_have_half_exponent() {
    assert_eq!(gradient_bits(hash(1, 2)), (0xbf2fd3f0, 0xbf4fc000));
    assert_eq!(gradient_bits(0), (0x3f0fc3f0, 0x3f0fc000));
    assert_eq!(gradient_bits(-1), (0xbf6fdbf7, 0xbf6fdc00));
    for h in [0, -1, 12345, i32::MIN, i32::MAX] {
        let (gx, gy) = gradient_bits(h);
        let (x, y) = (f32::from_bits(gx).abs(), f32::from_bits(gy).abs());
        assert!((0.5..1.0).contains(&x));
        assert!((0.5..1.0).contains(&y));
    }
}

#[test]
fn periodic_hashes_repeat_by_the_period() {
    let p = NoisePeriod::new(8, 32, 0);
    for seed in [0, 3, -77] {
        for ix in [-20, -1, 0, 5, 1000] {
            for iy in [-9, 0, 7, 123] {
                let c = CornerHashes::of_periodic_cell(ix, iy, &p, seed);
                let cx = CornerHashes::of_periodic_cell(ix + 8, iy, &p, seed);
                let cy = CornerHashes::of_periodic_cell(ix, iy + 32, &p, seed);
                assert_eq!((c.ll, c.lr, c.ul, c.ur), (cx.ll, cx.lr, cx.ul, cx.ur));
                assert_eq!((c.ll, c.lr, c.ul, c.ur), (cy.ll, cy.lr, cy.ul, cy.ur));
            }
        }
    }
    let wide = NoisePeriod::new(1 << 30, 2, 0);
    let c = CornerHashes::of_periodic_cell(i32::MAX - 3, 1, &wide, 9);
    let cx = CornerHashes::of_periodic_cell((i32::MAX - 3).wrapping_add(1 << 30), 1, &wide, 9);
    assert_eq!((c.ll, c.lr, c.ul, c.ur), (cx.ll, cx.lr, cx.ul, cx.ur));
}
