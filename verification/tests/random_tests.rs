use hyleus::random::HylRandom;

#[test]
fn seed_zero_state_is_splitmix_output() {
    // SplitMix64 from 0 gives 0xE220A8397B1DCDAF then 0x6E789E6AA1B965F4.
    let r = HylRandom::from_seed(0);
    assert_eq!(r.peek_sample(), 0xE220A8397B1DCDAFu64.wrapping_add(0x6E789E6AA1B965F4));
}

#[test]
fn from_state_splits_low_and_high_halves() {
    let s: u128 = (0x28EF_E333_B266_F103u128 << 64) | 0xBDD7_3226_2FEB_6E95u128;
    let mut a = HylRandom::from_state(42, s);
    let mut b = HylRandom::from_seed(42);
    for _ in 0..5 {
        assert_eq!(a.next_u64(), b.next_u64());
    }
}

#[test]
fn seeded_sequence_matches_reference() {
    let mut r = HylRandom::from_seed(42);
    assert_eq!(r.peek_sample(), 0xe6c71559e2525f98);
    let expected = [0xe6c71559e2525f98u64, 0xc47d57593d0cfb7a, 0x39de93182b828cf8, 0x7f6298c8e5492240, 0xaec62d30c41c78d5];
    for e in expected {
        assert_eq!(r.next_u64(), e);
    }
}

#[test]
fn peek_sample_announces_the_next_draw() {
    let mut r = HylRandom::from_seed(99);
    for _ in 0..10 {
        let p = r.peek_sample();
        assert_eq!(r.next_u64(), p);
    }
}

#[test]
fn same_seed_same_sequence() {
    let mut a = HylRandom::from_seed(2024);
    let mut b = HylRandom::from_seed(2024);
    for _ in 0..20 {
        assert_eq!(a.next_u32(), b.next_u32());
    }
}

#[test]
fn top_bit_draws() {
    let mut r = HylRandom::from_seed(42);
    assert_eq!(r.next_u8(), 230);
    let mut r = HylRandom::from_seed(42);
    assert_eq!(r.next_u16(), (0xe6c71559e2525f98u64 >> 48) as u16);
    let mut r = HylRandom::from_seed(42);
    assert_eq!(r.next_u32(), (0xe6c71559e2525f98u64 >> 32) as u32);
    let mut r = HylRandom::from_seed(42);
    assert_eq!(r.next_i8(), 115);
}

#[test]
fn u8_max_is_plain_modulo() {
    let mut r = HylRandom::from_seed(42);
    assert_eq!(r.next_u8_max(10), 4);
    let mut r = HylRandom::from_seed(42);
    assert_eq!(r.next_u8_max(0), 0);
    // Nothing was drawn.
    assert_eq!(r.peek_sample(), 0xe6c71559e2525f98);
}

#[test]
fn bounded_draws_match_reference() {
    let mut r = HylRandom::from_seed(42);
    assert_eq!(r.next_u32_max(1000), 704);
    assert_eq!(r.next_u32_max(1000), 298);
    let mut r = HylRandom::from_seed(123);
    assert_eq!(r.next_u64_range(100, 150), 107);
}

#[test]
fn ranges_stay_in_bounds() {
    let mut r = HylRandom::from_seed(5);
    for _ in 0..200 {
        let v = r.next_u16_range(10, 20);
        assert!((10..20).contains(&v));
        let w = r.next_i32_range(-50, 50);
        assert!((-50..50).contains(&w));
        let x = r.next_i64_max(7);
        assert!((0..7).contains(&x));
        let y = r.next_u8_range(3, 9);
        assert!((3..9).contains(&y));
        let z = r.next_i16_range(-3, 4);
        assert!((-3..4).contains(&z));
        let q = r.next_i8_max(100);
        assert!((0..100).contains(&q));
    }
}

#[test]
fn equal_bounds_give_the_minimum_without_drawing() {
    let mut r = HylRandom::from_seed(8);
    let before = r.peek_sample();
    assert_eq!(r.next_u32_range(17, 17), 17);
    assert_eq!(r.next_i64_range(-4, -4), -4);
    assert_eq!(r.next_u64_max(0), 0);
    assert_eq!(r.peek_sample(), before);
}

#[test]
fn signed_draws_are_below_max() {
    let mut r = HylRandom::from_seed(77);
    for _ in 0..500 {
        assert!(r.next_i8() < i8::MAX && r.next_i8() >= 0);
        assert!(r.next_i16() < i16::MAX && r.next_i16() >= 0);
        assert!(r.next_i32() < i32::MAX && r.next_i32() >= 0);
        assert!(r.next_i64() < i64::MAX && r.next_i64() >= 0);
    }
}

#[test]
fn next_bytes_are_little_endian_draws() {
    let mut r = HylRandom::from_seed(42);
    let mut buf = [0u8; 8];
    r.next_bytes(&mut buf);
    assert_eq!(buf, [152, 95, 82, 226, 89, 21, 199, 230]);
    let mut a = HylRandom::from_seed(31);
    let mut b = HylRandom::from_seed(31);
    let mut buf = [0u8; 13];
    a.next_bytes(&mut buf);
    let first = b.next_u64().to_le_bytes();
    let second = b.next_u64().to_le_bytes();
    assert_eq!(&buf[..8], &first);
    assert_eq!(&buf[8..], &second[..5]);
    assert_eq!(a.peek_sample(), b.peek_sample());
}

#[test]
fn empty_next_bytes_draws_nothing() {
    let mut r = HylRandom::from_seed(1);
    let before = r.peek_sample();
    let mut buf: [u8; 0] = [];
    r.next_bytes(&mut buf);
    assert_eq!(r.peek_sample(), before);
}

#[test]
fn shuffle_matches_reference_and_permutes() {
    let mut r = HylRandom::from_seed(7);
    let mut v: Vec<u32> = (0..10).collect();
    r.shuffle(&mut v);
    assert_eq!(v, vec![4, 6, 8, 5, 2, 3, 7, 9, 0, 1]);
    let mut sorted = v.clone();
    sorted.sort();
    assert_eq!(sorted, (0..10).collect::<Vec<u32>>());
}

#[test]
fn shuffle_of_short_slices_draws_nothing() {
    let mut r = HylRandom::from_seed(3);
    let before = r.peek_sample();
    let mut one = [5u8];
    r.shuffle(&mut one);
    let mut none: [u8; 0] = [];
    r.shuffle(&mut none);
    assert_eq!(one, [5]);
    assert_eq!(r.peek_sample(), before);
}

#[test]
fn choice_and_items_come_from_choices() {
    let choices = ['a', 'b', 'c'];
    let mut r = HylRandom::from_seed(11);
    for _ in 0..50 {
        assert!(choices.contains(r.choice(&choices)));
    }
    let mut dest = ['z'; 20];
    r.get_items(&choices, &mut dest);
    assert!(dest.iter().all(|c| choices.contains(c)));
    let v = r.get_items_vec(&choices, 15);
    assert_eq!(v.len(), 15);
    assert!(v.iter().all(|c| choices.contains(c)));
}

#[test]
fn items_follow_the_bounded_draws() {
    let choices = [10u32, 20, 30, 40, 50];
    let mut a = HylRandom::from_seed(4);
    let mut b = HylRandom::from_seed(4);
    let v = a.get_items_vec(&choices, 6);
    for item in v {
        let i = b.next_u64_max(5) as usize;
        assert_eq!(item, choices[i]);
    }
}

#[test]
fn new_and_default_are_seeded_generators() {
    let mut r = HylRandom::new().expect("the clock reads after 1970");
    let p = r.peek_sample();
    assert_eq!(r.next_u64(), p);
    let mut d = HylRandom::default();
    let q = d.peek_sample();
    assert_eq!(d.next_u64(), q);
}

#[test]
fn wide_signed_ranges_are_admitted() {
    let mut r = HylRandom::from_seed(21);
    let mut check = HylRandom::from_seed(21);
    for _ in 0..200 {
        let a = r.next_i8_range(-100, 100);
        assert!((-100..100).contains(&a));
        assert_eq!(a as i64, -100 + check.next_u64_max(200) as i64);
        let b = r.next_i16_range(-20000, 20000);
        assert!((-20000..20000).contains(&b));
        assert_eq!(b as i64, -20000 + check.next_u64_max(40000) as i64);
        let c = r.next_i32_range(i32::MIN, i32::MAX);
        assert!(c < i32::MAX);
        assert_eq!(c as i64, i32::MIN as i64 + check.next_u64_max(u32::MAX as u64) as i64);
        let d = r.next_i64_range(i64::MIN, i64::MAX);
        assert!(d < i64::MAX);
        assert_eq!(d as i128, i64::MIN as i128 + check.next_u64_max(u64::MAX) as i128);
        let e = r.next_i64_range(i64::MIN, 0);
        assert!(e < 0);
        assert_eq!(e as i128, i64::MIN as i128 + check.next_u64_max(1u64 << 63) as i128);
    }
}
