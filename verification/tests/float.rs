use sorting_hat::float::{
    count_gigabytes, divide, falls_below, from_whole, keep_within_one, multiply, no_number, plus, print_decimal,
    print_two_decimals, rank_of, reaches, reduce, to_whole, Format,
};

/// Numbers of all kinds: usual ones, the smallest and the largest, and those that
/// are none.
fn singles() -> Vec<f32> {
    let mut list = vec![
        0.0, -0.0, 1.0, -1.0, 0.1, 0.25, 0.3, 0.45, 1.6, 14.0, 36.0, 1e-45, 1e-40, 1.17549435e-38, 3.4028235e38, 1e20,
        -2.5, 16777216.0, 16777215.0, 0.99999994, f32::INFINITY, f32::NEG_INFINITY, f32::NAN,
    ];
    let mut seed: u32 = 1;
    for _ in 0..20 {
        seed = seed.wrapping_mul(1664525).wrapping_add(1013904223);
        list.push(f32::from_bits(seed));
    }
    list
}

/// What is no number has many patterns.
fn same(a: u32, b: f32) -> bool {
    a == b.to_bits() || (f32::from_bits(a).is_nan() && b.is_nan())
}

#[test]
fn numbers_are_in_order() {
    for a in singles() {
        assert_eq!(no_number(a.to_bits()), a.is_nan());
        for b in singles() {
            assert_eq!(reaches(a.to_bits(), b.to_bits()), a >= b, "{} {}", a, b);
            assert_eq!(falls_below(a.to_bits(), b.to_bits()), a < b, "{} {}", a, b);
        }
        assert!(same(keep_within_one(a.to_bits()), a.clamp(0.0, 1.0)), "{}", a);
    }
    assert_eq!(rank_of((-0.0f32).to_bits()), rank_of(0.0f32.to_bits()));
}

#[test]
fn products_are_rounded() {
    for a in singles() {
        for b in [1.6f32, 0.25, -0.5, 1e-30, 3e30, f32::INFINITY, f32::NAN, 0.0] {
            assert!(same(multiply(a.to_bits(), b.to_bits()), a * b), "{} {}", a, b);
        }
    }
}

#[test]
fn sums_differences_and_quotients_are_rounded() {
    let some: Vec<f32> = singles().into_iter().filter(|x| *x >= 0.0 && x.is_finite()).map(f32::abs).collect();
    for a in &some {
        for b in &some {
            assert!(same(plus(a.to_bits(), b.to_bits()), a + b), "{} {}", a, b);
            if *b > 0.0 {
                assert!(same(divide(a.to_bits(), b.to_bits()), a / b), "{} {}", a, b);
            }
        }
    }
    for a in singles() {
        for amount in [0.15f32, 0.3, 0.2] {
            for floor in [0.0f32, 0.1] {
                let wanted = (a - amount).max(floor);
                assert!(same(reduce(a.to_bits(), amount.to_bits(), floor.to_bits()), wanted), "{} {}", a, amount);
            }
        }
    }
}

#[test]
fn whole_numbers_go_both_ways() {
    for n in [0u64, 1, 2, 1000, 16777217, 16777219, 1 << 40, u64::MAX, u64::MAX - 1, 123456789012345] {
        assert_eq!(from_whole(n), (n as f32).to_bits(), "{}", n);
    }
    for a in singles() {
        assert_eq!(to_whole(a.to_bits()), a as u64, "{}", a);
    }
    for a in [0.999f32, 1.5, 4294967296.0, 1.8446744e19, 9.223372e18, 1e19] {
        assert_eq!(to_whole(a.to_bits()), a as u64, "{}", a);
    }
}

#[test]
fn decimals_are_rounded_from_the_exact_number() {
    for a in singles() {
        assert_eq!(print_two_decimals(a.to_bits()), format!("{:.2}", a), "{}", a);
    }
    assert_eq!(print_decimal(Format::Double, 0.25f64.to_bits(), 10), format!("{:.1}", 0.25f64));
    assert_eq!(print_decimal(Format::Double, 0.25f64.to_bits(), 10), "0.2");
}

#[test]
fn gigabytes_are_counted_in_double_precision() {
    for n in [0u64, 1, 49_999_999, 50_000_000, 150_000_000, 250_000_000, 4_650_000_000, 4_750_000_000, u64::MAX, 1 << 60] {
        let size = count_gigabytes(n);
        assert_eq!(size, (n as f64 / 1e9).to_bits(), "{}", n);
        assert_eq!(print_decimal(Format::Double, size, 10), format!("{:.1}", n as f64 / 1e9), "{}", n);
    }
}
