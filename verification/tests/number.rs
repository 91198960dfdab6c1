use sorting_hat::number::{decimal, decimal_usize, decimal_wide, parse_count, parse_measure};
use sorting_hat::order::sorts_before;
use sorting_hat::paths::{depth_of, extension_of, join_paths, name_of, parent_of, paths_equal, stem_of};

fn chars(s: &str) -> Vec<char> {
    s.chars().collect()
}

#[test]
fn numbers_print_and_read_back() {
    for n in [0u64, 7, 10, 255, 1_000_000, u64::MAX] {
        assert_eq!(decimal(n), n.to_string());
        assert_eq!(parse_count(&chars(&decimal(n))), Some(n as usize));
    }
    assert_eq!(decimal_usize(42), "42");
    assert_eq!(decimal_wide(u128::MAX), u128::MAX.to_string());
}

#[test]
fn only_digits_are_a_count() {
    assert_eq!(parse_count(&chars("+12")), Some(12));
    for bad in ["", "+", "-1", "1.5", " 1", "12a", "99999999999999999999"] {
        assert_eq!(parse_count(&chars(bad)), None, "{}", bad);
    }
}

fn measure(s: &str) -> Option<u32> {
    parse_measure(&chars(s))
}

#[test]
fn measurements_are_read_to_the_nearest_number() {
    assert_eq!(measure("14"), Some(14.0f32.to_bits()));
    assert_eq!(measure("-3"), Some((-3.0f32).to_bits()));
    assert_eq!(measure("22.5"), Some(22.5f32.to_bits()));
    assert_eq!(measure("0.1239"), Some(0.1239f32.to_bits()));
    assert_eq!(measure(".5"), Some(0.5f32.to_bits()));
    assert_eq!(measure("5."), Some(5.0f32.to_bits()));
    assert_ne!(measure("12.0001"), measure("12.0004"));
    assert_eq!(measure("12.0000000001"), measure("12"));
    for bad in ["", ".", "a", "1.2.3", "--1", "+-1", "1 ", "infinit", "nanny"] {
        assert_eq!(measure(bad), None, "{}", bad);
    }
}

#[test]
fn measurements_may_have_an_exponent() {
    assert_eq!(measure("1.2e1"), Some(12.0f32.to_bits()));
    assert_eq!(measure("1E2"), Some(100.0f32.to_bits()));
    assert_eq!(measure("-225e-1"), Some((-22.5f32).to_bits()));
    assert_eq!(measure("+.05E+3"), Some(50.0f32.to_bits()));
    assert_eq!(measure("12345e-7"), Some(0.0012345f32.to_bits()));
    assert_eq!(measure("0e99999999999999999999999999999999999"), Some(0));
    assert_eq!(measure("1e-99999999999999999999999999999999999"), Some(0));
    assert_eq!(measure("1e40"), Some(f32::INFINITY.to_bits()));
    assert_eq!(measure("3e99999999999999999999999999999999999"), Some(f32::INFINITY.to_bits()));
    for bad in ["e1", "1e", "1e+", "1e1.5", "1e1e1", ".e3", "1e 2"] {
        assert_eq!(measure(bad), None, "{}", bad);
    }
}

#[test]
fn measurements_read_as_the_standard_library_reads_them() {
    let texts = [
        "0", "-0", "0.1", "0.3", "1.17549435e-38", "1.1754942e-38", "1e-45", "7e-46", "7.1e-46", "1.4e-45",
        "3.4028235e38", "3.4028236e38", "3.40282357e38", "16777217", "16777219", "33554435", "9007199254740993",
        "0.000000000000000000000000000000000000000000000000000001", "8388609.5", "8388608.5", "123456789.125",
        "1.00000005960464477539062499", "1.000000059604644775390625", "1.00000005960464477539062501", "inf",
        "-inf", "+Infinity", "INF", "4.5e0", "99999999999999999999999999999999999999", "1e38", "1e39", "5e-324",
    ];
    for s in texts {
        assert_eq!(measure(s), s.parse::<f32>().ok().map(f32::to_bits), "{}", s);
    }
    let mut seed: u64 = 12345;
    for _ in 0..200 {
        seed = seed.wrapping_mul(6364136223846793005).wrapping_add(1442695040888963407);
        let s = format!("{}.{}e{}", (seed >> 40) % 1000, (seed >> 20) % 100_000, (seed >> 58) as i32 - 30);
        assert_eq!(measure(&s), s.parse::<f32>().ok().map(f32::to_bits), "{}", s);
    }
    assert!(measure("NaN").is_some_and(|b| f32::from_bits(b).is_nan()));
    assert!(measure("-nan").is_some_and(|b| f32::from_bits(b).is_nan()));
}

#[test]
fn texts_sort_by_character() {
    assert!(sorts_before("a", "b"));
    assert!(sorts_before("a", "aa"));
    assert!(sorts_before("Z", "a"));
    assert!(!sorts_before("a", "a"));
}

#[test]
fn paths_come_apart() {
    assert_eq!(name_of("/a/b.tar.gz").as_deref(), Some("b.tar.gz"));
    assert_eq!(stem_of("/a/b.tar.gz").as_deref(), Some("b.tar"));
    assert_eq!(extension_of("/a/b.tar.gz").as_deref(), Some("gz"));
    assert_eq!(extension_of(".bashrc"), None);
    assert_eq!(name_of("a/.."), None);
    assert_eq!(name_of("/"), None);
    assert_eq!(parent_of("a/b").as_deref(), Some("a"));
    assert_eq!(parent_of("a").as_deref(), Some(""));
    assert_eq!(parent_of("/"), None);
    assert_eq!(depth_of("/a/b"), 3);
    assert_eq!(depth_of("a//b/./"), 2);
}

#[test]
fn paths_go_together() {
    assert_eq!(join_paths("a", "b"), "a/b");
    assert_eq!(join_paths("a/", "b"), "a/b");
    assert_eq!(join_paths("", "b"), "b");
    assert_eq!(join_paths("a", "/b"), "/b");
    assert!(paths_equal("a//b/.", "a/b"));
    assert!(!paths_equal("a/b", "/a/b"));
    assert!(!paths_equal("./a", "a"));
}
