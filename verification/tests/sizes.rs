use wormhole_cli::sizes::{calculate_piece_length, format_size, round_size_as_mb};

#[test]
fn test_format_size() {
    assert_eq!(format_size(0), "0 B");
    assert_eq!(format_size(500), "500 B");
    assert_eq!(format_size(1024), "1.00 KB");
    assert_eq!(format_size(1024 * 1024), "1.00 MB");
}

#[test]
fn test_round_size_as_mb() {
    assert_eq!(round_size_as_mb(1), 0);
    assert_eq!(round_size_as_mb(2_600_000), 3);
    assert_eq!(round_size_as_mb(17_200_000), 17);
    assert_eq!(round_size_as_mb(121_000_000), 120);
    assert_eq!(round_size_as_mb(990_000_000), 990);
    assert_eq!(round_size_as_mb(996_000_000), 1000);
    assert_eq!(round_size_as_mb(2_430_000_000), 2400);
}

#[test]
fn test_calculate_piece_length() {
    // Very small files should get minimum 16 KiB
    assert_eq!(calculate_piece_length(100), 16384);
    assert_eq!(calculate_piece_length(1000), 16384);

    // 1 MB file
    let one_mb = 1_000_000;
    let piece_len_1mb = calculate_piece_length(one_mb);
    assert!(piece_len_1mb >= 16384);
    assert_eq!(piece_len_1mb % 16384, 0); // Should be multiple of 16 KiB

    // 10 MB file should get at least 5 MB piece length rounded to 16 KiB
    let ten_mb = 10_000_000;
    let piece_len_10mb = calculate_piece_length(ten_mb);
    assert!(piece_len_10mb >= 5_000_000);
    assert_eq!(piece_len_10mb % 16384, 0);

    // 20 MB file
    let twenty_mb = 20_000_000;
    let piece_len_20mb = calculate_piece_length(twenty_mb);
    assert!(piece_len_20mb >= 5_000_000);
    assert_eq!(piece_len_20mb % 16384, 0);
}

/// Sizes of all magnitudes, and those around powers of two and of ten.
fn samples() -> Vec<u64> {
    let mut samples: Vec<u64> = (0..3000).collect();
    let mut n: u64 = 1;
    while n < 1 << 50 {
        for d in 0..3 {
            samples.push(n + d);
            samples.push(n.saturating_sub(d));
            samples.push(n / 3 * 2 + d);
            samples.push((n as f64 * 1.414_213_562) as u64 + d);
        }
        n *= 2;
    }
    let mut n: u64 = 1;
    while n < 1_000_000_000_000_000 {
        for d in [0, 1, 49, 50, 51, 99] {
            samples.push(n + n / 100 * d);
            samples.push((n + n / 100 * d).saturating_sub(1));
        }
        n *= 10;
    }
    let mut x: u64 = 12345;
    for _ in 0..2000 {
        x = x.wrapping_mul(6364136223846793005).wrapping_add(1442695040888963407);
        samples.push(x >> (14 + x % 45));
    }
    samples
}

fn piece_length_by_logarithm(n: usize) -> usize {
    let base = if n < 1024 {
        16384
    } else {
        let kb = n as f64 / 1024.0;
        let exponent = (kb.log2() + 0.5).floor() as u32;
        (1_usize << exponent).max(16384)
    };
    base.max(n.min(5_000_000).div_ceil(16384) * 16384)
}

#[test]
fn piece_length_follows_the_logarithm() {
    for n in samples() {
        let n = n as usize;
        assert_eq!(calculate_piece_length(n), piece_length_by_logarithm(n), "{}", n);
    }
}

#[test]
fn piece_lengths_have_exact_values() {
    assert_eq!(calculate_piece_length(0), 16384);
    assert_eq!(calculate_piece_length(16384), 16384);
    assert_eq!(calculate_piece_length(16385), 32768);
    assert_eq!(calculate_piece_length(5_000_000), 5_013_504);
    assert_eq!(calculate_piece_length(1_000_000_000), 5_013_504);
    assert_eq!(calculate_piece_length(10_000_000_000), 8_388_608);
    assert_eq!(calculate_piece_length(1 << 40), 1 << 30);
}

fn megabytes_by_division(size: usize) -> usize {
    let raw_size_mb = size as f64 / 1_000_000.0;
    let mut scaling_factor = 1;
    let mut quantity = raw_size_mb.round() as usize;
    while quantity > 100 {
        scaling_factor *= 10;
        quantity = (raw_size_mb / scaling_factor as f64).round() as usize;
    }
    quantity * scaling_factor
}

#[test]
fn megabytes_are_rounded_quotients() {
    for n in samples() {
        let n = n as usize;
        assert_eq!(round_size_as_mb(n), megabytes_by_division(n), "{}", n);
    }
    assert_eq!(round_size_as_mb(499_999), 0);
    assert_eq!(round_size_as_mb(500_000), 1);
    assert_eq!(round_size_as_mb(100_499_999), 100);
    assert_eq!(round_size_as_mb(100_500_000), 100);
    assert_eq!(round_size_as_mb(105_000_000), 110);
    assert_eq!(round_size_as_mb(usize::MAX), 18_000_000_000_000);
}

fn size_by_division(bytes: u64) -> String {
    const UNITS: &[&str] = &["B", "KB", "MB", "GB", "TB"];
    if bytes == 0 {
        return "0 B".to_string();
    }
    let size = bytes as f64;
    let exp = (size.ln() / 1024_f64.ln()).floor() as usize;
    let exp = exp.min(UNITS.len() - 1);
    let value = size / 1024_f64.powi(exp as i32);
    if exp == 0 {
        format!("{} B", bytes)
    } else {
        format!("{:.2} {}", value, UNITS[exp])
    }
}

#[test]
fn sizes_are_shown_with_two_decimals() {
    for n in samples() {
        assert_eq!(format_size(n), size_by_division(n), "{}", n);
    }
    // Halves of a hundredth go to the even neighbour.
    for n in 0..1024 {
        assert_eq!(format_size(1024 + n), size_by_division(1024 + n), "{}", n);
    }
    assert_eq!(format_size(1023), "1023 B");
    assert_eq!(format_size(1024 + 128), "1.12 KB");
    assert_eq!(format_size(1024 + 384), "1.38 KB");
    assert_eq!(format_size(1024 * 1024 - 1), "1024.00 KB");
    assert_eq!(format_size(3 << 30), "3.00 GB");
    assert_eq!(format_size(5000 << 40), "5000.00 TB");
}
