use thokr::stats::{isqrt, mean, std_dev};

#[test]
fn test_mean() {
    // means in thousandths: 19.4 and 18.6
    assert_eq!(mean(&vec![10, 20, 30, 15, 22]), Some(19400));
    assert_eq!(mean(&vec![15, 7, 55, 12, 4]), Some(18600));
}

#[test]
fn test_std_dev() {
    // population standard deviations in thousandths:
    // 10.322790320451151 and 20.997354330698162, rounded half-up
    assert_eq!(std_dev(&vec![100, 120, 90, 102, 94]), Some(10323));
    assert_eq!(std_dev(&vec![15, 7, 55]), Some(20997));
}

#[test]
fn test_mean_empty_and_single() {
    assert_eq!(mean(&vec![]), None);
    assert_eq!(mean(&vec![7]), Some(7000));
    // 1.5 rounds half-up to 1.500 exactly representable; 1/3 rounds to 0.333
    assert_eq!(mean(&vec![1, 2]), Some(1500));
    assert_eq!(mean(&vec![1, 0, 0]), Some(333));
}

#[test]
fn test_std_dev_empty_and_degenerate() {
    assert_eq!(std_dev(&vec![]), None);
    // one sample, or all-equal samples, deviate by nothing
    assert_eq!(std_dev(&vec![42]), Some(0));
    assert_eq!(std_dev(&vec![5, 5, 5, 5]), Some(0));
    // [0, 2]: mean 1, variance 1, std-dev 1.000
    assert_eq!(std_dev(&vec![0, 2]), Some(1000));
}

#[test]
fn test_isqrt_exact_and_between() {
    assert_eq!(isqrt(0), 0);
    assert_eq!(isqrt(1), 1);
    assert_eq!(isqrt(3), 1);
    assert_eq!(isqrt(4), 2);
    assert_eq!(isqrt(99), 9);
    assert_eq!(isqrt(100), 10);
    assert_eq!(isqrt(1_000_000_000_000), 1_000_000);
    assert_eq!(isqrt(u64::MAX as u128), 4_294_967_295);
}
