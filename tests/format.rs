use libpkgx::format::pretty_size;

#[test]
fn test_pretty_size() {
    assert_eq!(pretty_size(0), ("0 B".to_string(), 1));
    assert_eq!(pretty_size(1), ("1 B".to_string(), 1));
    assert_eq!(pretty_size(1024), ("1.00 KiB".to_string(), 1024));
    assert_eq!(
        pretty_size(1024 * 1024),
        ("1.00 MiB".to_string(), 1024 * 1024)
    );
    assert_eq!(
        pretty_size(1024 * 1024 * 1024),
        ("1.00 GiB".to_string(), 1024 * 1024 * 1024)
    );
    assert_eq!(
        pretty_size(1024 * 1024 * 1024 * 1024),
        ("1.00 TiB".to_string(), 1024 * 1024 * 1024 * 1024)
    );
    assert_eq!(
        pretty_size(1024 * 1024 * 1024 * 1024 * 1024),
        ("1.00 PiB".to_string(), 1024 * 1024 * 1024 * 1024 * 1024)
    );
    assert_eq!(
        pretty_size(1024 * 1024 * 1024 * 1024 * 1024 * 1024),
        (
            "1.00 EiB".to_string(),
            1024 * 1024 * 1024 * 1024 * 1024 * 1024
        )
    );
    assert_eq!(pretty_size(5000), ("4.88 KiB".to_string(), 1024));
    assert_eq!(pretty_size(5120), ("5.00 KiB".to_string(), 1024));

    assert_eq!(
        pretty_size(1024 * 1024 + 1),
        ("1.00 MiB".to_string(), 1024 * 1024)
    );
    assert_eq!(
        pretty_size(35_245 * 1024),
        ("34.4 MiB".to_string(), 1024 * 1024)
    );
    assert_eq!(
        pretty_size(356_245 * 1024 + 1),
        ("348 MiB".to_string(), 1024 * 1024)
    );
}

#[test]
fn pretty_size_precision_steps() {
    assert_eq!(pretty_size(10 * 1024).0, "10.0 KiB");
    assert_eq!(pretty_size(99 * 1024).0, "99.0 KiB");
    assert_eq!(pretty_size(100 * 1024).0, "100 KiB");
    assert_eq!(pretty_size(1023).0, "1023 B");
    assert_eq!(pretty_size(u64::MAX).0, "16.0 EiB");
}
