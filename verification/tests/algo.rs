use ime_core::algo::utilities::{checksum, compare_version_string, ChecksumComputer};

#[test]
fn is_compare_version_string_correctly() {
    assert_eq!(compare_version_string("1", "1"), 0);
    assert_eq!(compare_version_string("1", "0"), 1);
    assert_eq!(compare_version_string("0", "1"), -1);
    assert_eq!(compare_version_string("1.01", "1.001"), 0);
    assert_eq!(compare_version_string("1", "1.0.0"), 0);
    assert_eq!(compare_version_string("123", "3"), 1);
    assert_eq!(compare_version_string("1.10.1.rs", "1.10.1"), 0);
    assert_eq!(compare_version_string("1.10.1rs", "1.10.1"), 0);
    assert_eq!(compare_version_string("1.10.1-rs", "1.10c.1"), 0);
    assert_eq!(compare_version_string("2024-02-05", "0.40"), 1);
}

#[test]
fn is_check_crc_sum_correctly() {
    let license: Vec<u8> = b"LICENSE".to_vec();
    let gitignore: Vec<u8> = b".gitignore".to_vec();
    let readme: Vec<u8> = b"README.md".to_vec();
    println!("crcsum: {} - LICENSE", checksum(&license));
    println!("crcsum: {} - .gitignore", checksum(&gitignore));
    println!("crcsum: {} - README.md", checksum(&readme));
}

#[test]
fn checksum_distinguishes_buffers() {
    // the checksum depends on the absorbed bytes: feeding different data
    // must change it, feeding the same data in two steps must not
    let a: Vec<u8> = vec![1, 2, 3, 4];
    let b: Vec<u8> = vec![1, 2, 3, 5];
    assert_ne!(checksum(&a), checksum(&b));
    let mut one = ChecksumComputer::from_initial(0);
    one.update(&a);
    let mut two = ChecksumComputer::from_initial(0);
    two.update(&vec![1, 2]);
    two.update(&vec![3, 4]);
    assert_eq!(one.checksum(), two.checksum());
    assert_eq!(one.checksum(), checksum(&a));
}
