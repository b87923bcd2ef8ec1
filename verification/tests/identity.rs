use webrank::identity::{get_random_header, identity, IDENTITY_COUNT};

#[test]
fn pool_has_ten_identities() {
    assert_eq!(IDENTITY_COUNT, 10);
    for choice in 0..IDENTITY_COUNT {
        let text = identity(choice).unwrap();
        assert!(text.starts_with("Mozilla/5.0 (Windows NT 10.0; Win64; x64)"));
        assert!(text.ends_with("Safari/537.36"));
    }
}

#[test]
fn identities_are_the_listed_ones() {
    assert_eq!(
        identity(0),
        Some("Mozilla/5.0 (Windows NT 10.0; Win64; x64) AppleWebKit/537.36 (KHTML, like Gecko) Chrome/74.0.3729.169 Safari/537.36")
    );
    assert_eq!(
        identity(1),
        Some("Mozilla/5.0 (Windows NT 10.0; Win64; x64) AppleWebKit/537.36 (KHTML, like Gecko) Chrome/87.0.4280.88 Safari/537.36")
    );
    assert_eq!(identity(4), identity(0));
    assert_eq!(
        identity(9),
        Some("Mozilla/5.0 (Windows NT 10.0; Win64; x64) AppleWebKit/537.36 (KHTML, like Gecko) Chrome/79.0.3945.130 Safari/537.36")
    );
}

#[test]
fn choice_outside_the_pool_gives_nothing() {
    assert_eq!(identity(10), None);
    assert_eq!(identity(usize::MAX), None);
}

#[test]
fn random_header_comes_from_the_pool() {
    for _ in 0..200 {
        let header = get_random_header();
        assert!((0..IDENTITY_COUNT).any(|choice| identity(choice) == Some(header.as_str())));
    }
}

#[test]
fn random_header_varies() {
    let first = get_random_header();
    let mut varied = false;
    for _ in 0..500 {
        if get_random_header() != first {
            varied = true;
        }
    }
    assert!(varied);
}
