use sorted_checksums::prefix::{count_dots, first_parts, leading_ip_len, PrefixCounter};

#[test]
fn leading_ip_takes_most_groups() {
    assert_eq!(leading_ip_len(b"10.0.0.1 foo"), Some(8));
    assert_eq!(leading_ip_len(b"1.2.3.4.5"), Some(7));
    assert_eq!(leading_ip_len(b"1.2"), Some(3));
    assert_eq!(leading_ip_len(b"1.2."), Some(3));
    assert_eq!(leading_ip_len(b"192.168.1.2345"), Some(13));
}

#[test]
fn leading_ip_needs_a_group_and_digits() {
    assert_eq!(leading_ip_len(b"1234.5"), None);
    assert_eq!(leading_ip_len(b"12"), None);
    assert_eq!(leading_ip_len(b" 1.2"), None);
    assert_eq!(leading_ip_len(b""), None);
    assert_eq!(leading_ip_len(b"a.b.c.d"), None);
}

#[test]
fn first_parts_joins_leading_parts() {
    assert_eq!(first_parts(b"10.0.0.1", 1), b"10".to_vec());
    assert_eq!(first_parts(b"10.0.0.1", 3), b"10.0.0".to_vec());
    assert_eq!(first_parts(b"10.0", 3), b"10.0".to_vec());
    assert_eq!(count_dots(b"10.0.0.1"), 3);
    assert_eq!(count_dots(b""), 0);
}

#[test]
fn most_common_prefers_most_parts() {
    let mut c = PrefixCounter::new();
    for line in ["10.0.0.1 a", "10.0.0.1 b", "10.0.0.2 c", "", "   ", "x"] {
        c.add_line(line);
    }
    assert_eq!(c.most_common(), Some(b"10.0.0.1".to_vec()));
}

#[test]
fn most_common_needs_half_of_lines() {
    let mut c = PrefixCounter::new();
    for line in ["10.0.0.1 a", "x", "y", "z", "w"] {
        c.add_line(line);
    }
    assert_eq!(c.most_common(), None);
    let empty = PrefixCounter::new();
    assert_eq!(empty.most_common(), None);
}

#[test]
fn shorter_prefix_wins_when_full_addresses_differ() {
    let mut c = PrefixCounter::new();
    for line in ["10.1.2.3 a", "10.1.2.4 b", "10.1.5.6 c", "10.1.7.8 d", "10.1.2.9 e"] {
        c.add_line(line);
    }
    assert_eq!(c.most_common(), Some(b"10.1.2".to_vec()));
}
