use peter::user_list::{profile_path, push_decimal, PROFILES_DIR};

#[test]
fn path_of_a_profile() {
    assert_eq!(
        profile_path(86841168427495424),
        "/usr/local/share/fidera/profiles/86841168427495424.json"
    );
    assert_eq!(profile_path(0), "/usr/local/share/fidera/profiles/0.json");
    assert_eq!(profile_path(u64::MAX), format!("{}/18446744073709551615.json", PROFILES_DIR));
}

#[test]
fn decimal_digits_of_a_number() {
    for n in [0, 1, 9, 10, 11, 99, 100, 101, 1234567890, 355761290809180170, u64::MAX - 1, u64::MAX] {
        let mut s = String::from("id ");
        push_decimal(&mut s, n);
        assert_eq!(s, format!("id {}", n));
    }
}
