use level_archive::naming::{decoded_file_name, level_file_name, push_decimal};

#[test]
fn level_file_is_named_after_its_offset() {
    assert_eq!(level_file_name(4096), "level_4096.bin");
    assert_eq!(level_file_name(0x1000), "level_4096.bin");
    assert_eq!(level_file_name(7), "level_7.bin");
}

#[test]
fn level_file_name_at_the_ends_of_the_range() {
    assert_eq!(level_file_name(0), "level_0.bin");
    assert_eq!(level_file_name(u32::MAX), "level_4294967295.bin");
}

#[test]
fn decoded_file_is_named_after_its_hash() {
    assert_eq!(decoded_file_name(""), "1.jpg");
    assert_eq!(decoded_file_name("a"), "293.jpg");
    assert_eq!(decoded_file_name("level01"), "16621.jpg");
}

#[test]
fn decimal_is_appended_without_leading_zeros() {
    let mut text = String::from("n=");
    push_decimal(&mut text, 10);
    assert_eq!(text, "n=10");
    push_decimal(&mut text, 0);
    assert_eq!(text, "n=100");
    push_decimal(&mut text, 1009);
    assert_eq!(text, "n=1001009");
}

#[test]
fn decimal_agrees_with_std_formatting() {
    for n in [0u32, 1, 9, 10, 11, 99, 100, 101, 12345, 1_000_000_000, 4_294_967_295] {
        let mut text = String::new();
        push_decimal(&mut text, n);
        assert_eq!(text, format!("{}", n));
    }
}
