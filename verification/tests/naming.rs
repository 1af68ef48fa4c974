use hardlink_dedup::naming::temp_path;

#[test]
fn temporary_link_goes_beside_its_target() {
    assert_eq!(temp_path("/data/a/file.txt", "tmp"), Some("/data/a/tmp".to_string()));
    assert_eq!(temp_path("/file.txt", "tmp"), Some("/tmp".to_string()));
    assert_eq!(temp_path("dir/file.txt", "tmp"), Some("dir/tmp".to_string()));
}

#[test]
fn temporary_link_of_a_bare_name_is_a_bare_name() {
    assert_eq!(temp_path("file.txt", "tmp"), Some("tmp".to_string()));
}

#[test]
fn target_without_a_directory_has_no_place_for_a_link() {
    assert_eq!(temp_path("/", "tmp"), None);
    assert_eq!(temp_path("", "tmp"), None);
}

#[test]
fn temporary_link_is_not_the_target_itself() {
    let target = "/data/a/file.txt";
    let name = "0d9fbd44-5f0c-4f55-9c3c-0a4f0a6a3b11";
    let temp = temp_path(target, name).unwrap();
    assert_ne!(temp, target);
    assert_ne!(temp, name);
    assert_eq!(temp, "/data/a/0d9fbd44-5f0c-4f55-9c3c-0a4f0a6a3b11");
}
