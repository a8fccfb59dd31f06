use chunking_core::relative_unix_path::{RelativeSystemPathBuf, RelativeUnixPath};

#[test]
fn to_system_path_replaces_the_separator() {
    let path = RelativeUnixPath::from("dir/nested/file.txt").to_system_path();
    let separator = std::path::MAIN_SEPARATOR;
    assert_eq!(path.as_str(), format!("dir{separator}nested{separator}file.txt"));
}

#[test]
fn to_system_path_keeps_what_is_no_separator() {
    let path = RelativeUnixPath::from("a b\\c.é").to_system_path();
    assert_eq!(path, RelativeSystemPathBuf::new_unchecked("a b\\c.é".to_string()));
    assert_eq!(RelativeUnixPath::from("").to_system_path().as_str(), "");
}

#[test]
fn to_system_path_keeps_the_length() {
    let unix = "/a//b/";
    let system = RelativeUnixPath::from(unix).to_system_path();
    assert_eq!(system.as_str().chars().count(), unix.chars().count());
    assert!(system.as_str().chars().all(|c| c == 'a' || c == 'b' || c == '/' || c == '\\'));
}
