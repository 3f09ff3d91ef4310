use dojo::ids::{check_file_path, parse_commit_id};

#[test]
fn commit_ids_decode_from_hex() {
    assert_eq!(parse_commit_id("0aFf"), Ok(vec![0x0a, 0xff]));
    assert_eq!(parse_commit_id(""), Ok(Vec::new()));
    assert_eq!(parse_commit_id("abc"), Err("Invalid commit ID hex".to_string()));
    assert_eq!(parse_commit_id("zz"), Err("Invalid commit ID hex".to_string()));
    assert_eq!(parse_commit_id("é0"), Err("Invalid commit ID hex".to_string()));
}

#[test]
fn file_paths_in_internal_form() {
    assert_eq!(check_file_path("src/main.rs"), Ok(()));
    assert_eq!(check_file_path(""), Ok(()));
    assert_eq!(check_file_path("/abs"), Err("Invalid file path".to_string()));
    assert_eq!(check_file_path("dir/"), Err("Invalid file path".to_string()));
    assert_eq!(check_file_path("a//b"), Err("Invalid file path".to_string()));
}
