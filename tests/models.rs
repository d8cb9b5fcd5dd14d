use dit::key::validate_task_key;
use dit::models::Task;

fn assert_valid_key(k: &str) {
    assert!(validate_task_key(k).is_ok(), "{} was expected to be a valid key", k);
    assert!(Task::validate_key(k).is_ok(), "{} was expected to be a valid key", k);
}

fn assert_invalid_key(k: &str) {
    assert!(validate_task_key(k).is_err(), "{} was not expected to be valid", k);
    assert!(Task::validate_key(k).is_err(), "{} was not expected to be valid", k);
}

#[test]
fn test_validate_task_key() {
    assert_valid_key("f");
    assert_valid_key("/f");
    assert_valid_key("foo");
    assert_valid_key("/foo");
    assert_valid_key("/foo/bar");
    assert_valid_key("foo/bar");
    assert_valid_key("f_O/b-R");
    assert_valid_key("f_O");
    assert_valid_key("f-O");
    assert_valid_key("/f_O");
    assert_valid_key("/f-O");

    assert_invalid_key("_oo");
    assert_invalid_key("-oo");
    assert_invalid_key("foo/-ar");
    assert_invalid_key("foo/_ar");
    assert_invalid_key("foo/bar/");
    assert_invalid_key("foo.bar");
    assert_invalid_key(".foo/bar");
}

#[test]
fn rejected_key_is_handed_back() {
    assert_eq!(validate_task_key("foo.bar"), Err("foo.bar".to_string()));
    assert_eq!(validate_task_key(""), Err(String::new()));
    assert_eq!(validate_task_key("foo//bar"), Err("foo//bar".to_string()));
}
