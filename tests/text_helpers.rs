use forge_tree::assignment::split_assignment;
use forge_tree::case::{pascal_case, snake_case};

#[test]
fn snake_case_marks_capitals() {
    assert_eq!(snake_case("HelloWorld"), "hello_world");
    assert_eq!(snake_case("myHTTP"), "my_h_t_t_p");
    assert_eq!(snake_case("_Foo"), "foo");
    assert_eq!(snake_case(""), "");
    assert_eq!(snake_case("plain"), "plain");
}

#[test]
fn pascal_case_joins_words() {
    assert_eq!(pascal_case("hello_world-foo bar"), "HelloWorldFooBar");
    assert_eq!(pascal_case("__a--b  c"), "ABC");
    assert_eq!(pascal_case(""), "");
    assert_eq!(pascal_case("straße"), "Straße");
}

#[test]
fn assignment_splits_at_first_equals() {
    assert_eq!(split_assignment("a=b=c"), Some(("a".to_string(), "b=c".to_string())));
    assert_eq!(split_assignment("=x"), Some((String::new(), "x".to_string())));
    assert_eq!(split_assignment("k="), Some(("k".to_string(), String::new())));
    assert_eq!(split_assignment("novalue"), None);
}
