use restaurant_core::method::Method;

#[test]
fn test_as_str() {
    assert_eq!(Method::Get.as_str(), "GET");
    assert_eq!(Method::Post.as_str(), "POST");
    assert_eq!(Method::Delete.as_str(), "DELETE");
}

#[test]
fn test_from_str() {
    assert_eq!(Method::from_str("get").unwrap(), Method::Get);
    assert_eq!(Method::from_str("Get").unwrap(), Method::Get);
    assert_eq!(Method::from_str("GET").unwrap(), Method::Get);

    assert_eq!(Method::from_str("post").unwrap(), Method::Post);
    assert_eq!(Method::from_str("Post").unwrap(), Method::Post);
    assert_eq!(Method::from_str("POST").unwrap(), Method::Post);

    assert_eq!(Method::from_str("delete").unwrap(), Method::Delete);
    assert_eq!(Method::from_str("Delete").unwrap(), Method::Delete);
    assert_eq!(Method::from_str("DELETE").unwrap(), Method::Delete);

    assert_eq!(Method::from_str("undefined").unwrap_err(), "Undefined method undefined");
}

#[test]
fn from_str_mixed_case_and_rejects() {
    assert_eq!(Method::from_str("gEt").unwrap(), Method::Get);
    assert_eq!(Method::from_str("dElEtE").unwrap(), Method::Delete);
    assert_eq!(Method::from_str("").unwrap_err(), "Undefined method ");
    assert_eq!(Method::from_str("PATCH").unwrap_err(), "Undefined method PATCH");
    // an affix is not a match, so the comparison is not a containment check
    assert!(Method::from_str("GETX").is_err());
    assert!(Method::from_str("GE").is_err());
}
