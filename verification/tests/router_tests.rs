use restaurant_core::method::Method;
use restaurant_core::router::{no_handler_error, undefined_endpoint_error, RouteError, Router};

type Handler = fn(&str, &Vec<String>) -> (String, String);

fn get_handler(_: &str, params: &Vec<String>) -> (String, String) {
    ("get status".to_string(), format!("get message: {}", params.join(",")))
}

fn post_handler(_: &str, _: &Vec<String>) -> (String, String) {
    ("post status".to_string(), "post message".to_string())
}

fn delete_handler(_: &str, _: &Vec<String>) -> (String, String) {
    ("delete status".to_string(), "delete message".to_string())
}

#[test]
fn test_empty_base() {
    let router: Router<Handler> = Router::new("");
    assert_eq!(router.base, None);
}

#[test]
fn test_new() {
    let router = Router::new("/test")
        .post("/", post_handler as Handler)
        .post("/post/post", post_handler)
        .get("/get", get_handler)
        .get("/get/:key1", get_handler)
        .get("/get/:key1/key/:key2", get_handler);

    assert_eq!(router.base, Some("test".to_string()));

    // testing existing endpoints
    let (mut handler, mut params) = router.get_handler("/test/", "post").unwrap();
    assert_eq!(handler("", &params), ("post status".to_string(), "post message".to_string()));

    (handler, params) = router.get_handler("/test/post/post/", "post").unwrap();
    assert_eq!(handler("", &params), ("post status".to_string(), "post message".to_string()));

    (handler, params) = router.get_handler("/test/get/", "get").unwrap();
    assert_eq!(handler("", &params), ("get status".to_string(), "get message: ".to_string()));

    (handler, params) = router.get_handler("/test/get/11", "get").unwrap();
    assert_eq!(handler("", &params), ("get status".to_string(), "get message: 11".to_string()));

    (handler, params) = router.get_handler("/test/get/22/key/33", "get").unwrap();
    assert_eq!(handler("", &params), ("get status".to_string(), "get message: 22,33".to_string()));

    // testing not found endpoints
    let mut err = router.get_handler("/test/", "delete").unwrap_err();
    assert_eq!(err.message(), no_handler_error(&Method::Delete, "/test/"));

    err = router.get_handler("/test/", "get").unwrap_err();
    assert_eq!(err.message(), no_handler_error(&Method::Get, "/test/"));

    err = router.get_handler("/delete/45/post/12", "post").unwrap_err();
    assert_eq!(err.message(), undefined_endpoint_error("/delete/45/post/12"));
}

#[test]
fn test_merge() {
    let router1 = Router::new("/test1")
        .post("/", post_handler as Handler)
        .get("/get/:key", get_handler);

    let router2 = Router::new("/test2")
        .post("/", post_handler as Handler)
        .delete("/delete", delete_handler);

    let router_merged = Router::new("/merged")
        .get("/get/:key", get_handler as Handler)
        .merge_from(router1)
        .merge_from(router2);

    // testing existing endpoints
    let (mut handler, mut params) = router_merged.get_handler("/merged/test1/", "post").unwrap();
    assert_eq!(handler("", &params), ("post status".to_string(), "post message".to_string()));

    (handler, params) = router_merged.get_handler("/merged/test1/get/2023", "get").unwrap();
    assert_eq!(handler("", &params), ("get status".to_string(), "get message: 2023".to_string()));

    (handler, params) = router_merged.get_handler("/merged/test2", "post").unwrap();
    assert_eq!(handler("", &params), ("post status".to_string(), "post message".to_string()));

    (handler, params) = router_merged.get_handler("/merged/test2/delete", "delete").unwrap();
    assert_eq!(handler("", &params), ("delete status".to_string(), "delete message".to_string()));

    (handler, params) = router_merged.get_handler("/merged/get/2024", "get").unwrap();
    assert_eq!(handler("", &params), ("get status".to_string(), "get message: 2024".to_string()));

    // testing not found endpoints
    let mut err = router_merged.get_handler("/test1", "post").unwrap_err();
    assert_eq!(err.message(), undefined_endpoint_error("/test1"));

    err = router_merged.get_handler("/test2", "post").unwrap_err();
    assert_eq!(err.message(), undefined_endpoint_error("/test2"));

    err = router_merged.get_handler("/test2/delete", "get").unwrap_err();
    assert_eq!(err.message(), undefined_endpoint_error("/test2/delete"));

    err = router_merged.get_handler("/merged", "post").unwrap_err();
    assert_eq!(err.message(), no_handler_error(&Method::Post, "/merged"));
}

#[test]
fn literal_route_resolves_to_registered_handler_with_no_params() {
    let router = Router::new("")
        .get("/a/b/c", get_handler as Handler)
        .post("/a/b/c", post_handler);
    let (handler, params) = router.get_handler("/a/b/c", "GET").unwrap();
    assert!(params.is_empty());
    assert_eq!(handler("", &params), ("get status".to_string(), "get message: ".to_string()));
    let (handler, params) = router.get_handler("/a/b/c", "POST").unwrap();
    assert_eq!(handler("", &params), ("post status".to_string(), "post message".to_string()));
}

#[test]
fn captures_single_param_in_order() {
    let router = Router::new("").get("/get/:id", get_handler as Handler);
    let (_, params) = router.get_handler("/get/42", "GET").unwrap();
    assert_eq!(params, vec!["42".to_string()]);
}

#[test]
fn captures_two_params_in_order() {
    let router = Router::new("").get("/get/:a/mid/:b", get_handler as Handler);
    let (_, params) = router.get_handler("/get/1/mid/2", "GET").unwrap();
    assert_eq!(params, vec!["1".to_string(), "2".to_string()]);
}

#[test]
fn literal_beats_wildcard() {
    let router = Router::new("")
        .get("/x/foo", get_handler as Handler)
        .get("/x/:w", post_handler);
    // the literal branch wins, so nothing is captured
    let (handler, params) = router.get_handler("/x/foo", "GET").unwrap();
    assert!(params.is_empty());
    assert_eq!(handler("", &params).0, "get status".to_string());
    // another segment takes the wildcard and is captured
    let (handler, params) = router.get_handler("/x/bar", "GET").unwrap();
    assert_eq!(params, vec!["bar".to_string()]);
    assert_eq!(handler("", &params).0, "post status".to_string());
}

#[test]
fn no_backtracking_into_wildcard() {
    // both a literal child "foo" and a wildcard child exist under /x;
    // only the wildcard branch continues with /z below it
    let router = Router::new("")
        .get("/x/foo/y", get_handler as Handler)
        .get("/x/:w/z", post_handler);
    // the segment "foo" commits to the literal branch, which has no /z,
    // and the router does not back up into the wildcard
    let err = router.get_handler("/x/foo/z", "GET").unwrap_err();
    assert!(matches!(err, RouteError::UndefinedEndpoint(_)));
    // a different segment goes through the wildcard and succeeds
    assert!(router.get_handler("/x/bar/z", "GET").is_ok());
}

#[test]
fn error_kinds_are_distinguishable() {
    let router = Router::new("").get("/known", get_handler as Handler);
    let err = router.get_handler("/known", "POST").unwrap_err();
    assert!(matches!(err, RouteError::NoHandlerForMethod(Method::Post, _)));
    assert_eq!(err.message(), "No handler for POST /known found.");
    let err = router.get_handler("/unknown", "GET").unwrap_err();
    assert!(matches!(err, RouteError::UndefinedEndpoint(_)));
    assert_eq!(err.message(), "Undefined endpoint /unknown.");
    let err = router.get_handler("/known", "PATCH").unwrap_err();
    assert!(matches!(err, RouteError::UnknownMethod(_)));
    assert_eq!(err.message(), "Undefined method PATCH");
}

#[test]
fn base_is_the_first_segment_only() {
    let router: Router<Handler> = Router::new("/a/b");
    assert_eq!(router.base, Some("a".to_string()));
    let router: Router<Handler> = Router::new("/");
    assert_eq!(router.base, None);
}

#[test]
fn repeated_separators_are_ignored() {
    let router = Router::new("/test").get("/get/:key1", get_handler as Handler);
    let (_, params) = router.get_handler("//test///get//77//", "GET").unwrap();
    assert_eq!(params, vec!["77".to_string()]);
}

#[test]
fn merge_replaces_a_colliding_child() {
    let a = Router::new("").get("/c/old", get_handler as Handler);
    let b = Router::new("/c").get("/new", post_handler as Handler);
    let merged = a.merge_from(b);
    // the moved subtree replaces the old child wholesale
    assert!(merged.get_handler("/c/new", "GET").is_ok());
    assert!(matches!(
        merged.get_handler("/c/old", "GET").unwrap_err(),
        RouteError::UndefinedEndpoint(_)
    ));
}

#[test]
fn first_registration_wins() {
    let router = Router::new("")
        .get("/spot", get_handler as Handler)
        .get("/spot", post_handler);
    let (handler, params) = router.get_handler("/spot", "GET").unwrap();
    assert_eq!(handler("", &params).0, "get status".to_string());
}

#[test]
fn base_nests_merged_routes() {
    // router B with base /b merged into A with base /a is reachable under
    // /a/b/... and not under /b/... alone
    let b = Router::new("/b").get("/leaf", get_handler as Handler);
    let a = Router::new("/a").merge_from(b);
    assert!(a.get_handler("/a/b/leaf", "GET").is_ok());
    let err = a.get_handler("/b/leaf", "GET").unwrap_err();
    assert!(matches!(err, RouteError::UndefinedEndpoint(_)));
}
