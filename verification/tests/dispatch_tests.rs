use restaurant_core::dispatch::{
    build_response, dispatch, parse_request_line, request_body, Dispatch, BAD_REQUEST, NOT_FOUND,
    OK_RESPONSE,
};
use restaurant_core::router::Router;
use restaurant_core::routes::{self, Endpoint};

type Handler = fn(&str, &Vec<String>) -> (String, String);

fn menu_handler(_: &str, _: &Vec<String>) -> (String, String) {
    (OK_RESPONSE.to_string(), "[]".to_string())
}

fn delete_order_handler(_: &str, params: &Vec<String>) -> (String, String) {
    (OK_RESPONSE.to_string(), format!("deleted {}", params.join(",")))
}

#[test]
fn parses_method_and_path() {
    let r = parse_request_line("GET /menu HTTP/1.1\r\nHost: x\r\n\r\n").unwrap();
    assert_eq!(r.0, "GET");
    assert_eq!(r.1, "/menu");
}

#[test]
fn strips_query_string() {
    let r = parse_request_line("GET /menu?page=2&size=5 HTTP/1.1\r\n\r\n").unwrap();
    assert_eq!(r.1, "/menu");
}

#[test]
fn rejects_short_request_lines() {
    assert!(parse_request_line("").is_none());
    assert!(parse_request_line("GET").is_none());
    assert!(parse_request_line("GET\r\n/menu HTTP/1.1").is_none());
    assert!(parse_request_line("   \r\n").is_none());
}

#[test]
fn extracts_body_after_first_blank_line() {
    let req = "POST /orders HTTP/1.1\r\nContent-Type: application/json\r\n\r\n{\"table_id\":1}";
    assert_eq!(request_body(req), "{\"table_id\":1}");
    assert_eq!(request_body("no blank line here"), "no blank line here");
    assert_eq!(request_body("head\r\n\r\n"), "");
}

#[test]
fn frames_the_response() {
    assert_eq!(build_response("200 OK", "hi"), "HTTP/1.1 200 OK\r\n\r\nhi");
    assert_eq!(build_response(BAD_REQUEST, ""), "HTTP/1.1 400 BAD REQUEST\r\n\r\n");
}

#[test]
fn end_to_end_menu_request() {
    // register GET /menu -> returns "[]"; request it; the response status
    // contains 200 and the body is "[]"
    let router = Router::new("").get("/menu", menu_handler as Handler);
    let request = "GET /menu HTTP/1.1\r\nHost: x\r\n\r\n";
    let (status, body) = match dispatch(&router, request) {
        Dispatch::Invoke(h, params) => h(request, &params),
        _ => panic!("expected the menu handler"),
    };
    assert!(status.contains("200"));
    assert_eq!(body, "[]");
    assert_eq!(build_response(&status, &body), format!("HTTP/1.1 {}\r\n\r\n[]", OK_RESPONSE));
}

#[test]
fn end_to_end_delete_order_params() {
    // register DELETE /orders/:id; request DELETE /orders/7; the handler is
    // invoked with params == ["7"]
    let router = Router::new("").delete("/orders/:id", delete_order_handler as Handler);
    let request = "DELETE /orders/7 HTTP/1.1\r\n\r\n";
    match dispatch(&router, request) {
        Dispatch::Invoke(h, params) => {
            assert_eq!(params, vec!["7".to_string()]);
            assert_eq!(h(request, &params).1, "deleted 7");
        },
        _ => panic!("expected the delete handler"),
    }
}

#[test]
fn unroutable_requests_are_rejected() {
    let router = Router::new("").get("/menu", menu_handler as Handler);
    match dispatch(&router, "GET /nope HTTP/1.1\r\n\r\n") {
        Dispatch::Reject(status, body) => {
            assert_eq!(status, NOT_FOUND);
            assert_eq!(body, "Undefined endpoint /nope.");
        },
        _ => panic!("expected a rejection"),
    }
    match dispatch(&router, "PATCH /menu HTTP/1.1\r\n\r\n") {
        Dispatch::Reject(status, body) => {
            assert_eq!(status, NOT_FOUND);
            assert_eq!(body, "Undefined method PATCH");
        },
        _ => panic!("expected a rejection"),
    }
    assert!(matches!(dispatch(&router, "garbage"), Dispatch::Malformed));
}

#[test]
fn service_route_table_resolves_every_endpoint() {
    let router = routes::create("/v1");
    let cases: Vec<(&str, &str, Endpoint, Vec<&str>)> = vec![
        ("/v1/", "GET", Endpoint::HealthCheck, vec![]),
        ("/v1/menu/", "GET", Endpoint::GetMenu, vec![]),
        ("/v1/orders/", "GET", Endpoint::GetOrders, vec![]),
        ("/v1/orders/15", "GET", Endpoint::GetOneOrder, vec!["15"]),
        ("/v1/orders/", "POST", Endpoint::PostOrder, vec![]),
        ("/v1/tables/", "GET", Endpoint::GetTables, vec![]),
        ("/v1/tables/1,2/orders/", "GET", Endpoint::GetTableOrders, vec!["1,2"]),
        ("/v1/tables/3/orders/9", "GET", Endpoint::GetOrderForTable, vec!["3", "9"]),
        ("/v1/tables/3/orders/9", "DELETE", Endpoint::DeleteOrderForTable, vec!["3", "9"]),
    ];
    for (path, method, endpoint, params) in cases {
        let (e, got) = router.get_handler(path, method).unwrap();
        assert_eq!(*e, endpoint);
        let want: Vec<String> = params.iter().map(|p| p.to_string()).collect();
        assert_eq!(got, want);
    }
    // routes merged under the version prefix are not reachable without it
    assert!(router.get_handler("/menu/", "GET").is_err());
    assert!(router.get_handler("/v1/unknown", "GET").is_err());
}
