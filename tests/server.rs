use http_engine::api::{ApiReply, NewUser, RestApi, UserData};
use http_engine::request::{parse_request, Method};
use http_engine::routes::{route_api, route_form, ApiRoute, FormRoute};
use http_engine::web::WebServer;

fn users_of(r: &ApiReply) -> Vec<(u32, String, String)> {
    match &r.response.data {
        Some(UserData::List(v)) => v.iter().map(|u| (u.id, u.name.clone(), u.email.clone())).collect(),
        Some(UserData::One(u)) => vec![(u.id, u.name.clone(), u.email.clone())],
        None => vec![],
    }
}

#[test]
fn routes_of_the_api() {
    assert_eq!(route_api(Method::Get, b"/api/users"), ApiRoute::ListUsers);
    assert_eq!(route_api(Method::Post, b"/api/users"), ApiRoute::CreateUser);
    assert_eq!(route_api(Method::Get, b"/api/users/7"), ApiRoute::GetUser(Some(7)));
    assert_eq!(route_api(Method::Get, b"/api/users/abc"), ApiRoute::GetUser(None));
    assert_eq!(route_api(Method::Get, b"/api/users/"), ApiRoute::GetUser(None));
    assert_eq!(route_api(Method::Get, b"/api/users/4294967296"), ApiRoute::GetUser(None));
    assert_eq!(route_api(Method::Post, b"/api/users/1"), ApiRoute::NotFound);
    assert_eq!(route_api(Method::Other, b"/api/users"), ApiRoute::NotFound);
    assert_eq!(route_api(Method::Get, b"/"), ApiRoute::NotFound);
}

#[test]
fn routes_of_the_form_pages() {
    assert_eq!(route_form(Method::Get, b"/"), FormRoute::Form);
    assert_eq!(route_form(Method::Post, b"/submit"), FormRoute::Submit);
    assert_eq!(route_form(Method::Get, b"/submit"), FormRoute::NotFound);
    assert_eq!(route_form(Method::Post, b"/"), FormRoute::NotFound);
}

#[test]
fn list_users_on_fresh_server() {
    let mut api = RestApi::new("127.0.0.1:8080");
    let r = api.handle(ApiRoute::ListUsers, None);
    assert_eq!(r.status, 200);
    assert!(r.response.success);
    assert_eq!(r.response.message, "Users retrieved successfully");
    assert_eq!(
        users_of(&r),
        vec![
            (1, "Alice".to_string(), "alice@example.com".to_string()),
            (2, "Bob".to_string(), "bob@example.com".to_string()),
        ]
    );
}

#[test]
fn create_user_gets_next_id() {
    let mut api = RestApi::new("127.0.0.1:8080");
    let input = NewUser { name: "Charlie".to_string(), email: "charlie@example.com".to_string() };
    let r = api.handle(ApiRoute::CreateUser, Some(input));
    assert_eq!(r.status, 201);
    assert!(r.response.success);
    assert_eq!(r.response.message, "User created successfully");
    assert_eq!(users_of(&r), vec![(3, "Charlie".to_string(), "charlie@example.com".to_string())]);
    let again = api.handle(ApiRoute::GetUser(Some(3)), None);
    assert_eq!(again.status, 200);
    assert_eq!(users_of(&again), vec![(3, "Charlie".to_string(), "charlie@example.com".to_string())]);
    let next = api.create_user(Some(NewUser { name: "D".to_string(), email: "d@x".to_string() }));
    assert_eq!(users_of(&next)[0].0, 4);
}

#[test]
fn unknown_user_is_404() {
    let mut api = RestApi::new("a");
    let r = api.handle(ApiRoute::GetUser(Some(99)), None);
    assert_eq!(r.status, 404);
    assert!(!r.response.success);
    assert!(r.response.data.is_none());
    assert_eq!(r.response.message, "User with id 99 not found");
}

#[test]
fn known_user_is_found() {
    let api = RestApi::new("a");
    let r = api.get_user_by_id(Some(2));
    assert_eq!(r.status, 200);
    assert_eq!(r.response.message, "User found");
    assert_eq!(users_of(&r), vec![(2, "Bob".to_string(), "bob@example.com".to_string())]);
}

#[test]
fn invalid_id_is_400() {
    let api = RestApi::new("a");
    let r = api.get_user_by_id(None);
    assert_eq!(r.status, 400);
    assert_eq!(r.response.message, "Invalid user ID");
}

#[test]
fn malformed_json_is_400() {
    let mut api = RestApi::new("a");
    let r = api.handle(ApiRoute::CreateUser, None);
    assert_eq!(r.status, 400);
    assert!(!r.response.success);
    assert_eq!(r.response.message, "Invalid JSON data");
    let list = api.get_all_users();
    assert_eq!(users_of(&list).len(), 2);
}

#[test]
fn unmatched_route_is_404() {
    let mut api = RestApi::new("a");
    let r = api.handle(ApiRoute::NotFound, None);
    assert_eq!(r.status, 404);
    assert_eq!(r.response.message, "Endpoint not found");
}

#[test]
fn id_from_request_line() {
    let api = RestApi::new("a");
    assert_eq!(api.extract_id_from_path("GET /api/users/42 HTTP/1.1"), Some(42));
    assert_eq!(api.extract_id_from_path("GET /api/users/x HTTP/1.1"), None);
    assert_eq!(api.extract_id_from_path("GET"), None);
    assert_eq!(api.extract_id_from_path("GET /api/users/1/2 HTTP/1.1"), None);
    assert_eq!(api.extract_id_from_path("GET /other/5 HTTP/1.1"), None);
    assert_eq!(api.extract_id_from_path("GET /api/users/+8 HTTP/1.1"), Some(8));
    assert_eq!(api.address(), "a");
}

#[test]
fn form_submission_greets() {
    let server = WebServer::new("127.0.0.1:7878");
    let req = parse_request(b"POST /submit HTTP/1.1\r\nContent-Length: 17\r\n\r\nname=Ann+Lee%26Co").unwrap();
    let out = String::from_utf8(server.handle_connection(&req)).unwrap();
    assert!(out.starts_with("HTTP/1.1 200 OK\r\nContent-Type: text/html; charset=UTF-8\r\n"));
    assert!(out.contains("<h1>Hello, Ann Lee&Co!</h1>"));
}

#[test]
fn form_page_and_404() {
    let server = WebServer::new("127.0.0.1:7878");
    let get = parse_request(b"GET / HTTP/1.1\r\n\r\n").unwrap();
    let page = String::from_utf8(server.handle_connection(&get)).unwrap();
    assert!(page.starts_with("HTTP/1.1 200 OK\r\n"));
    assert!(page.contains("<form action=\"/submit\" method=\"POST\">"));
    let other = parse_request(b"GET /nope HTTP/1.1\r\n\r\n").unwrap();
    let nf = String::from_utf8(server.handle_connection(&other)).unwrap();
    assert!(nf.starts_with("HTTP/1.1 404 Not Found\r\nContent-Type: text/html\r\n"));
    assert!(nf.contains("404 - Page Not Found"));
}

#[test]
fn user_clones() {
    let api = RestApi::new("a");
    let r = api.get_user_by_id(Some(1));
    if let Some(UserData::One(u)) = &r.response.data {
        let c = u.clone();
        assert_eq!((c.id, c.name.as_str(), c.email.as_str()), (1, "Alice", "alice@example.com"));
    } else {
        panic!("user 1 not found");
    }
}

#[test]
fn get_user_request_bytes_end_to_end() {
    let mut api = RestApi::new("a");
    let req = parse_request(b"GET /api/users/2 HTTP/1.1\r\nHost: h\r\n\r\n").unwrap();
    assert_eq!(req.method, Method::Get);
    assert!(req.body.is_empty());
    let route = route_api(req.method, &req.path);
    assert_eq!(route, ApiRoute::GetUser(Some(2)));
    let r = api.handle(route, None);
    assert_eq!(r.status, 200);
    assert_eq!(users_of(&r), vec![(2, "Bob".to_string(), "bob@example.com".to_string())]);
    assert_eq!(users_of(&api.get_all_users()).len(), 2);
}
