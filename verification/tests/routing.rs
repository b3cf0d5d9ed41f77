use path_router::{Handler, Method, Router, RouterError};

fn text(resolved: Result<String, RouterError>) -> String {
    match resolved {
        Ok(answer) => answer,
        Err(reason) => reason.message(),
    }
}

#[test]
fn route_adds_node() {
    let router = Router::<Handler>::default();
    assert_eq!(0, router.len());

    let router = Router::<Handler>::default()
        .route(Method::GET, "/foo", || String::from("foo"))
        .route(Method::GET, "/bar", || String::from("bar"));
    assert_eq!(2, router.len())
}

#[test]
fn resolve_returns_a_string() {
    let router = Router::<Handler>::default()
        .route(Method::GET, "/get", || String::from("get"))
        .route(Method::POST, "/post", || String::from("post"))
        .put("/put", || String::from("put"))
        .delete("/delete", || String::from("delete"));

    assert_eq!("get", text(router.resolve("GET", "/get")));
    assert_eq!("post", text(router.resolve("POST", "/post")));
    assert_eq!("put", text(router.resolve("PUT", "/put")));
    assert_eq!("delete", text(router.resolve("DELETE", "/delete")));
    assert_eq!("no match routes", text(router.resolve("GET", "/foo")));
    assert_eq!(Err(RouterError::NoMatch), router.resolve("GET", "/foo"));
}

#[test]
fn resolve_placeholder() {
    let router = Router::<Handler>::default()
        .route(Method::GET, "/foo/*", || String::from("foo"))
        .route(Method::GET, "/foo/*/*/bar", || String::from("foobar"));

    assert_eq!("foo", text(router.resolve("GET", "/foo/1")));
    assert_eq!("foo", text(router.resolve("GET", "/foo/a")));
    assert_eq!("foobar", text(router.resolve("GET", "/foo/1/2/bar")));
    assert_eq!("no match routes", text(router.resolve("GET", "/foo/1/2/3/bar")));
    assert_eq!("no match routes", text(router.resolve("GET", "/foo/1/2/bar/3")));
    assert_eq!(Err(RouterError::NoMatch), router.resolve("GET", "/foo/1/2/3/bar"));
    assert_eq!(Err(RouterError::NoMatch), router.resolve("GET", "/foo/1/2/bar/3"));
}

#[test]
fn consecutive_slashes_ignored() {
    let router =
        Router::<Handler>::default().route(Method::GET, "/a/b/c", || String::from("abc"));

    assert_eq!("abc", text(router.resolve("GET", "/a//////b//c")));
}

#[test]
fn trailing_slash() {
    let router = Router::<Handler>::default()
        .get("/foo", || String::from("foo"))
        .get("/bar/", || String::from("bar"));

    assert_eq!("foo", text(router.resolve("GET", "/foo")));
    assert_eq!("foo", text(router.resolve("GET", "/foo/")));
    assert_eq!("foo", text(router.resolve("GET", "/foo//")));
    assert_eq!("bar", text(router.resolve("GET", "/bar")));
    assert_eq!("bar", text(router.resolve("GET", "/bar/")));
    assert_eq!("bar", text(router.resolve("GET", "/bar//")));
}

#[test]
fn invalid_method_is_an_error() {
    let router = Router::<Handler>::default().get("/foo", || String::from("foo"));

    assert_eq!(Err(RouterError::InvalidMethod), router.resolve("GARBAGE", "/foo"));
    assert_eq!(Err(RouterError::InvalidMethod), router.resolve("", "/foo"));
    assert_eq!(Err(RouterError::InvalidMethod), router.resolve("GETS", "/foo"));
    assert_eq!(Err(RouterError::InvalidMethod), router.resolve("GE", "/foo"));
    assert_eq!("invalid method", RouterError::InvalidMethod.message());
}

#[test]
fn invalid_method_wins_over_an_empty_registry() {
    let router = Router::<Handler>::default();

    assert_eq!(Err(RouterError::InvalidMethod), router.resolve("PATCH", "/"));
    assert_eq!(Err(RouterError::NoMatch), router.resolve("GET", "/"));
}

#[test]
fn no_match_is_not_a_handler_result() {
    let router =
        Router::<Handler>::default().get("/sentinel", || String::from("no match routes"));

    assert_eq!(Ok(String::from("no match routes")), router.resolve("GET", "/sentinel"));
    assert_eq!(Err(RouterError::NoMatch), router.resolve("GET", "/other"));
    assert_eq!("no match routes", RouterError::NoMatch.message());
}

#[test]
fn method_text_ignores_case() {
    assert_eq!(Ok(Method::GET), Method::try_from("GET"));
    assert_eq!(Ok(Method::GET), Method::try_from("get"));
    assert_eq!(Ok(Method::GET), Method::try_from("Get"));
    assert_eq!(Ok(Method::POST), Method::try_from("POST"));
    assert_eq!(Ok(Method::POST), Method::try_from("post"));
    assert_eq!(Ok(Method::PUT), Method::try_from("PUT"));
    assert_eq!(Ok(Method::PUT), Method::try_from("put"));
    assert_eq!(Ok(Method::DELETE), Method::try_from("DELETE"));
    assert_eq!(Ok(Method::DELETE), Method::try_from("delete"));
    assert_eq!(Ok(Method::DELETE), Method::try_from("dElEtE"));
}

#[test]
fn method_text_rejects_other_tokens() {
    assert_eq!(Err(RouterError::InvalidMethod), Method::try_from("GARBAGE"));
    assert_eq!(Err(RouterError::InvalidMethod), Method::try_from(""));
    assert_eq!(Err(RouterError::InvalidMethod), Method::try_from("PATCH"));
    assert_eq!(Err(RouterError::InvalidMethod), Method::try_from(" GET"));
    assert_eq!(Err(RouterError::InvalidMethod), Method::try_from("GET "));
    assert_eq!(Err(RouterError::InvalidMethod), Method::try_from("PO"));
    // A character 32 code points away from a letter is no letter.
    assert_eq!(Err(RouterError::InvalidMethod), Method::try_from("GE\u{74}\u{20}"));
    assert_eq!(Err(RouterError::InvalidMethod), Method::try_from("'ET"));
    assert_eq!(Err(RouterError::InvalidMethod), Method::try_from("GET\u{0}"));
}

#[test]
fn first_match_wins() {
    let router = Router::<Handler>::default()
        .get("/foo/*", || String::from("first"))
        .get("/foo/bar", || String::from("second"))
        .get("/*/bar", || String::from("third"));

    assert_eq!("first", text(router.resolve("GET", "/foo/bar")));
    assert_eq!("third", text(router.resolve("GET", "/baz/bar")));

    let reversed = Router::<Handler>::default()
        .get("/foo/bar", || String::from("second"))
        .get("/foo/*", || String::from("first"));
    assert_eq!("second", text(reversed.resolve("GET", "/foo/bar")));
    assert_eq!("first", text(reversed.resolve("GET", "/foo/baz")));
}

#[test]
fn segment_count_is_exact() {
    let router = Router::<Handler>::default().get("/foo/*", || String::from("foo"));

    assert_eq!(Ok(String::from("foo")), router.resolve("GET", "/foo/1"));
    assert_eq!(Err(RouterError::NoMatch), router.resolve("GET", "/foo/1/2"));
    assert_eq!(Err(RouterError::NoMatch), router.resolve("GET", "/foo"));
    assert_eq!(Err(RouterError::NoMatch), router.resolve("GET", "/foo/"));
}

#[test]
fn methods_are_isolated() {
    let router = Router::<Handler>::default()
        .get("/item", || String::from("read"))
        .post("/item", || String::from("create"));

    assert_eq!("read", text(router.resolve("GET", "/item")));
    assert_eq!("create", text(router.resolve("POST", "/item")));
    assert_eq!(Err(RouterError::NoMatch), router.resolve("PUT", "/item"));
    assert_eq!(Err(RouterError::NoMatch), router.resolve("DELETE", "/item"));

    let only_get = Router::<Handler>::default().get("/item", || String::from("read"));
    assert_eq!(Err(RouterError::NoMatch), only_get.resolve("POST", "/item"));
    assert_eq!("read", text(only_get.resolve("get", "/item")));
}

#[test]
fn registration_leaves_the_registry_alone() {
    let base = Router::<Handler>::default().get("/a", || String::from("a"));
    let left = base.get("/b", || String::from("left"));
    let right = base.post("/b", || String::from("right"));

    assert_eq!(1, base.len());
    assert_eq!(2, left.len());
    assert_eq!(2, right.len());
    assert_eq!(Err(RouterError::NoMatch), base.resolve("GET", "/b"));
    assert_eq!("left", text(left.resolve("GET", "/b")));
    assert_eq!(Err(RouterError::NoMatch), right.resolve("GET", "/b"));
    assert_eq!("right", text(right.resolve("POST", "/b")));
    assert_eq!("a", text(left.resolve("GET", "/a")));
    assert_eq!("a", text(right.resolve("GET", "/a")));
}

#[test]
fn patterns_are_normalized_at_registration() {
    let router = Router::<Handler>::default()
        .get("/a//b///c/", || String::from("abc"))
        .get("//x//", || String::from("x"));

    assert_eq!("abc", text(router.resolve("GET", "/a/b/c")));
    assert_eq!("abc", text(router.resolve("GET", "//a/b//c//")));
    assert_eq!("x", text(router.resolve("GET", "/x")));
}

#[test]
fn root_and_empty_paths() {
    let root = Router::<Handler>::default().get("/", || String::from("root"));
    assert_eq!("root", text(root.resolve("GET", "/")));
    assert_eq!("root", text(root.resolve("GET", "//")));
    assert_eq!("root", text(root.resolve("GET", "///")));
    assert_eq!(Err(RouterError::NoMatch), root.resolve("GET", ""));

    let empty = Router::<Handler>::default().get("", || String::from("empty"));
    assert_eq!("empty", text(empty.resolve("GET", "")));
    assert_eq!(Err(RouterError::NoMatch), empty.resolve("GET", "/"));
}

#[test]
fn wildcard_is_a_whole_segment() {
    let router = Router::<Handler>::default()
        .get("/files/*", || String::from("any"))
        .get("/files/a*", || String::from("literal"));

    assert_eq!("any", text(router.resolve("GET", "/files/*")));
    assert_eq!("any", text(router.resolve("GET", "/files/a*")));

    let literal = Router::<Handler>::default().get("/files/a*", || String::from("literal"));
    assert_eq!("literal", text(literal.resolve("GET", "/files/a*")));
    assert_eq!(Err(RouterError::NoMatch), literal.resolve("GET", "/files/ab"));
    assert_eq!(Err(RouterError::NoMatch), literal.resolve("GET", "/files/a"));

    // The marker in a request's path is an ordinary segment.
    let plain = Router::<Handler>::default().get("/files/a", || String::from("a"));
    assert_eq!(Err(RouterError::NoMatch), plain.resolve("GET", "/files/*"));
}

#[test]
fn literal_segments_are_case_sensitive() {
    let router = Router::<Handler>::default().get("/Foo", || String::from("foo"));

    assert_eq!("foo", text(router.resolve("GET", "/Foo")));
    assert_eq!(Err(RouterError::NoMatch), router.resolve("GET", "/foo"));
}

#[test]
fn handlers_may_capture_state() {
    let greeting = String::from("hello");
    let greet = || greeting.clone();
    let router = Router::default().get("/greet", &greet).post("/greet", &greet);

    assert_eq!(Ok(String::from("hello")), router.resolve("GET", "/greet"));
    assert_eq!(Ok(String::from("hello")), router.resolve("POST", "/greet"));
}
