use tinyweb::http::HTTPMethod;
use tinyweb::router::{Dispatch, Router};

fn found(d: Dispatch) -> (u64, Vec<u64>) {
    match d {
        Dispatch::Found { handler, middlewares, .. } => (handler, middlewares),
        Dispatch::NotFound => panic!("expected a match"),
    }
}

#[test]
fn static_routes_dispatch_to_their_handlers() {
    let mut r = Router::new();
    r.get("/", 1, None);
    r.get("/about", 2, None);
    r.post("/about", 3, None);
    r.get("/api/users", 4, None);
    assert_eq!(found(r.dispatch("/", HTTPMethod::GET)).0, 1);
    assert_eq!(found(r.dispatch("/about", HTTPMethod::GET)).0, 2);
    assert_eq!(found(r.dispatch("/about", HTTPMethod::POST)).0, 3);
    assert_eq!(found(r.dispatch("/api/users", HTTPMethod::GET)).0, 4);
    assert_eq!(found(r.dispatch("api/users/", HTTPMethod::GET)).0, 4);
}

#[test]
fn placeholder_binds_segment_and_rejects_longer_paths() {
    let mut r = Router::new();
    r.get("/users/{id}", 7, None);
    match r.dispatch("/users/42", HTTPMethod::GET) {
        Dispatch::Found { handler, params, .. } => {
            assert_eq!(handler, 7);
            assert_eq!(params.get("id").unwrap().as_str(), "42");
        },
        Dispatch::NotFound => panic!("placeholder route should match"),
    }
    assert!(matches!(r.dispatch("/users/42/extra", HTTPMethod::GET), Dispatch::NotFound));
}

#[test]
fn wildcard_consumes_all_remaining_segments() {
    let mut r = Router::new();
    r.get("/public/*", 9, None);
    assert_eq!(found(r.dispatch("/public/a/b/c", HTTPMethod::GET)).0, 9);
    assert_eq!(found(r.dispatch("/public/x", HTTPMethod::GET)).0, 9);
    assert!(matches!(r.dispatch("/private/a", HTTPMethod::GET), Dispatch::NotFound));
}

#[test]
fn unregistered_path_reports_not_found() {
    let mut r = Router::new();
    r.get("/known", 1, None);
    assert!(matches!(r.dispatch("/unknown", HTTPMethod::GET), Dispatch::NotFound));
    assert!(matches!(r.dispatch("/known", HTTPMethod::DELETE), Dispatch::NotFound));
}

#[test]
fn last_registration_wins() {
    let mut r = Router::new();
    r.get("/dup", 10, None);
    r.get("/dup", 20, None);
    assert_eq!(found(r.dispatch("/dup", HTTPMethod::GET)).0, 20);
    // other methods at the same path are untouched
    r.post("/dup", 30, None);
    assert_eq!(found(r.dispatch("/dup", HTTPMethod::GET)).0, 20);
    assert_eq!(found(r.dispatch("/dup", HTTPMethod::POST)).0, 30);
}

#[test]
fn exact_match_beats_placeholder_beats_wildcard() {
    let mut r = Router::new();
    r.get("/a/literal", 1, None);
    r.get("/a/{x}", 2, None);
    r.get("/a/*", 3, None);
    assert_eq!(found(r.dispatch("/a/literal", HTTPMethod::GET)).0, 1);
    assert_eq!(found(r.dispatch("/a/other", HTTPMethod::GET)).0, 2);
    // matching commits to the placeholder child and never backtracks, so a
    // deeper path dead-ends inside it instead of reaching the wildcard
    assert!(matches!(r.dispatch("/a/b/c", HTTPMethod::GET), Dispatch::NotFound));
    // without a placeholder in the way, the wildcard takes the remainder
    let mut w = Router::new();
    w.get("/w/literal", 1, None);
    w.get("/w/*", 3, None);
    assert_eq!(found(w.dispatch("/w/b/c", HTTPMethod::GET)).0, 3);
}

#[test]
fn node_without_handler_degrades_to_wildcard_child() {
    let mut r = Router::new();
    r.post("/files", 1, None);
    r.get("/files/*", 2, None);
    // GET /files: no GET handler at the node, but its wildcard child has one
    assert_eq!(found(r.dispatch("/files", HTTPMethod::GET)).0, 2);
}

#[test]
fn group_middleware_reaches_nested_routes_but_not_siblings() {
    let mut parent = Router::new();
    parent.register_middleware(String::from("auth"), 100);
    parent.register_middleware(String::from("log"), 200);
    parent.get("/outside", 1, None);

    let mut api = parent.subrouter("/api", vec![String::from("auth")]);
    api.get("/ping", 2, None);
    let mut v2 = api.subrouter("/v2", Vec::new());
    v2.get("/deep", 3, Some(vec![String::from("log")]));
    api.merge_group(v2);
    parent.merge_group(api);

    let (h, mws) = found(parent.dispatch("/api/ping", HTTPMethod::GET));
    assert_eq!(h, 2);
    assert!(mws.contains(&100));

    let (h, mws) = found(parent.dispatch("/api/v2/deep", HTTPMethod::GET));
    assert_eq!(h, 3);
    assert!(mws.contains(&100));
    assert!(mws.contains(&200));

    let (h, mws) = found(parent.dispatch("/outside", HTTPMethod::GET));
    assert_eq!(h, 1);
    assert!(!mws.contains(&100));
}

#[test]
fn unregistered_middleware_names_are_skipped() {
    let mut r = Router::new();
    r.with_middlewares(vec![String::from("ghost"), String::from("real")]);
    r.register_middleware(String::from("real"), 5);
    r.get("/x", 1, None);
    let (_, mws) = found(r.dispatch("/x", HTTPMethod::GET));
    assert_eq!(mws, vec![5]);
}

#[test]
fn merging_an_empty_group_changes_nothing() {
    let mut r = Router::new();
    r.get("/a", 1, None);
    r.get("/b/{x}", 2, None);
    let empty = r.subrouter("/whatever", Vec::new());
    r.merge_group(empty);
    assert_eq!(found(r.dispatch("/a", HTTPMethod::GET)).0, 1);
    assert_eq!(found(r.dispatch("/b/zzz", HTTPMethod::GET)).0, 2);
    assert!(matches!(r.dispatch("/whatever", HTTPMethod::GET), Dispatch::NotFound));
}

#[test]
fn merging_keeps_everything_already_in_the_target() {
    let mut parent = Router::new();
    parent.get("/shared", 1, None);
    parent.post("/other", 2, None);
    let mut sub = parent.subrouter("", Vec::new());
    sub.post("/shared", 3, None);
    parent.merge_group(sub);
    // the target's GET handler survives beside the merged POST handler,
    // and the untouched sibling route is exactly as before
    assert_eq!(found(parent.dispatch("/shared", HTTPMethod::GET)).0, 1);
    assert_eq!(found(parent.dispatch("/shared", HTTPMethod::POST)).0, 3);
    assert_eq!(found(parent.dispatch("/other", HTTPMethod::POST)).0, 2);
}

#[test]
fn merge_overrides_only_on_method_collision() {
    let mut parent = Router::new();
    parent.get("/x", 10, None);
    let mut sub = parent.subrouter("", Vec::new());
    sub.get("/x", 20, None);
    parent.merge_group(sub);
    assert_eq!(found(parent.dispatch("/x", HTTPMethod::GET)).0, 20);
}

#[test]
fn register_middleware_last_wins() {
    let mut r = Router::new();
    r.register_middleware(String::from("m"), 1);
    r.register_middleware(String::from("m"), 2);
    r.with_middlewares(vec![String::from("m")]);
    r.get("/x", 9, None);
    let (_, mws) = found(r.dispatch("/x", HTTPMethod::GET));
    assert_eq!(mws, vec![2]);
}
