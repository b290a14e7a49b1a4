use uzumibi::store::{Route, RouteStore};

#[test]
fn test_path_to_key_simple() {
    let key = RouteStore::<()>::path_to_key("/users");
    assert_eq!(key.0, b"/users");
    assert_eq!(key.1, None);
    assert_eq!(key.1.as_deref().unwrap_or(""), "");
    assert_eq!(key.2, "");
}

#[test]
fn test_path_to_key_with_param() {
    let key = RouteStore::<()>::path_to_key("/users/:id");
    // :id is converted to \xff
    assert_eq!(key.0, b"/users/\xff");
    assert_eq!(key.1.unwrap(), "id");
    assert_eq!(key.2, "/");
}

#[test]
fn test_path_to_key_multiple_params() {
    let key = RouteStore::<()>::path_to_key("/users/:id/posts/:post_id");
    assert_eq!(key.0, b"/users/\xff");
    assert_eq!(key.1.unwrap(), "id");
    assert_eq!(key.2, "/posts/:post_id");
}

#[test]
fn test_insert() {
    let mut store = RouteStore::new();
    let route = Route::new(());

    store.insert("/users/:id", route);
    let v = store.entry(b"/users/\xff").unwrap();
    match v {
        Route::SubRoutes {
            param_name,
            store: _,
        } => {
            assert_eq!(param_name, "id");
        }
        _ => panic!("Expected SubRoutes"),
    }
}

#[test]
fn test_insert_with_sub() {
    let mut store = RouteStore::new();
    let route = Route::new(());

    store.insert("/users/:id/followers/:follower_id", route);
    let v = store.entry(b"/users/\xff").unwrap();
    match v {
        Route::SubRoutes { param_name, store } => {
            assert_eq!(param_name, "id");
            let v2 = store.entry(b"/followers/\xff").unwrap();
            match v2 {
                Route::SubRoutes {
                    param_name: param_name2,
                    store: v3,
                } => {
                    assert_eq!(param_name2, "follower_id");
                    let v4 = v3.entry(b"/").unwrap();
                    match v4 {
                        Route::Handler(_) => { /* success */ }
                        _ => panic!("Expected Handler"),
                    }
                }
                _ => panic!("Expected SubRoutes v2"),
            }
        }
        _ => panic!("Expected SubRoutes"),
    }
}

#[test]
fn test_get() {
    let mut store = RouteStore::new();
    store.insert("/users/:id", Route::new("handler1"));
    store.insert("/accounts/:id/items/:item_id", Route::new("handler2"));
    store.insert("/about", Route::new("handler3"));

    let h1 = store.get("/users/123").unwrap();
    assert_eq!(h1, "handler1");

    let h1_2 = store.get("/users/123456").unwrap();
    assert_eq!(h1_2, "handler1");

    let h2 = store.get("/accounts/123/items/456").unwrap();
    assert_eq!(h2, "handler2");

    let h3 = store.get("/about").unwrap();
    assert_eq!(h3, "handler3");

    let h4 = store.get("/nonexistent");
    assert!(h4.is_none());
}

#[test]
fn test_get_with_params() {
    let mut store = RouteStore::new();
    store.insert("/users/:id", Route::new("handler1"));
    store.insert("/accounts/:id/items/:item_id", Route::new("handler2"));
    store.insert("/about", Route::new("handler3"));

    let (h1, params1) = store.get_with_params("/users/123");
    assert_eq!(h1.unwrap(), "handler1");
    assert_eq!(params1.get("id").unwrap(), "123");

    let (h1_2, params1_2) = store.get_with_params("/users/123456");
    assert_eq!(h1_2.unwrap(), "handler1");
    assert_eq!(params1_2.get("id").unwrap(), "123456");

    let (h2, params2) = store.get_with_params("/accounts/123/items/456");
    assert_eq!(h2.unwrap(), "handler2");
    assert_eq!(params2.get("id").unwrap(), "123");
    assert_eq!(params2.get("item_id").unwrap(), "456");

    let (h3, params3) = store.get_with_params("/about");
    assert_eq!(h3.unwrap(), "handler3");
    assert!(params3.is_empty());

    let h4 = store.get_with_params("/nonexistent");
    assert!(h4.0.is_none());
}

#[test]
fn test_get_complex() {
    let mut store = RouteStore::new();
    store.insert("/users/:id", Route::new("handler1_2"));
    store.insert("/users/:id/items/:item_id", Route::new("handler2_2"));

    let (h1, params1) = store.get_with_params("/users/123");
    assert_eq!(h1.unwrap(), "handler1_2");
    assert_eq!(params1.len(), 1);
    assert_eq!(params1.get("id").unwrap(), "123");

    let (h2, params2) = store.get_with_params("/users/123/items/456");
    assert_eq!(h2.unwrap(), "handler2_2");
    assert_eq!(params2.len(), 2);
    assert_eq!(params2.get("id").unwrap(), "123");
    assert_eq!(params2.get("item_id").unwrap(), "456");

    let h3 = store.get("/users/123/hoge");
    assert!(h3.is_none());
}

#[test]
fn test_wildcard() {
    let mut store = RouteStore::new();
    store.insert("/api/*", Route::new("api_handler"));
    store.insert("/static/*", Route::new("static_handler"));
    store.insert("/about", Route::new("about_handler"));

    let h1 = store.get("/api/users").unwrap();
    assert_eq!(h1, "api_handler");

    let h2 = store.get("/api/users/123/posts").unwrap();
    assert_eq!(h2, "api_handler");

    let h3 = store.get("/static/css/style.css").unwrap();
    assert_eq!(h3, "static_handler");

    let h4 = store.get("/about").unwrap();
    assert_eq!(h4, "about_handler");

    let h5 = store.get("/other");
    assert!(h5.is_none());
}

#[test]
fn test_wildcard_with_params() {
    let mut store = RouteStore::new();
    store.insert("/api/*", Route::new("api_handler"));

    let (h1, params1) = store.get_with_params("/api/users/123/posts");
    assert_eq!(h1.unwrap(), "api_handler");
    assert_eq!(params1.get("*").unwrap(), "users/123/posts");

    let (h2, params2) = store.get_with_params("/api/single");
    assert_eq!(h2.unwrap(), "api_handler");
    assert_eq!(params2.get("*").unwrap(), "single");
}

#[test]
fn test_path_to_key_wildcard() {
    let key = RouteStore::<()>::path_to_key("/api/*");
    assert_eq!(key.0, b"/api/\xfe");
    assert_eq!(key.1.unwrap(), "*");
    assert_eq!(key.2, "");
    assert!(key.3); // is_wildcard
}

#[test]
fn test_wildcard_vs_param() {
    let mut store: RouteStore<&str> = RouteStore::new();

    // Register both :id param route and * wildcard route
    store.insert("/api/:id", Route::new("param_handler"));
    store.insert("/api/*", Route::new("wildcard_handler"));

    // /api/foo - single segment, should match :id (param has priority over wildcard)
    let (handler1, params1) = store.get_with_params("/api/foo");
    assert_eq!(handler1.unwrap(), "param_handler");
    assert_eq!(params1.get("id").unwrap(), "foo");

    // /api/foo/bar - multiple segments, should match wildcard
    let (handler2, params2) = store.get_with_params("/api/foo/bar");
    assert_eq!(handler2.unwrap(), "wildcard_handler");
    assert_eq!(params2.get("*").unwrap(), "foo/bar");
}

#[test]
fn exact_route_wins_over_wildcard() {
    let mut store = RouteStore::new();
    store.insert("/api/*", Route::new("wildcard"));
    store.insert("/api/foo", Route::new("exact"));

    assert_eq!(store.get("/api/foo").unwrap(), "exact");
    assert_eq!(store.get("/api/bar").unwrap(), "wildcard");
    assert_eq!(store.get("/api/foo/baz").unwrap(), "wildcard");
    let (_, params) = store.get_with_params("/api/foo");
    assert!(params.is_empty());
}

#[test]
fn registered_static_patterns_resolve_to_their_handlers() {
    let patterns = ["/", "/about", "/a//b", "/a/b/c", "about", "/caf\u{e9}", "/a b+c"];
    let mut store = RouteStore::new();
    for (i, pattern) in patterns.iter().enumerate() {
        store.insert(pattern, Route::new(i));
    }
    store.insert("/a/:id", Route::new(100));
    store.insert("/a/*", Route::new(101));
    for (i, pattern) in patterns.iter().enumerate() {
        let (found, params) = store.get_with_params(pattern);
        assert_eq!(found, Some(i));
        assert!(params.is_empty());
    }
}

#[test]
fn empty_pattern_is_stored_under_the_root_key() {
    let mut store = RouteStore::new();
    store.insert("", Route::new(1));
    assert_eq!(store.get(""), None);
    assert_eq!(store.get("/"), Some(1));
    let key = RouteStore::<()>::path_to_key("");
    assert_eq!(key.0, b"/");
    assert_eq!(RouteStore::<()>::path_to_key("/").0, b"/");
}

#[test]
fn lookup_is_repeatable() {
    let mut store = RouteStore::new();
    store.insert("/users/:id/posts/:post", Route::new(1));
    store.insert("/files/*", Route::new(2));
    for path in ["/users/7/posts/9", "/files/a/b", "/nothing", "/users/7"] {
        let (first, first_params) = store.get_with_params(path);
        let (second, second_params) = store.get_with_params(path);
        assert_eq!(first, second);
        assert_eq!(first_params.pairs(), second_params.pairs());
        assert_eq!(store.get(path), first);
    }
}

#[test]
fn disjoint_static_patterns_commute() {
    let mut one = RouteStore::new();
    one.insert("/a", Route::new(1));
    one.insert("/b", Route::new(2));
    let mut other = RouteStore::new();
    other.insert("/b", Route::new(2));
    other.insert("/a", Route::new(1));
    for path in ["/a", "/b", "/c", "/"] {
        assert_eq!(one.get(path), other.get(path));
    }
    assert_eq!(one.get("/a"), Some(1));
    assert_eq!(one.get("/b"), Some(2));

    // the empty pattern and `/` share a key: the later registration wins
    let mut first = RouteStore::new();
    first.insert("", Route::new(1));
    first.insert("/", Route::new(2));
    let mut second = RouteStore::new();
    second.insert("/", Route::new(2));
    second.insert("", Route::new(1));
    assert_eq!(first.get("/"), Some(2));
    assert_eq!(second.get("/"), Some(1));
}

#[test]
fn later_registration_replaces_earlier() {
    let mut store = RouteStore::new();
    store.insert("/x", Route::new(1));
    store.insert("/x", Route::new(2));
    assert_eq!(store.get("/x"), Some(2));

    // a parameter pattern takes the place of a handler under the same key
    let mut table = RouteStore::new();
    table.insert("/u/:id", Route::new(1));
    table.insert("/u/:id/edit", Route::new(2));
    assert_eq!(table.get("/u/7"), Some(1));
    assert_eq!(table.get("/u/7/edit"), Some(2));
}

#[test]
fn first_parameter_name_of_a_branch_stays() {
    let mut store = RouteStore::new();
    store.insert("/u/:id", Route::new(1));
    store.insert("/u/:name/edit", Route::new(2));
    let (found, params) = store.get_with_params("/u/7/edit");
    assert_eq!(found, Some(2));
    assert_eq!(params.get("id").unwrap(), "7");
    assert_eq!(params.get("name"), None);
}

#[test]
fn wildcard_pattern_takes_only_handlers() {
    let mut store: RouteStore<u8> = RouteStore::new();
    store.insert("/w/*", Route::Wildcard(1));
    assert!(store.entry(b"/w/\xfe").is_none());
    store.insert("/w/*", Route::sub_routes("x".to_string(), RouteStore::new()));
    assert!(store.entry(b"/w/\xfe").is_none());
    store.insert("/w/*", Route::new(2));
    assert!(matches!(store.entry(b"/w/\xfe"), Some(Route::Wildcard(2))));
    // what follows the wildcard is of no account
    store.insert("/v/*/more/:id", Route::new(3));
    assert!(matches!(store.entry(b"/v/\xfe"), Some(Route::Wildcard(3))));
    assert_eq!(store.get("/v/a/b"), Some(3));
}

#[test]
fn wildcard_wins_where_the_parameter_branch_fails() {
    let mut store = RouteStore::new();
    store.insert("/a/:id/x", Route::new(1));
    store.insert("/a/*", Route::new(2));
    store.insert("/*", Route::new(3));
    let (found, params) = store.get_with_params("/a/7/x");
    assert_eq!(found, Some(1));
    assert_eq!(params.len(), 1);
    assert_eq!(params.get("id").unwrap(), "7");
    let (found, params) = store.get_with_params("/a/7/y");
    assert_eq!(found, Some(2));
    assert_eq!(params.len(), 1);
    assert_eq!(params.get("*").unwrap(), "7/y");
    let (found, params) = store.get_with_params("/b");
    assert_eq!(found, Some(3));
    assert_eq!(params.get("*").unwrap(), "b");
    let (found, params) = store.get_with_params("/");
    assert_eq!(found, Some(3));
    assert_eq!(params.get("*").unwrap(), "");
}

#[test]
fn unrooted_paths_are_probed_with_a_leading_slash() {
    let mut store = RouteStore::new();
    store.insert("/a/:id", Route::new(1));
    store.insert("b/:id", Route::new(2));
    store.insert(":all/x", Route::new(3));
    assert_eq!(store.get("a/7"), Some(1));
    assert_eq!(store.get("b/7"), None);
    let (found, params) = store.get_with_params("/x");
    assert_eq!(found, Some(3));
    assert_eq!(params.get("all").unwrap(), "");
    assert_eq!(store.get("x"), None);
}

#[test]
fn path_to_key_of_special_patterns() {
    let key = RouteStore::<()>::path_to_key(":");
    assert_eq!(key.0, b"\xff");
    assert_eq!(key.1.unwrap(), "");
    assert_eq!(key.2, "/");
    let key = RouteStore::<()>::path_to_key("/a/:id/*/:x");
    assert_eq!(key.0, b"/a/\xff");
    assert_eq!(key.2, "/*/:x");
    assert!(!key.3);
    let key = RouteStore::<()>::path_to_key("/a/*x/b");
    assert_eq!(key.0, b"/a/*x/b");
    assert_eq!(key.1, None);
    let key = RouteStore::<()>::path_to_key("*");
    assert_eq!(key.0, b"\xfe");
    assert!(key.3);
    let key = RouteStore::<()>::path_to_key("/caf\u{e9}/:id");
    assert_eq!(key.0, b"/caf\xc3\xa9/\xff");
}

#[test]
fn default_store_is_empty() {
    let store: RouteStore<u8> = RouteStore::default();
    assert_eq!(store.get("/"), None);
    assert!(store.entry(b"/").is_none());
}

#[test]
fn trailing_slash_is_dropped_from_a_static_key() {
    assert_eq!(RouteStore::<()>::path_to_key("/users/").0, b"/users");
    assert_eq!(RouteStore::<()>::path_to_key("/users").0, b"/users");
    assert_eq!(RouteStore::<()>::path_to_key("/users//").0, b"/users/");
    assert_eq!(RouteStore::<()>::path_to_key("//").0, b"/");
    assert_eq!(RouteStore::<()>::path_to_key("/").0, b"/");
    assert_eq!(RouteStore::<()>::path_to_key("").0, b"/");
    assert_eq!(RouteStore::<()>::path_to_key("users/").0, b"users");
    // a marker ends the key, so nothing is dropped behind it
    assert_eq!(RouteStore::<()>::path_to_key("/users/:id/").0, b"/users/\xff");
    assert_eq!(RouteStore::<()>::path_to_key("/users/:id/").2, "/");
    assert_eq!(RouteStore::<()>::path_to_key("/users/:id//").2, "//");
}

#[test]
fn patterns_that_differ_in_a_trailing_slash_share_a_key() {
    let mut store = RouteStore::new();
    store.insert("/about", Route::new(1));
    store.insert("/about/", Route::new(2));
    assert_eq!(store.get("/about"), Some(2));
    // the path is probed by its literal bytes
    assert_eq!(store.get("/about/"), None);

    let mut root = RouteStore::new();
    root.insert("//", Route::new(1));
    assert_eq!(root.get("/"), Some(1));
    assert_eq!(root.get("//"), None);

    // the remainder of a parameter pattern is a pattern too
    let mut nested = RouteStore::new();
    nested.insert("/u/:id/edit/", Route::new(3));
    assert_eq!(nested.get("/u/7/edit"), Some(3));
    assert_eq!(nested.get("/u/7/edit/"), None);
}
