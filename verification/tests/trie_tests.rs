use obsidian::method::Method;
use obsidian::route::Route;
use obsidian::trie::RouteTrie;

fn handler() -> u64 {
    7
}

#[test]
fn radix_trie_head_test() {
    let mut route_trie = RouteTrie::new();
    let logger: u64 = 1;

    route_trie.insert_default_middleware(logger);
    route_trie.insert_route("/", Route::new(Method::Get, handler())).unwrap();

    let result = route_trie.search_route("/");

    assert!(result.is_some());

    match result {
        Some(route) => {
            let middlewares = route.get_middlewares();
            let route_value = route.get_route(&Method::Get).is_some();

            assert_eq!(middlewares.len(), 1);
            assert!(route_value);
        }
        _ => panic!(),
    }
}

#[test]
fn radix_trie_normal_test() {
    let mut route_trie = RouteTrie::new();
    let logger: u64 = 1;
    let logger2: u64 = 2;

    route_trie.insert_default_middleware(logger);
    route_trie.insert_route("/normal/test/", Route::new(Method::Get, handler())).unwrap();
    route_trie.insert_route("/ノーマル/テスト/", Route::new(Method::Get, handler())).unwrap();
    route_trie.insert_middleware("/ノーマル/テスト/", logger2).unwrap();

    let result = route_trie.search_route("/normal/test/");

    assert!(result.is_some());

    match result {
        Some(route) => {
            let middlewares = route.get_middlewares();
            let route_value = route.get_route(&Method::Get).is_some();

            assert_eq!(middlewares.len(), 1);
            assert!(route_value);
        }
        _ => panic!(),
    }

    let result = route_trie.search_route("/ノーマル/テスト/");

    assert!(result.is_some());

    match result {
        Some(route) => {
            let middlewares = route.get_middlewares();
            let route_value = route.get_route(&Method::Get).is_some();

            assert_eq!(middlewares.len(), 2);
            assert!(route_value);
        }
        _ => panic!(),
    }
}

#[test]
fn radix_trie_not_found_test() {
    let mut route_trie = RouteTrie::new();
    let logger: u64 = 1;

    route_trie.insert_default_middleware(logger);
    route_trie.insert_route("/normal/test/", Route::new(Method::Get, handler())).unwrap();

    let result = route_trie.search_route("/fail/test/");

    assert!(result.is_none());
}

#[test]
fn radix_trie_split_node_and_key_test() {
    let mut route_trie = RouteTrie::new();
    let logger: u64 = 1;
    let logger2: u64 = 2;
    let logger3: u64 = 3;

    route_trie.insert_default_middleware(logger);
    route_trie.insert_route("/normal/test/", Route::new(Method::Get, handler())).unwrap();
    route_trie.insert_route("/noral/test/", Route::new(Method::Get, handler())).unwrap();
    route_trie.insert_route("/ノーマル/テスト/", Route::new(Method::Get, handler())).unwrap();
    route_trie.insert_route("/ノーマル/テーブル/", Route::new(Method::Get, handler())).unwrap();
    route_trie.insert_middleware("/noral/test/", logger2).unwrap();
    route_trie.insert_middleware("/ノーマル/テーブル/", logger3).unwrap();

    let test_cases = vec![
        ("/normal/test/", 1),
        ("/noral/test/", 2),
        ("/ノーマル/テスト/", 1),
        ("/ノーマル/テーブル/", 2),
    ];

    for case in test_cases.iter() {
        let normal_result = route_trie.search_route(case.0);

        assert!(normal_result.is_some());

        match normal_result {
            Some(route) => {
                let middlewares = route.get_middlewares();
                let route_value = route.get_route(&Method::Get).is_some();

                assert_eq!(middlewares.len(), case.1);
                assert!(route_value);
            }
            _ => panic!(),
        }
    }
}

#[test]
fn radix_trie_wildcard_test() {
    let mut route_trie = RouteTrie::new();
    let logger: u64 = 1;
    let logger2: u64 = 2;
    let logger3: u64 = 3;

    route_trie.insert_route("/normal/test/*", Route::new(Method::Get, handler())).unwrap();
    route_trie.insert_middleware("/normal/test/*", logger).unwrap();
    route_trie.insert_middleware("/normal/test/*", logger2).unwrap();
    route_trie.insert_middleware("/normal/test/*", logger3).unwrap();

    let test_cases = vec![
        "/normal/test/test",
        "/normal/test/123",
        "/normal/test/こんにちは",
        "/normal/test/啊",
    ];

    for case in test_cases.iter() {
        let normal_result = route_trie.search_route(case);

        assert!(normal_result.is_some());

        match normal_result {
            Some(route) => {
                let middlewares = route.get_middlewares();
                let route_value = route.get_route(&Method::Get).is_some();

                assert_eq!(middlewares.len(), 3);
                assert!(route_value);
            }
            _ => panic!(),
        }
    }
}

#[test]
fn radix_trie_wildcard_catches_nested_path_test() {
    let mut route_trie = RouteTrie::new();

    route_trie.insert_route("/files/*", Route::new(Method::Get, 9)).unwrap();

    let result = route_trie.search_route("/files/anything/nested/path");
    assert!(result.is_some());
    let route = result.unwrap();
    assert_eq!(route.get_route(&Method::Get).unwrap().handler, 9);

    assert!(route_trie.search_route("/elsewhere/x").is_none());
}

#[test]
fn radix_trie_wildcard_param_conflict_test() {
    let mut route_trie = RouteTrie::new();

    route_trie.insert_route("/normal/test/*", Route::new(Method::Get, handler())).unwrap();
    let result = route_trie.insert_route("/normal/test/:param", Route::new(Method::Get, handler()));

    assert!(result.is_err());
}

#[test]
fn radix_trie_param_wildcard_conflict_test() {
    let mut route_trie = RouteTrie::new();

    route_trie.insert_route("/normal/test/:param", Route::new(Method::Get, handler())).unwrap();
    let result = route_trie.insert_route("/normal/test/*", Route::new(Method::Get, handler()));

    assert!(result.is_err());
}

#[test]
fn radix_trie_duplicate_method_conflict_test() {
    let mut route_trie = RouteTrie::new();

    route_trie.insert_route("/dup/path", Route::new(Method::Get, 1)).unwrap();
    let result = route_trie.insert_route("/dup/path", Route::new(Method::Get, 2));
    assert!(result.is_err());
    match result {
        Err(e) => {
            assert!(!e.message().is_empty());
        }
        _ => panic!(),
    }

    // the same path still resolves to the first registration
    let found = route_trie.search_route("/dup/path").unwrap();
    assert_eq!(found.get_route(&Method::Get).unwrap().handler, 1);

    // a second method at the same path is fine
    route_trie.insert_route("/dup/path", Route::new(Method::Post, 3)).unwrap();
    let found = route_trie.search_route("/dup/path").unwrap();
    assert_eq!(found.get_route(&Method::Get).unwrap().handler, 1);
    assert_eq!(found.get_route(&Method::Post).unwrap().handler, 3);
}

#[test]
fn radix_trie_malformed_wildcard_test() {
    let mut route_trie = RouteTrie::new();

    // '*' combined with other characters in one segment
    let result = route_trie.insert_route("/files/a*b", Route::new(Method::Get, 1));
    assert!(result.is_err());

    // '*' not in the last segment
    let result = route_trie.insert_route("/files/*/tail", Route::new(Method::Get, 1));
    assert!(result.is_err());
}

#[test]
fn radix_trie_param_capture_test() {
    let mut route_trie = RouteTrie::new();

    route_trie.insert_route("/paramtest/:id", Route::new(Method::Get, 4)).unwrap();
    route_trie.insert_route("/paramtest/:id/test", Route::new(Method::Get, 5)).unwrap();

    let result = route_trie.search_route("/paramtest/42").unwrap();
    assert_eq!(result.get_params().get_params("id"), Some(&"42".to_string()));
    assert_eq!(result.get_route(&Method::Get).unwrap().handler, 4);

    let result = route_trie.search_route("/paramtest/42/test").unwrap();
    assert_eq!(result.get_params().get_params("id"), Some(&"42".to_string()));
    assert_eq!(result.get_route(&Method::Get).unwrap().handler, 5);

    let captured: i32 = result.get_params().get_params("id").unwrap().parse().unwrap();
    assert_eq!(captured * 10, 420);
}

#[test]
fn radix_trie_slash_normalization_test() {
    let mut route_trie = RouteTrie::new();

    route_trie.insert_route("a/b", Route::new(Method::Get, 6)).unwrap();

    for path in ["/a/b/", "a/b", "//a//b", "/a/b"].iter() {
        let result = route_trie.search_route(path);
        assert!(result.is_some());
        assert_eq!(result.unwrap().get_route(&Method::Get).unwrap().handler, 6);
    }
}

#[test]
fn radix_trie_middleware_accumulation_test() {
    let mut route_trie = RouteTrie::new();

    route_trie.insert_default_middleware(100);
    route_trie.insert_route("/a/b", Route::new(Method::Get, 1)).unwrap();
    route_trie.insert_route("/", Route::new(Method::Get, 2)).unwrap();
    route_trie.insert_middleware("/a/b", 200).unwrap();

    // one middleware at the root plus one at /a/b: searching /a/b sees two,
    // the root's first; searching / sees exactly one
    let result = route_trie.search_route("/a/b").unwrap();
    assert_eq!(result.get_middlewares(), &vec![100, 200]);

    let result = route_trie.search_route("/").unwrap();
    assert_eq!(result.get_middlewares(), &vec![100]);
}
