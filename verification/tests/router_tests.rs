use obsidian::method::Method;
use obsidian::router::static_file_path;
use obsidian::router::Router;

fn handler() -> u64 {
    11
}

#[test]
fn router_get_test() {
    let mut router = Router::new();

    router.get("router/test", handler()).unwrap();

    let result = router.search_route("router/test");
    let fail_result = router.search_route("failed");

    assert!(result.is_some());
    assert!(fail_result.is_none());

    match result {
        Some(route) => {
            let middlewares = route.get_middlewares();
            let route_value = route.get_route(&Method::Get).unwrap();

            assert_eq!(middlewares.len(), 0);
            assert_eq!(route_value.method, Method::Get);
        }
        _ => {
            panic!()
        }
    }
}

#[test]
fn router_post_test() {
    let mut router = Router::new();

    router.post("router/test", handler()).unwrap();

    let result = router.search_route("router/test");
    let fail_result = router.search_route("failed");

    assert!(result.is_some());
    assert!(fail_result.is_none());

    match result {
        Some(route) => {
            let middlewares = route.get_middlewares();
            let route_value = route.get_route(&Method::Post).unwrap();

            assert_eq!(middlewares.len(), 0);
            assert_eq!(route_value.method, Method::Post);
        }
        _ => {
            panic!()
        }
    }
}

#[test]
fn router_put_test() {
    let mut router = Router::new();

    router.put("router/test", handler()).unwrap();

    let result = router.search_route("router/test");
    let fail_result = router.search_route("failed");

    assert!(result.is_some());
    assert!(fail_result.is_none());

    match result {
        Some(route) => {
            let middlewares = route.get_middlewares();
            let route_value = route.get_route(&Method::Put).unwrap();

            assert_eq!(middlewares.len(), 0);
            assert_eq!(route_value.method, Method::Put);
        }
        _ => {
            panic!()
        }
    }
}

#[test]
fn router_delete_test() {
    let mut router = Router::new();

    router.delete("router/test", handler()).unwrap();

    let result = router.search_route("router/test");
    let fail_result = router.search_route("failed");

    assert!(result.is_some());
    assert!(fail_result.is_none());

    match result {
        Some(route) => {
            let middlewares = route.get_middlewares();
            let route_value = route.get_route(&Method::Delete).unwrap();

            assert_eq!(middlewares.len(), 0);
            assert_eq!(route_value.method, Method::Delete);
        }
        _ => {
            panic!()
        }
    }
}

#[test]
fn router_root_middleware_test() {
    let mut router = Router::new();
    let logger: u64 = 1;

    router.use_service(logger);

    let result = router.search_route("/");
    let fail_result = router.search_route("failed");

    assert!(result.is_some());
    assert!(fail_result.is_none());

    match result {
        Some(route) => {
            let middlewares = route.get_middlewares();

            assert_eq!(middlewares.len(), 1);
        }
        _ => {
            panic!()
        }
    }
}

#[test]
fn router_relative_middleware_test() {
    let mut router = Router::new();
    let logger: u64 = 1;

    router.use_service_to("middleware/child", logger).unwrap();

    let result = router.search_route("/middleware/child");
    let fail_result = router.search_route("/");

    assert!(result.is_some());
    assert!(fail_result.is_none());

    match result {
        Some(route) => {
            let middlewares = route.get_middlewares();

            assert_eq!(middlewares.len(), 1);
        }
        _ => {
            panic!()
        }
    }
}

#[test]
fn router_search_test() {
    let mut router = Router::new();

    router.get("router/test", handler()).unwrap();
    router.post("router/test", handler()).unwrap();
    router.put("router/test", handler()).unwrap();
    router.delete("router/test", handler()).unwrap();

    router.get("route/diff_route", handler()).unwrap();

    let result = router.search_route("router/test");
    let diff_result = router.search_route("route/diff_route");
    let fail_result = router.search_route("failed");

    assert!(result.is_some());
    assert!(diff_result.is_some());
    assert!(fail_result.is_none());

    match result {
        Some(route) => {
            let middlewares = route.get_middlewares();
            let route_value = route.get_route(&Method::Get).unwrap();

            assert_eq!(middlewares.len(), 0);
            assert_eq!(route_value.method, Method::Get);

            let route_value = route.get_route(&Method::Post).unwrap();

            assert_eq!(middlewares.len(), 0);
            assert_eq!(route_value.method, Method::Post);

            let route_value = route.get_route(&Method::Put).unwrap();

            assert_eq!(middlewares.len(), 0);
            assert_eq!(route_value.method, Method::Put);

            let route_value = route.get_route(&Method::Delete).unwrap();

            assert_eq!(middlewares.len(), 0);
            assert_eq!(route_value.method, Method::Delete);
        }
        _ => {
            panic!()
        }
    }

    match diff_result {
        Some(route) => {
            let middlewares = route.get_middlewares();
            let route_value = route.get_route(&Method::Get).unwrap();

            assert_eq!(middlewares.len(), 0);
            assert_eq!(route_value.method, Method::Get);
        }
        _ => {
            panic!()
        }
    }
}

#[test]
fn router_merge_test() {
    let mut main_router = Router::new();
    let mut sub_router = Router::new();

    main_router.get("router/test", handler()).unwrap();
    sub_router.get("router/test", handler()).unwrap();

    let logger: u64 = 1;

    sub_router.use_service(logger);

    main_router.use_router("sub_router", sub_router).unwrap();

    let result = main_router.search_route("router/test");
    let sub_result = main_router.search_route("sub_router/router/test");
    let fail_result = main_router.search_route("failed");

    assert!(result.is_some());
    assert!(sub_result.is_some());
    assert!(fail_result.is_none());

    match result {
        Some(route) => {
            let middlewares = route.get_middlewares();
            let route_value = route.get_route(&Method::Get).unwrap();

            assert_eq!(middlewares.len(), 0);
            assert_eq!(route_value.method, Method::Get);
        }
        _ => {
            panic!()
        }
    }

    match sub_result {
        Some(route) => {
            let middlewares = route.get_middlewares();
            let route_value = route.get_route(&Method::Get).unwrap();

            assert_eq!(middlewares.len(), 1);
            assert_eq!(route_value.method, Method::Get);
        }
        _ => {
            panic!()
        }
    }
}

#[test]
fn router_duplicate_path_test() {
    let mut router = Router::new();

    router.get("router/test", handler()).unwrap();
    let result = router.get("router/test", handler());

    assert!(result.is_err());
}

#[test]
fn router_ambiguous_path_test() {
    let mut router = Router::new();

    router.get("router/:test", handler()).unwrap();
    let result = router.get("router/test", handler());

    assert!(result.is_err());
}

#[test]
fn router_duplicate_merge_test() {
    let mut main_router = Router::new();
    let mut sub_router = Router::new();

    main_router.get("sub_router/test", handler()).unwrap();
    sub_router.get("test", handler()).unwrap();

    let logger: u64 = 1;

    sub_router.use_service(logger);

    let result = main_router.use_router("sub_router", sub_router);

    assert!(result.is_err());
}

#[test]
fn router_use_static_to_test() {
    let mut router = Router::new();

    router.use_static_to("/static", 21).unwrap();

    let result = router.search_route("/static/css/site.css");
    assert!(result.is_some());
    assert_eq!(result.unwrap().get_route(&Method::Get).unwrap().handler, 21);
}

#[test]
fn static_file_path_test() {
    let path = static_file_path("/static", "/srv/files", "/static/css/site.css");
    assert_eq!(path, "srv/files/css/site.css");

    let path = static_file_path("files", "files", "/files/a/b.txt");
    assert_eq!(path, "files/a/b.txt");
}
