use obsidian::cookies::CookieParser;
use obsidian::error::InternalError;
use obsidian::executor::resolve_endpoint;
use obsidian::executor::EndpointExecutor;
use obsidian::executor::ExecutorStep;
use obsidian::executor::Resolution;
use obsidian::method::Method;
use obsidian::params::Params;
use obsidian::router::Router;
use obsidian::session::MemorySessionStorage;
use obsidian::session::SessionData;

#[test]
fn params_insert_lookup_test() {
    let mut params = Params::new(Vec::new());
    assert!(params.get_params("id").is_none());

    params.add_params("id".to_string(), "1".to_string());
    params.add_params("mode".to_string(), "edit".to_string());

    assert_eq!(params.get_params("id"), Some(&"1".to_string()));
    assert_eq!(params.get_params("mode"), Some(&"edit".to_string()));
    assert!(params.get_params("missing").is_none());

    // a later addition overrides an earlier one
    params.add_params("id".to_string(), "2".to_string());
    assert_eq!(params.get_params("id"), Some(&"2".to_string()));
}

#[test]
fn executor_chain_order_test() {
    let executor = EndpointExecutor::new(7, vec![1, 2]);

    let step = executor.next();
    let executor = match step {
        ExecutorStep::Middleware(m, rest) => {
            assert_eq!(m, 1);
            rest
        }
        _ => panic!(),
    };

    let step = executor.next();
    let executor = match step {
        ExecutorStep::Middleware(m, rest) => {
            assert_eq!(m, 2);
            rest
        }
        _ => panic!(),
    };

    match executor.next() {
        ExecutorStep::Handler(h) => assert_eq!(h, 7),
        _ => panic!(),
    }
}

#[test]
fn resolve_endpoint_test() {
    let mut router = Router::new();
    router.use_service(1);
    router.get("/hello", 5).unwrap();

    // the matched path dispatches the handler registered for the method
    let found = router.search_route("/hello");
    match resolve_endpoint(found, &Method::Get) {
        Resolution::Dispatch { handler, middlewares, params } => {
            assert_eq!(handler, 5);
            assert_eq!(middlewares, vec![1]);
            assert!(params.get_params("x").is_none());
        }
        Resolution::NotFound => panic!(),
    }

    // a matched path without the request's method is not found
    let found = router.search_route("/hello");
    assert!(matches!(resolve_endpoint(found, &Method::Post), Resolution::NotFound));

    // an unmatched path is not found
    let missing = router.search_route("/nothing");
    assert!(matches!(resolve_endpoint(missing, &Method::Get), Resolution::NotFound));
}

#[test]
fn internal_error_message_test() {
    let err = InternalError::GeneralError("broken".to_string());
    assert_eq!(err.message(), "broken");
    assert!(matches!(err, InternalError::GeneralError(_)));

    let err = InternalError::NoneError("nothing here".to_string());
    assert_eq!(err.message(), "nothing here");

    let err = InternalError::ParamError("bad param".to_string());
    assert_eq!(err.message(), "bad param");
}

#[test]
fn session_data_test() {
    let mut session = SessionData::new();
    assert!(session.get("user").is_none());

    assert!(session.set("user", "alice").is_none());
    assert_eq!(session.get("user"), Some(&"alice".to_string()));

    let previous = session.set("user", "bob");
    assert_eq!(previous, Some("alice".to_string()));
    assert_eq!(session.get("user"), Some(&"bob".to_string()));
    assert_eq!(session.get_all().len(), 1);

    let removed = session.remove("user");
    assert_eq!(removed, Some("bob".to_string()));
    assert!(session.get("user").is_none());
}

#[test]
fn session_expiry_test() {
    let session = SessionData::new();
    // no expiry: alive at any instant
    assert!(session.is_alive(0));
    assert!(session.is_alive(i64::MAX));

    let session = session.timeout(1_000, 10_000);
    assert_eq!(session.max_age, Some(11_000));
    // a session counts as live once its expiry instant lies behind `now`
    assert!(!session.is_alive(10_500));
    assert!(session.is_alive(12_000));

    let mut session = SessionData::new();
    session.timeout = Some(2_000);
    session.refresh_session(50_000);
    assert_eq!(session.max_age, Some(52_000));
}

#[test]
fn memory_session_storage_test() {
    let mut storage = MemorySessionStorage::new();
    assert!(storage.get_session("sid").is_none());

    let mut session = SessionData::new();
    session.set("user", "alice");
    storage.set_session("sid", session);

    let held = storage.get_session("sid").unwrap();
    assert_eq!(held.get("user"), Some(&"alice".to_string()));

    let mut replacement = SessionData::new();
    replacement.set("user", "bob");
    storage.set_session("sid", replacement);
    let held = storage.get_session("sid").unwrap();
    assert_eq!(held.get("user"), Some(&"bob".to_string()));

    storage.remove_session("sid");
    assert!(storage.get_session("sid").is_none());
}

#[test]
fn cookie_parser_test() {
    let parser = CookieParser::new();

    let pairs = parser.parse_header("name=value; session=abc123");
    assert_eq!(
        pairs,
        vec![
            ("name".to_string(), "value".to_string()),
            ("session".to_string(), "abc123".to_string()),
        ]
    );

    // pieces that are not cookie pairs are skipped
    let pairs = parser.parse_header("a=1; garbage; c=3");
    assert_eq!(
        pairs,
        vec![("a".to_string(), "1".to_string()), ("c".to_string(), "3".to_string())]
    );

    // an empty header carries nothing
    let pairs = parser.parse_header("");
    assert!(pairs.is_empty());
}
