use siso::route::FindContext;
use siso::route::Route;
use siso::MatchPathNode;
use siso::PathNode;
use siso::PathPattern;
use siso::Siso;
use siso::SisoResult;

#[test]
fn path_node_comparison_works() {
    assert!(String::from("foo").path_node_match("foo"));
    assert!(!String::from("foo").path_node_match("bar"));
    assert!(PathPattern::new(String::from("node1"), String::from(r"^test\d+$"))
        .unwrap()
        .path_node_match("test5"));
}

#[test]
fn router_works() {
    let route1: Vec<PathNode> = vec![
        PathNode::literal(String::from("foo")),
        PathNode::literal(String::from("bar")),
    ];
    let route2: Vec<PathNode> = vec![
        PathNode::literal(String::from("foo")),
        PathNode::literal(String::from("lol")),
    ];
    let route3: Vec<PathNode> = vec![
        PathNode::pattern(String::from("node1"), String::from(r"^test\d+$")).unwrap(),
        PathNode::pattern(String::from("node2"), String::from(r"^test\d+$")).unwrap(),
    ];
    let mut router = Siso::new();

    assert_eq!(
        router
            .register(route1.as_slice(), String::from("test1"))
            .unwrap(),
        ()
    );
    assert_eq!(
        router
            .register(route2.as_slice(), String::from("test2"))
            .unwrap(),
        ()
    );
    assert_eq!(
        router
            .register(route3.as_slice(), String::from("test3"))
            .unwrap(),
        ()
    );

    assert_eq!(
        router
            .find(vec!["foo".to_string(), "bar".to_string()].as_slice())
            .unwrap(),
        SisoResult {
            nodes: Vec::new(),
            values: Vec::new(),
            handler: String::from("test1"),
        }
    );
    router
        .find(vec!["no".to_string(), "thing".to_string()].as_slice())
        .expect_err("E_NOT_FOUND");
    router
        .register(route1.as_slice(), String::from("test3"))
        .expect_err("E_NOT_FOUND");
}

#[test]
fn scenario_shared_prefix_and_collision() {
    let mut router = Siso::new();
    let foo_bar = vec![
        PathNode::literal("foo".to_string()),
        PathNode::literal("bar".to_string()),
    ];
    let foo_lol = vec![
        PathNode::literal("foo".to_string()),
        PathNode::literal("lol".to_string()),
    ];
    router.register(foo_bar.as_slice(), "H1".to_string()).unwrap();
    router.register(foo_lol.as_slice(), "H2".to_string()).unwrap();

    let found = router
        .find(vec!["foo".to_string(), "bar".to_string()].as_slice())
        .unwrap();
    assert_eq!(found.handler, "H1");
    let other = router
        .find(vec!["foo".to_string(), "lol".to_string()].as_slice())
        .unwrap();
    assert_eq!(other.handler, "H2");

    let miss = router
        .find(vec!["no".to_string(), "thing".to_string()].as_slice())
        .unwrap_err();
    assert_eq!(miss.code, "E_NOT_FOUND");

    let collision = router
        .register(foo_bar.as_slice(), "H3".to_string())
        .unwrap_err();
    assert_eq!(collision.code, "E_VALUE_EXISTS");
    assert_eq!(
        router
            .find(vec!["foo".to_string(), "bar".to_string()].as_slice())
            .unwrap()
            .handler,
        "H1"
    );
}

#[test]
fn scenario_date_pattern() {
    let mut router = Siso::new();
    let date_lol = vec![
        PathNode::pattern("date".to_string(), r"^\d{4}-\d{2}-\d{2}$".to_string()).unwrap(),
        PathNode::literal("lol".to_string()),
    ];
    router.register(date_lol.as_slice(), "H3".to_string()).unwrap();

    let found = router
        .find(vec!["2024-01-01".to_string(), "lol".to_string()].as_slice())
        .unwrap();
    assert_eq!(found.handler, "H3");

    let miss = router
        .find(vec!["not-a-date".to_string(), "lol".to_string()].as_slice())
        .unwrap_err();
    assert_eq!(miss.code, "E_NOT_FOUND");
}

#[test]
fn scenario_prefix_is_not_an_endpoint() {
    let mut router = Siso::new();
    let a = vec![PathNode::literal("a".to_string())];
    router.register(a.as_slice(), "H1".to_string()).unwrap();

    let miss = router
        .find(vec!["a".to_string(), "b".to_string()].as_slice())
        .unwrap_err();
    assert_eq!(miss.code, "E_NOT_FOUND");
    assert_eq!(
        router.find(vec!["a".to_string()].as_slice()).unwrap().handler,
        "H1"
    );
}

#[test]
fn earlier_registered_pattern_wins() {
    let mut router = Siso::new();
    let first = vec![PathNode::pattern("n1".to_string(), "^a+$".to_string()).unwrap()];
    let second = vec![PathNode::pattern("n2".to_string(), "^a*$".to_string()).unwrap()];
    router.register(first.as_slice(), "first".to_string()).unwrap();
    router.register(second.as_slice(), "second".to_string()).unwrap();
    assert_eq!(
        router.find(vec!["aa".to_string()].as_slice()).unwrap().handler,
        "first"
    );

    let mut swapped = Siso::new();
    let first2 = vec![PathNode::pattern("n1".to_string(), "^a+$".to_string()).unwrap()];
    let second2 = vec![PathNode::pattern("n2".to_string(), "^a*$".to_string()).unwrap()];
    swapped.register(second2.as_slice(), "second".to_string()).unwrap();
    swapped.register(first2.as_slice(), "first".to_string()).unwrap();
    assert_eq!(
        swapped.find(vec!["aa".to_string()].as_slice()).unwrap().handler,
        "second"
    );
}

#[test]
fn repeated_find_returns_identical_outcome() {
    let mut router = Siso::new();
    let p = vec![
        PathNode::literal("x".to_string()),
        PathNode::pattern("num".to_string(), r"^\d+$".to_string()).unwrap(),
    ];
    router.register(p.as_slice(), "H".to_string()).unwrap();

    let input = vec!["x".to_string(), "42".to_string()];
    let first = router.find(input.as_slice()).unwrap();
    let again = router.find(input.as_slice()).unwrap();
    assert_eq!(first, again);

    let miss_input = vec!["x".to_string(), "nope".to_string()];
    let e1 = router.find(miss_input.as_slice()).unwrap_err();
    let e2 = router.find(miss_input.as_slice()).unwrap_err();
    assert_eq!(e1.code, e2.code);
}

#[test]
fn invalid_pattern_is_rejected() {
    let bad = PathPattern::new("broken".to_string(), "(".to_string()).unwrap_err();
    assert_eq!(bad.code, "E_INVALID_PATTERN");
    let bad_node = PathNode::pattern("broken".to_string(), "(".to_string()).unwrap_err();
    assert_eq!(bad_node.code, "E_INVALID_PATTERN");
    assert!(PathNode::pattern("fine".to_string(), "a|b".to_string()).is_ok());
}

#[test]
fn pattern_matches_whole_segment_only() {
    let p = PathPattern::new("n".to_string(), r"test\d+".to_string()).unwrap();
    assert!(p.path_node_match("test5"));
    assert!(!p.path_node_match("xtest5y"));
    assert!(!p.path_node_match("test"));

    let mut router = Siso::new();
    let nodes = vec![PathNode::pattern("n".to_string(), r"test\d+".to_string()).unwrap()];
    router.register(nodes.as_slice(), "H".to_string()).unwrap();
    assert_eq!(
        router.find(vec!["test5".to_string()].as_slice()).unwrap().handler,
        "H"
    );
    let miss = router
        .find(vec!["xtest5y".to_string()].as_slice())
        .unwrap_err();
    assert_eq!(miss.code, "E_NOT_FOUND");
}

#[test]
fn pattern_identity_is_its_name() {
    let mut router = Siso::new();
    let digits = vec![PathNode::pattern("slot".to_string(), r"^\d+$".to_string()).unwrap()];
    let letters = vec![PathNode::pattern("slot".to_string(), r"^[a-z]+$".to_string()).unwrap()];
    router.register(digits.as_slice(), 1u32).unwrap();
    let collision = router.register(letters.as_slice(), 2u32).unwrap_err();
    assert_eq!(collision.code, "E_VALUE_EXISTS");
}

#[test]
fn route_tree_direct() {
    let mut route: Route<String> = Route::new(None, None);
    let nodes = vec![PathNode::literal("x".to_string())];
    route.register(nodes.as_slice(), "h".to_string()).unwrap();
    let found = route
        .find(vec!["x".to_string()].as_slice(), FindContext::new())
        .unwrap();
    assert_eq!(found.handler, "h");
    assert!(found.nodes.is_empty());
    assert!(found.values.is_empty());
}
