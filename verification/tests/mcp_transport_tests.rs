use quipu::mcp_transport::{endpoint, Method};

#[test]
fn tools_resolve_to_their_routes() {
    assert_eq!(endpoint("quipu_graph_list"), (Method::Get, "/graphs".to_string()));
    assert_eq!(endpoint("quipu_load_ontology"), (Method::Post, "/ontology".to_string()));
    assert_eq!(endpoint("quipu_accept_proposal"), (Method::Post, "/proposal/accept".to_string()));
    assert_eq!(endpoint("quipu_path_backtest"), (Method::Post, "/path/backtest".to_string()));
    assert_eq!(endpoint("quipu_graph_thaw"), (Method::Post, "/graph/thaw".to_string()));
}

#[test]
fn other_tools_are_posted_to_their_name_without_the_prefix() {
    assert_eq!(endpoint("quipu_query"), (Method::Post, "/query".to_string()));
    assert_eq!(endpoint("quipu_knot"), (Method::Post, "/knot".to_string()));
    // Every leading repetition of the prefix goes, as `trim_start_matches` does.
    assert_eq!(endpoint("quipu_quipu_x"), (Method::Post, "/x".to_string()));
    assert_eq!(endpoint("other"), (Method::Post, "/other".to_string()));
    assert_eq!(endpoint(""), (Method::Post, "/".to_string()));
}
