use quipu::mcp::hits::select_hits;
use quipu::mcp::search::extract_type_filter;

#[test]
fn test_extract_type_filter_simple() {
    let sparql = "SELECT ?s WHERE { ?s a <http://example.org/Person> }";
    assert_eq!(extract_type_filter(sparql), Some("entity_type = 'http://example.org/Person'".into()));
}

#[test]
fn test_extract_type_filter_rdf_type() {
    let sparql = "SELECT ?s WHERE { ?s <http://www.w3.org/1999/02/22-rdf-syntax-ns#type> <http://example.org/Bot> }";
    assert_eq!(extract_type_filter(sparql), Some("entity_type = 'http://example.org/Bot'".into()));
}

#[test]
fn test_extract_type_filter_complex_returns_none() {
    let sparql = "SELECT ?s WHERE { ?s a <http://example.org/Person> . FILTER(?s != <http://example.org/bob>) }";
    assert!(extract_type_filter(sparql).is_none());
}

#[test]
fn test_extract_type_filter_no_type_returns_none() {
    let sparql = "SELECT ?s WHERE { ?s <http://example.org/name> \"Alice\" }";
    assert!(extract_type_filter(sparql).is_none());
}

#[test]
fn white_space_is_collapsed_before_matching() {
    let sparql = "SELECT ?s\nWHERE {\n\t?s   a\n <http://example.org/T>\n}";
    assert_eq!(extract_type_filter(sparql), Some("entity_type = 'http://example.org/T'".into()));
}

#[test]
fn lower_case_keywords_still_make_a_query_complex() {
    let sparql = "select ?s where { { ?s a <http://e/A> } union { ?s a <http://e/B> } }";
    assert!(extract_type_filter(sparql).is_none());
    let sparql = "SELECT ?s WHERE { ?s a <http://e/A> OPTIONAL { ?s <http://e/p> ?o } }";
    assert!(extract_type_filter(sparql).is_none());
}

#[test]
fn a_type_constraint_without_an_iri_is_not_a_filter() {
    assert!(extract_type_filter("SELECT ?s WHERE { ?s a ?t }").is_none());
}

#[test]
fn hits_keep_the_best_match_of_each_entity_in_scope_up_to_the_limit() {
    let ranked = vec![5, 3, 5, 7, 3, 9];
    assert_eq!(select_hits(&ranked, &vec![true; 6], 3), vec![0, 1, 3]);
    assert_eq!(select_hits(&ranked, &vec![false, true, true, true, true, true], 10), vec![1, 2, 3, 5]);
    assert_eq!(select_hits(&ranked, &vec![true; 6], 0), Vec::<usize>::new());
    assert_eq!(select_hits(&vec![], &vec![], 4), Vec::<usize>::new());
}
