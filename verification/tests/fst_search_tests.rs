use chemfst::{build_fst_set, load_fst_set, prefix_search, substring_search};

// The names of the test index, one on each line.
fn create_test_data() -> Vec<u8> {
    let mut text = Vec::new();
    for name in [
        "acetone",
        "acetaminophen",
        "benzene",
        "benzaldehyde",
        "chloroform",
        "methanol",
    ] {
        text.extend_from_slice(name.as_bytes());
        text.push(b'\n');
    }
    text
}

#[test]
fn test_build_and_load_fst() {
    let text = create_test_data();

    // Build the FST set
    let result = build_fst_set(&text);
    assert!(result.is_ok());

    // Load the FST set
    let set_result = load_fst_set(result.unwrap());
    assert!(set_result.is_ok());
}

#[test]
fn test_prefix_search() {
    let text = create_test_data();

    // Build the FST set
    let bytes = build_fst_set(&text).unwrap();

    // Load the FST set
    let set = load_fst_set(bytes).unwrap();

    // Test prefix search
    let results = prefix_search(&set, "acet", 10);
    assert_eq!(results.len(), 2);
    assert!(results.contains(&"acetone".to_string()));
    assert!(results.contains(&"acetaminophen".to_string()));

    // Test prefix with no matches
    let empty_results = prefix_search(&set, "xyz", 10);
    assert_eq!(empty_results.len(), 0);

    // Test limit
    let limited_results = prefix_search(&set, "a", 1);
    assert_eq!(limited_results.len(), 1);
}

#[test]
fn test_substring_search() {
    let text = create_test_data();

    // Build the FST set
    let bytes = build_fst_set(&text).unwrap();

    // Load the FST set
    let set = load_fst_set(bytes).unwrap();

    // Test substring search
    let results = substring_search(&set, "enz", 10).unwrap();
    assert_eq!(results.len(), 2);
    assert!(results.contains(&"benzene".to_string()));
    assert!(results.contains(&"benzaldehyde".to_string()));

    // Test substring with no matches
    let empty_results = substring_search(&set, "xyz", 10).unwrap();
    assert_eq!(empty_results.len(), 0);

    // Test case insensitivity
    let case_results = substring_search(&set, "BENZ", 10).unwrap();
    assert_eq!(case_results.len(), 2);

    // Test limit
    let limited_results = substring_search(&set, "e", 2).unwrap();
    assert_eq!(limited_results.len(), 2);
}
