use chemfst::{
    build_fst_set, load_fst_set, prefix_search, preload_fst_set, substring_search, ChemicalFST, DEFAULT_MAX_RESULTS,
};

fn open(text: &str) -> fst::Set<Vec<u8>> {
    load_fst_set(build_fst_set(text.as_bytes()).unwrap()).unwrap()
}

fn chemicals() -> fst::Set<Vec<u8>> {
    open("acetone\nacetaminophen\nbenzene\nbenzaldehyde\nchloroform\nmethanol\n")
}

fn strings(names: &[&str]) -> Vec<String> {
    names.iter().map(|name| name.to_string()).collect()
}

#[test]
fn queries_on_six_chemicals() {
    let set = chemicals();
    assert_eq!(prefix_search(&set, "acet", 10), strings(&["acetaminophen", "acetone"]));
    assert_eq!(substring_search(&set, "enz", 10).unwrap(), strings(&["benzaldehyde", "benzene"]));
    assert_eq!(prefix_search(&set, "xyz", 10), strings(&[]));
    assert_eq!(
        substring_search(&set, "BENZ", 10).unwrap(),
        substring_search(&set, "benz", 10).unwrap()
    );
    assert_eq!(substring_search(&set, "BENZ", 10).unwrap(), strings(&["benzaldehyde", "benzene"]));
    assert_eq!(prefix_search(&set, "a", 1), strings(&["acetaminophen"]));
}

#[test]
fn prefix_search_returns_names_in_order() {
    let set = chemicals();
    assert_eq!(
        prefix_search(&set, "", 10),
        strings(&["acetaminophen", "acetone", "benzaldehyde", "benzene", "chloroform", "methanol"])
    );
    assert_eq!(prefix_search(&set, "benz", 10), strings(&["benzaldehyde", "benzene"]));
    assert_eq!(prefix_search(&set, "benzene", 10), strings(&["benzene"]));
    assert_eq!(prefix_search(&set, "benzenes", 10), strings(&[]));
    assert_eq!(prefix_search(&set, "Acet", 10), strings(&[]));
}

#[test]
fn prefix_search_stops_at_the_limit() {
    let set = chemicals();
    assert_eq!(prefix_search(&set, "", 3), strings(&["acetaminophen", "acetone", "benzaldehyde"]));
    assert_eq!(prefix_search(&set, "", 6).len(), 6);
    assert_eq!(prefix_search(&set, "", 0), strings(&[]));
    assert_eq!(prefix_search(&set, "acet", 0), strings(&[]));
}

#[test]
fn prefix_search_misses_names_that_go_on_with_the_highest_character() {
    let set = open("ab\na\u{10FFFF}b\na\u{10FFFE}\n");
    assert_eq!(prefix_search(&set, "a", 10), strings(&["ab", "a\u{10FFFE}"]));
    assert_eq!(prefix_search(&set, "a\u{10FFFF}", 10), strings(&["a\u{10FFFF}b"]));
}

#[test]
fn prefix_search_takes_text_beyond_ascii() {
    let set = open("éthanol\néther\nethanol\n");
    assert_eq!(prefix_search(&set, "ét", 10), strings(&["éthanol", "éther"]));
    assert_eq!(prefix_search(&set, "e", 10), strings(&["ethanol"]));
}

#[test]
fn substring_search_returns_names_in_order() {
    let set = chemicals();
    assert_eq!(
        substring_search(&set, "e", 10).unwrap(),
        strings(&["acetaminophen", "acetone", "benzaldehyde", "benzene", "methanol"])
    );
    assert_eq!(substring_search(&set, "e", 2).unwrap(), strings(&["acetaminophen", "acetone"]));
    assert_eq!(substring_search(&set, "form", 10).unwrap(), strings(&["chloroform"]));
    assert_eq!(substring_search(&set, "xyz", 10).unwrap(), strings(&[]));
    assert_eq!(substring_search(&set, "e", 0).unwrap(), strings(&[]));
    assert_eq!(substring_search(&set, "", 10).unwrap().len(), 6);
}

#[test]
fn substring_search_does_not_tell_case() {
    let set = open("Benzene\nBENZALDEHYDE\ntoluene\nÉthanol\n");
    assert_eq!(substring_search(&set, "benz", 10).unwrap(), strings(&["BENZALDEHYDE", "Benzene"]));
    assert_eq!(substring_search(&set, "bEnZ", 10).unwrap(), strings(&["BENZALDEHYDE", "Benzene"]));
    assert_eq!(substring_search(&set, "ÉTHA", 10).unwrap(), strings(&["Éthanol"]));
    assert_eq!(substring_search(&set, "étha", 10).unwrap(), strings(&["Éthanol"]));
    assert_eq!(substring_search(&set, "ETHA", 10).unwrap(), strings(&[]));
    assert_eq!(substring_search(&set, "TOLUENE", 10).unwrap(), strings(&["toluene"]));
}

#[test]
fn substring_search_matches_exactly_otherwise() {
    let set = open("ethyl acetate\nethylacetate\n");
    assert_eq!(substring_search(&set, "l a", 10).unwrap(), strings(&["ethyl acetate"]));
    assert_eq!(substring_search(&set, " ethyl", 10).unwrap(), strings(&[]));
}

#[test]
fn preload_counts_the_keys() {
    assert_eq!(preload_fst_set(&chemicals()).unwrap(), 6);
    assert_eq!(preload_fst_set(&open("a\na\nb\n")).unwrap(), 2);
}

#[test]
fn preload_leaves_answers_as_they_were() {
    let set = chemicals();
    let prefix_before = prefix_search(&set, "benz", 10);
    let substring_before = substring_search(&set, "ol", 10).unwrap();
    assert_eq!(preload_fst_set(&set).unwrap(), 6);
    assert_eq!(prefix_search(&set, "benz", 10), prefix_before);
    assert_eq!(preload_fst_set(&set).unwrap(), 6);
    assert_eq!(preload_fst_set(&set).unwrap(), 6);
    assert_eq!(prefix_search(&set, "benz", 10), prefix_before);
    assert_eq!(substring_search(&set, "ol", 10).unwrap(), substring_before);
}

#[test]
fn open_store_answers_like_the_functions() {
    let text = "acetone\nacetaminophen\nbenzene\nbenzaldehyde\nchloroform\nmethanol\n";
    let store = ChemicalFST::from_text(text.as_bytes()).unwrap();
    assert_eq!(store.prefix_search("acet", Some(10)), strings(&["acetaminophen", "acetone"]));
    assert_eq!(store.prefix_search("acet", Some(1)), strings(&["acetaminophen"]));
    assert_eq!(store.prefix_search("acet", None), strings(&["acetaminophen", "acetone"]));
    assert_eq!(store.substring_search("ENZ", None).unwrap(), strings(&["benzaldehyde", "benzene"]));
    assert_eq!(store.substring_search("e", Some(0)).unwrap(), strings(&[]));
    assert_eq!(store.preload().unwrap(), 6);

    let store = ChemicalFST::new(build_fst_set(text.as_bytes()).unwrap()).unwrap();
    assert_eq!(store.prefix_search("m", None), strings(&["methanol"]));
}

#[test]
fn open_store_limits_answers_by_default() {
    assert_eq!(DEFAULT_MAX_RESULTS, 100);
    let mut text = String::new();
    for number in 0..150 {
        text.push_str(&format!("compound{:03}\n", number));
    }
    let store = ChemicalFST::from_text(text.as_bytes()).unwrap();
    let found = store.prefix_search("compound", None);
    assert_eq!(found.len(), 100);
    assert_eq!(found[0], "compound000");
    assert_eq!(found[99], "compound099");
    assert_eq!(store.substring_search("POUND1", None).unwrap().len(), 50);
    assert_eq!(store.substring_search("pound", None).unwrap().len(), 100);
    assert_eq!(store.prefix_search("compound", Some(150)).len(), 150);
    assert_eq!(store.preload().unwrap(), 150);
}

// Names made of the letters a, b, C and é, up to three long, some of them twice.
fn many_names() -> Vec<String> {
    let letters = ["a", "b", "C", "é"];
    let mut names = Vec::new();
    for first in letters {
        names.push(first.to_string());
        for second in letters {
            names.push(format!("{}{}", first, second));
            for third in letters {
                names.push(format!("{}{}{}", third, second, first));
            }
        }
    }
    names
}

#[test]
fn prefix_search_agrees_with_a_scan() {
    let names = many_names();
    let set = open(&names.join("\n"));
    let mut sorted = names.clone();
    sorted.sort();
    sorted.dedup();
    assert_eq!(preload_fst_set(&set).unwrap(), sorted.len());
    for prefix in ["", "a", "b", "C", "é", "ab", "aC", "éé", "bé", "abC", "éba", "c", "z", "abCa", "\u{10FFFF}"] {
        let expected: Vec<String> = sorted.iter().filter(|name| name.starts_with(prefix)).cloned().collect();
        assert_eq!(prefix_search(&set, prefix, 1000), expected);
        let capped: Vec<String> = expected.iter().take(3).cloned().collect();
        assert_eq!(prefix_search(&set, prefix, 3), capped);
    }
}

#[test]
fn substring_search_agrees_with_a_scan() {
    let names = many_names();
    let set = open(&names.join("\n"));
    let mut sorted = names.clone();
    sorted.sort();
    sorted.dedup();
    for query in ["", "a", "B", "c", "É", "ab", "Éa", "cc", "bab", "aaaa", "z"] {
        let folded = query.to_lowercase();
        let expected: Vec<String> =
            sorted.iter().filter(|name| name.to_lowercase().contains(&folded)).cloned().collect();
        assert_eq!(substring_search(&set, query, 1000).unwrap(), expected);
        let capped: Vec<String> = expected.iter().take(5).cloned().collect();
        assert_eq!(substring_search(&set, query, 5).unwrap(), capped);
    }
}
