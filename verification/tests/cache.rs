use satysfi_documents::cache::DocumentCache;
use satysfi_documents::cst::CstText;
use satysfi_documents::documents::{Dependency, DocumentData};

const MAIN: &str = "@require: math\n@require: list\n@require: math\n@import: local\n\nlet x = 1\n";
const MATH_URL: &str = "file:///home/u/.satysfi/dist/packages/math.satyh";
const LIST_URL: &str = "file:///home/u/.satysfi/dist/packages/list.satyh";

fn not_parsed(text: &str) -> DocumentData {
    DocumentData::from_path(text, None, None).expect("nothing to look up")
}

fn text_of(doc: &DocumentData) -> String {
    match doc {
        DocumentData::Parsed { csttext, .. } => csttext.text().to_string(),
        DocumentData::NotParsed { text, .. } => text.clone(),
    }
}

/// The dependencies of `MAIN`, with the required ones found and the imported one missing.
fn dependencies() -> Vec<Dependency> {
    let ct = CstText::parse(MAIN).expect("parses");
    let mut deps = Dependency::extract(&ct, Some("/home/u"), Some("/proj/main.saty"));
    assert_eq!(deps.len(), 4);
    for (i, d) in deps.iter_mut().enumerate() {
        d.resolve(i < 3);
    }
    deps
}

#[test]
fn insert_get_contains() {
    let mut cache = DocumentCache::new();
    let url = "file:///a.satyh".to_string();
    assert!(!cache.contains_key(&url));
    assert!(cache.get(&url).is_none());
    assert!(cache.insert(url.clone(), not_parsed("let x =")).is_none());
    assert!(cache.contains_key(&url));
    assert_eq!(text_of(cache.get(&url).unwrap()), "let x =");
    let old = cache.insert(url.clone(), not_parsed("let y ="));
    assert_eq!(text_of(&old.expect("replaced")), "let x =");
    assert_eq!(text_of(cache.get(&url).unwrap()), "let y =");
    assert!(!cache.contains_key(&"file:///b.satyh".to_string()));
}

#[test]
fn default_cache_is_empty() {
    let cache = DocumentCache::default();
    assert!(!cache.contains_key(&MATH_URL.to_string()));
}

#[test]
fn register_dependency_skips_known_urls() {
    let deps = dependencies();
    let mut cache = DocumentCache::new();
    assert!(cache.register_dependency(&deps[0], not_parsed("first")));
    // the same URL again: skipped
    assert!(!cache.register_dependency(&deps[2], not_parsed("second")));
    assert_eq!(text_of(cache.get(&MATH_URL.to_string()).unwrap()), "first");
    // a dependency whose file was not found has no URL: skipped
    assert_eq!(deps[3].url(), None);
    assert!(!cache.register_dependency(&deps[3], not_parsed("third")));
    assert!(cache.register_dependency(&deps[1], not_parsed("list")));
    assert_eq!(text_of(cache.get(&LIST_URL.to_string()).unwrap()), "list");
}

#[test]
fn pending_urls_once_each_and_not_kept() {
    let deps = dependencies();
    let mut cache = DocumentCache::new();
    assert_eq!(cache.pending_urls(&deps), vec![MATH_URL.to_string(), LIST_URL.to_string()]);
    cache.register_dependency(&deps[1], not_parsed("list"));
    assert_eq!(cache.pending_urls(&deps), vec![MATH_URL.to_string()]);
    cache.register_dependency(&deps[0], not_parsed("math"));
    assert!(cache.pending_urls(&deps).is_empty());
}

#[test]
fn next_round_keeps_loaded_files_and_names_new_urls() {
    let mut cache = DocumentCache::new();
    let main_url = "file:///proj/main.satyh".to_string();
    let main = DocumentData::from_path(MAIN, Some("/home/u"), Some("/proj/main.saty")).expect("parses");
    let mut main = main;
    main.resolve_dependencies(&vec![true, true, true, false]);
    let loaded = vec![(main_url.clone(), main), ("file:///other.satyh".to_string(), not_parsed("let x ="))];
    // the list package could not be read before
    let next = cache.next_round(loaded, &vec![LIST_URL.to_string()]);
    assert!(cache.contains_key(&main_url));
    assert_eq!(text_of(cache.get(&"file:///other.satyh".to_string()).unwrap()), "let x =");
    // math is named once, though required twice; list is left out; the import was not found
    assert_eq!(next, vec![MATH_URL.to_string()]);

    // once math is loaded, nothing more is asked for
    let math = not_parsed("let y =");
    let next = cache.next_round(vec![(MATH_URL.to_string(), math)], &vec![LIST_URL.to_string()]);
    assert!(next.is_empty());
    assert!(cache.contains_key(&MATH_URL.to_string()));
}

#[test]
fn next_round_asks_for_nothing_kept() {
    let mut cache = DocumentCache::new();
    cache.insert(MATH_URL.to_string(), not_parsed("math"));
    let mut main = DocumentData::from_path(MAIN, Some("/home/u"), Some("/proj/main.saty")).expect("parses");
    main.resolve_dependencies(&vec![true, true, true, false]);
    let next = cache.next_round(vec![("file:///proj/main.satyh".to_string(), main)], &vec![]);
    assert_eq!(next, vec![LIST_URL.to_string()]);
    assert_eq!(text_of(cache.get(&MATH_URL.to_string()).unwrap()), "math");
}
