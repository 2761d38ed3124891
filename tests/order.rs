use soup_audit::order::{sort_contexts, sort_soups};
use soup_audit::soup::{Soup, SoupContext};

fn soup(name: &str, version: &str) -> Soup {
    Soup { name: name.to_owned(), version: version.to_owned(), meta: serde_json::Map::new() }
}

#[test]
fn components_sorted_by_name_then_version() {
    let sorted = sort_soups(vec![soup("b", "1"), soup("a", "2"), soup("ab", "0"), soup("a", "10"), soup("B", "9")]);
    let got: Vec<(String, String)> = sorted.into_iter().map(|s| (s.name, s.version)).collect();
    let want: Vec<(String, String)> = vec![("B", "9"), ("a", "10"), ("a", "2"), ("ab", "0"), ("b", "1")]
        .into_iter()
        .map(|(n, v)| (n.to_owned(), v.to_owned()))
        .collect();
    assert_eq!(want, got);
}

#[test]
fn snapshots_sorted_by_path() {
    let ctx = |p: &str| SoupContext { path: p.to_owned(), soups: vec![] };
    let sorted = sort_contexts(vec![ctx("src/package.json"), ctx("Api.csproj"), ctx("app/package.json")]);
    let paths: Vec<String> = sorted.into_iter().map(|c| c.path).collect();
    assert_eq!(vec!["Api.csproj", "app/package.json", "src/package.json"], paths);
}

#[test]
fn sorting_empty_and_equal_keys() {
    assert_eq!(0, sort_soups(vec![]).len());
    let sorted = sort_soups(vec![soup("x", "1"), soup("x", "1")]);
    assert_eq!(2, sorted.len());
}
