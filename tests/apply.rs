use soup_audit::meta::{combine_meta, Metadata};
use soup_audit::soup::{merge_soups, Soup, SoupContexts};
use serde_json::Value;

fn meta(key_values: Vec<(&str, &str)>) -> Metadata {
    let mut m = serde_json::Map::new();
    for (key, value) in key_values {
        m.insert(key.to_owned(), Value::String(value.to_owned()));
    }
    m
}

fn soup(name: &str, version: &str, m: Metadata) -> Soup {
    Soup { name: name.to_owned(), version: version.to_owned(), meta: m }
}

fn create_contexts(path: &str, soups: Vec<Soup>) -> SoupContexts {
    let mut c = SoupContexts::empty();
    c.insert(path.to_owned(), soups);
    c
}

fn empty_contexts() -> SoupContexts {
    SoupContexts::empty()
}

#[test]
fn combine_add_context() {
    let mut base = empty_contexts();
    let other = create_contexts("src/package.json", vec![soup("some-dep", "1.0.0", meta(vec![]))]);

    base.apply(other);
    assert_eq!(1, base.len());
    assert_eq!(true, base.get("src/package.json").is_some());
}

#[test]
fn combine_remove_context() {
    let mut base = create_contexts("src/package.json", vec![soup("some-dep", "1.0.0", meta(vec![]))]);
    let other = empty_contexts();

    base.apply(other);
    assert_eq!(true, base.len() == 0);
}

#[test]
fn combine_added_soup() {
    let mut base = create_contexts("src/package.json", vec![soup("some-dep", "1.0.0", meta(vec![]))]);
    let other = create_contexts(
        "src/package.json",
        vec![soup("some-dep", "1.0.0", meta(vec![])), soup("some-other-dep", "1.0.0", meta(vec![]))],
    );

    base.apply(other);
    assert_eq!(1, base.len());
    let soups = base.get("src/package.json").unwrap();
    assert_eq!(2, soups.len());
}

#[test]
fn combine_removed_soup() {
    let mut base = create_contexts(
        "src/package.json",
        vec![soup("some-dep", "1.0.0", meta(vec![])), soup("some-other-dep", "1.0.0", meta(vec![]))],
    );
    let other = create_contexts("src/package.json", vec![soup("some-dep", "1.0.0", meta(vec![]))]);

    base.apply(other);
    assert_eq!(1, base.len());
    let soups = base.get("src/package.json").unwrap();
    assert_eq!(1, soups.len());
}

#[test]
fn no_update_preserves_meta() {
    let mut base =
        create_contexts("src/package.json", vec![soup("some-dep", "1.0.0", meta(vec![("some-meta", "some-value")]))]);
    let other = create_contexts("src/package.json", vec![soup("some-dep", "1.0.0", meta(vec![]))]);

    base.apply(other);
    assert_eq!(1, base.len());
    let soups = base.get("src/package.json").unwrap();
    let soup = soups.iter().find(|s| s.name == "some-dep").unwrap();
    assert_eq!("some-dep", soup.name);
    assert_eq!("1.0.0", soup.version);
    assert_eq!(meta(vec![("some-meta", "some-value")]), soup.meta);
}

#[test]
fn update_soup_version_preserves_meta() {
    let mut base =
        create_contexts("src/package.json", vec![soup("some-dep", "1.0.0", meta(vec![("some-meta", "some-value")]))]);
    let other = create_contexts("src/package.json", vec![soup("some-dep", "1.2.0", meta(vec![]))]);

    base.apply(other);
    assert_eq!(1, base.len());
    let soups = base.get("src/package.json").unwrap();
    let soup = soups.iter().find(|s| s.name == "some-dep").unwrap();
    assert_eq!("some-dep", soup.name);
    assert_eq!("1.2.0", soup.version);
    assert_eq!(meta(vec![("some-meta", "some-value")]), soup.meta);
}

#[test]
fn append_meta_from_other() {
    let mut base =
        create_contexts("src/package.json", vec![soup("some-dep", "1.0.0", meta(vec![("some-meta", "some-value")]))]);
    let other = create_contexts("src/package.json", vec![soup("some-dep", "1.0.0", meta(vec![("requirements", "")]))]);
    base.apply(other);
    assert_eq!(1, base.len());
    let soups = base.get("src/package.json").unwrap();
    let soup = soups.iter().find(|s| s.name == "some-dep").unwrap();
    assert_eq!("some-dep", soup.name);
    assert_eq!("1.0.0", soup.version);
    assert_eq!(meta(vec![("some-meta", "some-value"), ("requirements", "")]), soup.meta);
}

#[test]
fn append_meta_from_other_no_overwrite() {
    let mut base = create_contexts(
        "src/package.json",
        vec![soup("some-dep", "1.0.0", meta(vec![("requirements", "a-requirement")]))],
    );
    let other = create_contexts("src/package.json", vec![soup("some-dep", "1.0.0", meta(vec![("requirements", "")]))]);

    base.apply(other);
    assert_eq!(1, base.len());
    let soups = base.get("src/package.json").unwrap();
    let soup = soups.iter().find(|s| s.name == "some-dep").unwrap();
    assert_eq!("some-dep", soup.name);
    assert_eq!("1.0.0", soup.version);
    assert_eq!(meta(vec![("requirements", "a-requirement")]), soup.meta);
}

fn sample_report() -> SoupContexts {
    let mut r = SoupContexts::empty();
    r.insert(
        "a/package.json".to_owned(),
        vec![soup("x", "1.0.0", meta(vec![("note", "approved")])), soup("y", "2.0.0", meta(vec![]))],
    );
    r.insert("b/Api.csproj".to_owned(), vec![soup("z", "3.1.0", meta(vec![("risk", "low")]))]);
    r
}

#[test]
fn reapplying_a_report_changes_nothing() {
    let mut r = sample_report();
    r.apply(sample_report());
    let expected = sample_report().into_vec();
    let got = r.into_vec();
    assert_eq!(expected.len(), got.len());
    for (e, g) in expected.iter().zip(got.iter()) {
        assert_eq!(e.path, g.path);
        assert_eq!(e.soups.len(), g.soups.len());
        for (es, gs) in e.soups.iter().zip(g.soups.iter()) {
            assert_eq!(es.name, gs.name);
            assert_eq!(es.version, gs.version);
            assert_eq!(es.meta, gs.meta);
        }
    }
}

#[test]
fn base_metadata_has_priority() {
    let merged = combine_meta(meta(vec![("note", "approved")]), meta(vec![("note", ""), ("risk", "")]));
    assert_eq!(meta(vec![("note", "approved"), ("risk", "")]), merged);
}

#[test]
fn stale_component_removed_and_metadata_kept() {
    let base = vec![soup("A", "1.0.0", meta(vec![("note", "ok")])), soup("B", "1.0.0", meta(vec![]))];
    let incoming = vec![soup("A", "1.0.0", meta(vec![]))];
    let merged = merge_soups(&base, &incoming);
    assert_eq!(1, merged.len());
    assert_eq!("A", merged[0].name);
    assert_eq!(meta(vec![("note", "ok")]), merged[0].meta);
}

#[test]
fn unscanned_paths_are_pruned() {
    let mut base = SoupContexts::empty();
    base.insert("first/package.json".to_owned(), vec![]);
    base.insert("second/package.json".to_owned(), vec![]);
    base.apply(create_contexts("first/package.json", vec![]));
    assert_eq!(1, base.len());
    assert!(base.get("first/package.json").is_some());
    assert!(base.get("second/package.json").is_none());
}

#[test]
fn version_update_keeps_metadata() {
    let base = vec![soup("lib", "1.0.0", meta(vec![("note", "ok")]))];
    let incoming = vec![soup("lib", "1.2.0", meta(vec![]))];
    let merged = merge_soups(&base, &incoming);
    assert_eq!(1, merged.len());
    assert_eq!("lib", merged[0].name);
    assert_eq!("1.2.0", merged[0].version);
    assert_eq!(meta(vec![("note", "ok")]), merged[0].meta);
}

#[test]
fn fresh_component_added_unchanged() {
    let base = vec![soup("old", "1.0.0", meta(vec![("note", "ok")]))];
    let incoming = vec![soup("old", "1.0.0", meta(vec![])), soup("new", "0.1.0", meta(vec![("review", "")]))];
    let merged = merge_soups(&base, &incoming);
    assert_eq!(2, merged.len());
    assert_eq!("new", merged[1].name);
    assert_eq!("0.1.0", merged[1].version);
    assert_eq!(meta(vec![("review", "")]), merged[1].meta);
}

#[test]
fn fresh_path_added_as_scanned() {
    let mut base = create_contexts("old/package.json", vec![soup("a", "1", meta(vec![("k", "v")]))]);
    base.apply(create_contexts("new/package.json", vec![soup("a", "2", meta(vec![("d", "")]))]));
    assert_eq!(1, base.len());
    let soups = base.get("new/package.json").unwrap();
    assert_eq!("2", soups[0].version);
    assert_eq!(meta(vec![("d", "")]), soups[0].meta);
}

#[test]
fn repeated_scanned_name_uses_base_once() {
    let base = vec![soup("a", "1", meta(vec![("k", "first")])), soup("a", "1", meta(vec![("k", "last")]))];
    let incoming = vec![soup("a", "2", meta(vec![])), soup("a", "3", meta(vec![("n", "")]))];
    let merged = merge_soups(&base, &incoming);
    assert_eq!(meta(vec![("k", "last")]), merged[0].meta);
    assert_eq!(meta(vec![("n", "")]), merged[1].meta);
}

#[test]
fn insert_replaces_a_known_path() {
    let mut r = create_contexts("p", vec![soup("a", "1", meta(vec![]))]);
    r.insert("p".to_owned(), vec![]);
    assert_eq!(1, r.len());
    assert_eq!(0, r.get("p").unwrap().len());
    assert_eq!(1, r.vec().len());
}
