use soup_audit::parse::{
    attribute_value, manifest_kind_of, manifest_soups, CsProj, ManifestKind, PackageJson,
    SoupSourceParseError,
};
use soup_audit::soup::Soup;
use std::collections::BTreeSet;

fn pairs(soups: &[Soup]) -> BTreeSet<(String, String)> {
    soups.iter().map(|s| (s.name.clone(), s.version.clone())).collect()
}

#[test]
fn csproj_single_dependency() {
    let content = r#"
<Project Sdk="Microsoft.NET.Sdk.Web">
    <ItemGroup>
        <PackageReference Include="Azure.Messaging.ServiceBus" Version="7.2.1" />
    </ItemGroup>
</Project>
        "#;

    let result = CsProj {}.soups(content, &serde_json::Map::new());
    assert_eq!(true, result.is_ok());
    let soups = result.unwrap();
    assert_eq!(1, soups.len());
    assert_eq!(true, soups.iter().any(|s| s.name == "Azure.Messaging.ServiceBus"
        && s.version == "7.2.1"
        && s.meta.is_empty()));
}

#[test]
fn csproj_multiple_dependencies() {
    let content = r#"
<Project Sdk="Microsoft.NET.Sdk.Web">
    <ItemGroup>
        <PackageReference Include="Azure.Messaging.ServiceBus" Version="7.2.1" />
        <PackageReference Include="Swashbuckle.AspNetCore" Version="6.3.1" />
    </ItemGroup>
</Project>
        "#;

    let result = CsProj {}.soups(content, &serde_json::Map::new());
    assert_eq!(true, result.is_ok());
    let soups = result.unwrap();
    assert_eq!(2, soups.len());
    let expected: BTreeSet<(String, String)> = vec![
        ("Azure.Messaging.ServiceBus".to_owned(), "7.2.1".to_owned()),
        ("Swashbuckle.AspNetCore".to_owned(), "6.3.1".to_owned()),
    ]
    .into_iter()
    .collect();
    assert_eq!(expected, pairs(&soups));
    assert!(soups.iter().all(|s| s.meta.is_empty()));
}

#[test]
fn no_dependencies() {
    let content = r#"
<Project Sdk="Microsoft.NET.Sdk.Web">
    <ItemGroup>
    </ItemGroup>
</Project>
        "#;

    let result = CsProj {}.soups(content, &serde_json::Map::new());
    assert_eq!(true, result.is_ok());
    let soups = result.unwrap();
    assert_eq!(0, soups.len());
}

#[test]
fn csproj_missing_version_is_an_error() {
    let content = r#"<Project><ItemGroup><PackageReference Include="Lib" /></ItemGroup></Project>"#;
    match (CsProj {}).soups(content, &serde_json::Map::new()) {
        Err(SoupSourceParseError::MissingAttribute { key }) => assert_eq!("Version", key),
        other => panic!("unexpected outcome: {:?}", other),
    }
}

#[test]
fn csproj_missing_include_is_an_error() {
    let content = r#"<Project><PackageReference Version="1.0.0"></PackageReference></Project>"#;
    match (CsProj {}).soups(content, &serde_json::Map::new()) {
        Err(SoupSourceParseError::MissingAttribute { key }) => assert_eq!("Include", key),
        other => panic!("unexpected outcome: {:?}", other),
    }
}

#[test]
fn csproj_malformed_xml_is_an_error() {
    let content = r#"<Project><ItemGroup></Project>"#;
    match (CsProj {}).soups(content, &serde_json::Map::new()) {
        Err(SoupSourceParseError::InvalidXml { .. }) => {}
        other => panic!("unexpected outcome: {:?}", other),
    }
}

#[test]
fn csproj_repeated_declaration_collapses() {
    let content = r#"<Project>
        <PackageReference Include="A" Version="1.0.0" />
        <PackageReference Include="A" Version="1.0.0" />
        <PackageReference Include="A" Version="2.0.0" />
    </Project>"#;
    let mut dm = serde_json::Map::new();
    dm.insert("risk".to_owned(), serde_json::Value::String(String::new()));
    let soups = CsProj {}.soups(content, &dm).unwrap();
    assert_eq!(2, soups.len());
    assert_eq!("1.0.0", soups[0].version);
    assert_eq!("2.0.0", soups[1].version);
    assert_eq!(dm, soups[0].meta);
}

#[test]
fn package_json_single_dependency() {
    let content = r#"{
            "dependencies": {
                "some-lib": "^1.0.0"
            }
        }"#;
    let result = PackageJson {}.soups(content, &serde_json::Map::new());
    assert_eq!(true, result.is_ok());
    let soups = result.unwrap();
    assert_eq!(1, soups.len());
    assert_eq!(true, soups.iter().any(|s| s.name == "some-lib" && s.version == "^1.0.0" && s.meta.is_empty()));
}

#[test]
fn package_json_multiple_dependencies() {
    let content = r#"{
            "dependencies": {
                "some-lib": "^1.0.0",
                "another-lib": "6.6.6"
            }
        }"#;
    let result = PackageJson {}.soups(content, &serde_json::Map::new());
    assert_eq!(true, result.is_ok());
    let soups = result.unwrap();
    assert_eq!(2, soups.len());
    let expected: BTreeSet<(String, String)> = vec![
        ("some-lib".to_owned(), "^1.0.0".to_owned()),
        ("another-lib".to_owned(), "6.6.6".to_owned()),
    ]
    .into_iter()
    .collect();
    assert_eq!(expected, pairs(&soups));
    assert!(soups.iter().all(|s| s.meta.is_empty()));
}

#[test]
fn package_json_no_dependencies() {
    for input in [
        r#"{
"dependencies": {}
    }"#,
        "{}",
        r#"{"dependencies": null, "name": "x"}"#,
    ] {
        let result = PackageJson {}.soups(input, &serde_json::Map::new());
        assert_eq!(true, result.is_ok());
        assert_eq!(0, result.unwrap().len());
    }
}

#[test]
fn package_json_fail_on_bad_json() {
    for input in [r#"{"#, "", "[]", r#"{"dependencies": 3}"#, r#"{"dependencies": {"a": 1}}"#] {
        let result = PackageJson {}.soups(input, &serde_json::Map::new());
        assert_eq!(true, result.is_err());
        assert!(matches!(result, Err(SoupSourceParseError::InvalidJson { .. })));
    }
}

#[test]
fn package_json_default_meta_is_copied() {
    let mut dm = serde_json::Map::new();
    dm.insert("note".to_owned(), serde_json::Value::String(String::new()));
    let soups = PackageJson {}.soups(r#"{"dependencies": {"a": "1"}}"#, &dm).unwrap();
    assert_eq!(dm, soups[0].meta);
}

#[test]
fn attribute_value_reads_last_occurrence() {
    let attrs = vec![
        (b"Include".to_vec(), b"first".to_vec()),
        (b"Version".to_vec(), b"1.0".to_vec()),
        (b"Include".to_vec(), b"second".to_vec()),
    ];
    assert_eq!("second", attribute_value(&attrs, "Include").unwrap());
    assert_eq!("1.0", attribute_value(&attrs, "Version").unwrap());
}

#[test]
fn attribute_value_errors() {
    let attrs = vec![(b"Include".to_vec(), vec![0xff, 0xfe])];
    match attribute_value(&attrs, "Include") {
        Err(SoupSourceParseError::InvalidUtf8 { key }) => assert_eq!("Include", key),
        other => panic!("unexpected outcome: {:?}", other),
    }
    match attribute_value(&attrs, "Version") {
        Err(SoupSourceParseError::MissingAttribute { key }) => assert_eq!("Version", key),
        other => panic!("unexpected outcome: {:?}", other),
    }
}

#[test]
fn manifest_dispatch_by_file_name() {
    assert_eq!(Some(ManifestKind::PackageJson), manifest_kind_of("package.json"));
    assert_eq!(Some(ManifestKind::CsProj), manifest_kind_of("Api.csproj"));
    assert_eq!(None, manifest_kind_of("Cargo.toml"));
    assert_eq!(None, manifest_kind_of("xpackage.json"));
    match manifest_soups("Cargo.toml", "", &serde_json::Map::new()) {
        Err(SoupSourceParseError::NoParser { file_name }) => assert_eq!("Cargo.toml", file_name),
        other => panic!("unexpected outcome: {:?}", other),
    }
    let soups = manifest_soups("package.json", r#"{"dependencies": {"a": "1"}}"#, &serde_json::Map::new()).unwrap();
    assert_eq!(1, soups.len());
}
