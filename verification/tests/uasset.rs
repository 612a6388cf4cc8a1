use riff::git::uasset::{
    derive_asset_view, derive_filediff, filter_json, filtered_json_text, is_uasset_path, render_next, AssetRender, looks_like_lfs_pointer, prerender_side,
    safe_stem, sibling_uexp, tojson_failure, uasset_tool, Config, Json,
};
use riff::git::FileDiff;

fn to_json(v: &serde_json::Value) -> Json {
    match v {
        serde_json::Value::Null => Json::Null,
        serde_json::Value::Bool(b) => Json::Bool(*b),
        serde_json::Value::Number(n) => Json::Number(n.to_string()),
        serde_json::Value::String(s) => Json::Str(s.clone()),
        serde_json::Value::Array(a) => Json::Array(a.iter().map(to_json).collect()),
        serde_json::Value::Object(m) => {
            Json::Object(m.iter().map(|(k, v)| (k.clone(), to_json(v))).collect())
        }
    }
}

fn filter_volatile(raw: &str) -> Result<String, String> {
    let v: serde_json::Value = serde_json::from_str(raw).map_err(|e| e.to_string())?;
    Ok(filtered_json_text(to_json(&v)))
}

fn cfg(path: Option<&str>) -> Config {
    Config {
        enabled: true,
        uassetgui_path: path.map(|s| s.to_string()),
        engine_version: "5.3".to_string(),
    }
}

#[test]
fn is_uasset_path_matches_uasset_and_umap() {
    assert!(is_uasset_path("Foo.uasset"));
    assert!(is_uasset_path("Foo.umap"));
    assert!(is_uasset_path("deep/dir/Bar.UASSET"));
    assert!(is_uasset_path(r"win\style\Level.Umap"));
    assert!(!is_uasset_path("Foo.uexp"));
    assert!(!is_uasset_path("notes.txt"));
    assert!(!is_uasset_path("uasset"));
}

#[test]
fn sibling_uexp_swaps_final_extension() {
    assert_eq!(sibling_uexp("Foo.uasset").as_deref(), Some("Foo.uexp"));
    assert_eq!(sibling_uexp("a/b/Level.umap").as_deref(), Some("a/b/Level.uexp"));
    assert_eq!(sibling_uexp("a.b.uasset").as_deref(), Some("a.b.uexp"));
    assert_eq!(sibling_uexp("noext"), None);
}

#[test]
fn safe_stem_sanitizes_and_falls_back() {
    assert_eq!(safe_stem("dir/My_Asset.uasset"), "My_Asset");
    assert_eq!(safe_stem(r"C:\x\Weapon-01.umap"), "Weapon-01");
    assert_eq!(safe_stem("My Asset!.uasset"), "MyAsset");
    assert_eq!(safe_stem("???.uasset"), "asset");
}

#[test]
fn looks_like_lfs_pointer_detects_spec_header() {
    assert!(looks_like_lfs_pointer(
        b"version https://git-lfs.github.com/spec/v1\noid sha256:abc\nsize 12\n"
    ));
    assert!(!looks_like_lfs_pointer(b"\x00\x01\x02 real binary asset"));
    assert!(!looks_like_lfs_pointer(b""));
}

#[test]
fn filter_volatile_keeps_only_exports_and_imports() {
    let raw = r#"{
        "$type": "UAssetAPI.UAsset, UAssetAPI",
        "NameMap": ["A", "B"],
        "PackageGuid": "{F1F9-...}",
        "Exports": [],
        "Imports": []
    }"#;
    let out = filter_volatile(raw).unwrap();
    let v: serde_json::Value = serde_json::from_str(&out).unwrap();
    let obj = v.as_object().unwrap();
    assert!(obj.contains_key("Exports"));
    assert!(obj.contains_key("Imports"));
    assert_eq!(obj.len(), 2);
}

#[test]
fn filter_volatile_strips_noise_at_every_depth() {
    let raw = r#"{
      "Exports": [
        {
          "$type": "UAssetAPI.ExportTypes.NormalExport, UAssetAPI",
          "ObjectName": "Script",
          "SerialOffset": 1382,
          "SerialSize": 41,
          "OuterIndex": 0,
          "ObjectFlags": "RF_Public",
          "PackageGuid": "{0000}",
          "Data": [
            {
              "$type": "UAssetAPI.PropertyTypes.Objects.ObjectPropertyData, UAssetAPI",
              "Name": "AssetImportData",
              "ArrayIndex": 0,
              "PropertyGuid": null,
              "Value": 1
            }
          ]
        }
      ],
      "Imports": []
    }"#;
    let out = filter_volatile(raw).unwrap();
    assert!(out.contains("\"ObjectName\""));
    assert!(out.contains("Script"));
    assert!(out.contains("\"Value\""));
    for noise in [
        "$type",
        "SerialOffset",
        "SerialSize",
        "OuterIndex",
        "ObjectFlags",
        "PackageGuid",
        "ArrayIndex",
        "PropertyGuid",
    ] {
        assert!(!out.contains(noise), "noise key `{noise}` should be stripped");
    }
}

#[test]
fn filter_volatile_is_deterministic() {
    let raw = r#"{"Imports":[],"Exports":[{"ObjectName":"Z","Data":[]}]}"#;
    assert_eq!(filter_volatile(raw).unwrap(), filter_volatile(raw).unwrap());
}

#[test]
fn filter_volatile_passes_through_non_object_root() {
    let raw = r#"[{"$type":"X","keep":1}]"#;
    let out = filter_volatile(raw).unwrap();
    assert!(out.contains("keep"));
    assert!(!out.contains("$type"));
}

// ---- own tests ----

#[test]
fn filter_json_keeps_sections_in_order_and_first_occurrence() {
    let v = Json::Object(vec![
        ("Imports".to_string(), Json::Array(vec![])),
        ("Other".to_string(), Json::Null),
        ("Exports".to_string(), Json::Bool(true)),
    ]);
    let out = filter_json(v);
    assert_eq!(
        out,
        Json::Object(vec![
            ("Exports".to_string(), Json::Bool(true)),
            ("Imports".to_string(), Json::Array(vec![])),
        ])
    );
    assert_eq!(filter_json(Json::Object(vec![])), Json::Object(vec![]));
    assert_eq!(filter_json(Json::Str("x".into())), Json::Str("x".into()));
}

#[test]
fn missing_tool_note() {
    let d = derive_filediff(&cfg(Some("   ")), Ok(String::new()), Ok(String::new()), 1, 2);
    match d {
        FileDiff::Binary { old_size, new_size, note } => {
            assert_eq!((old_size, new_size), (1, 2));
            assert_eq!(note.as_deref(), Some("Set the UAssetGUI path in settings to preview Unreal assets."));
        }
        other => panic!("unexpected {other:?}"),
    }
    assert!(uasset_tool(&cfg(None)).is_none());
    assert_eq!(uasset_tool(&cfg(Some(" C:/tool.exe "))).as_deref(), Some(" C:/tool.exe "));
}

#[test]
fn side_errors_become_notes_old_first() {
    let d = derive_filediff(&cfg(Some("t")), Err("old bad".into()), Err("new bad".into()), 3, 4);
    assert!(matches!(d, FileDiff::Binary { note: Some(ref n), .. } if n == "old bad"));
    let d = derive_filediff(&cfg(Some("t")), Ok("{}".into()), Err("new bad".into()), 3, 4);
    assert!(matches!(d, FileDiff::Binary { note: Some(ref n), .. } if n == "new bad"));
}

#[test]
fn derived_view_is_labelled_text() {
    let d = derive_filediff(&cfg(Some("t")), Ok("{\r\n}".into()), Ok("{\n \"a\": 1\n}".into()), 10, 20);
    match d {
        FileDiff::Text { old_content, new_content, old_size, new_size, changes, derived_label, ue_version } => {
            assert_eq!(old_content, "{\n}");
            assert_eq!(new_content, "{\n \"a\": 1\n}");
            assert_eq!((old_size, new_size), (10, 20));
            assert!(!changes.is_empty());
            assert_eq!(derived_label.as_deref(), Some("Property view · UE 5.3"));
            assert_eq!(ue_version.as_deref(), Some("5.3"));
        }
        other => panic!("unexpected {other:?}"),
    }
}

#[test]
fn prerender_shortcuts() {
    assert_eq!(prerender_side(b""), Some(Ok(String::new())));
    assert_eq!(
        prerender_side(b"version https://git-lfs.github.com/spec/v1\n"),
        Some(Err("Git LFS object isn't available locally — run `git lfs pull` and retry.".to_string()))
    );
    assert_eq!(prerender_side(b"\x00real"), None);
}

#[test]
fn tojson_failure_prefers_stderr() {
    assert_eq!(tojson_failure("5.3", b"  boom \n", b"out"), "UAssetGUI tojson failed (UE 5.3): boom");
    assert_eq!(tojson_failure("4.27", b"", b" out "), "UAssetGUI tojson failed (UE 4.27): out");
}

#[test]
fn filter_volatile_rejects_malformed_json() {
    assert!(filter_volatile("{ not valid json").is_err());
}

#[test]
fn sibling_uexp_looks_only_at_the_file_name() {
    assert_eq!(sibling_uexp("v1.2/noext"), None);
    assert_eq!(sibling_uexp("Content\\v1.2\\noext"), None);
    assert_eq!(sibling_uexp("v1.2/Maps/A.uasset").as_deref(), Some("v1.2/Maps/A.uexp"));
    assert_eq!(sibling_uexp("noext"), None);
}

#[test]
fn empty_asset_sides_give_an_empty_labelled_view_without_the_tool() {
    let c = Config { enabled: true, uassetgui_path: Some("UAssetGUI.exe".into()), engine_version: "5.3".into() };
    assert_eq!(render_next(&c, b"", b"", &None, &None), AssetRender::Done);
    match derive_asset_view(&c, b"", b"", None, None, 0, 0) {
        FileDiff::Text { old_content, new_content, old_size: 0, new_size: 0, changes, derived_label, ue_version } => {
            assert_eq!((old_content.as_str(), new_content.as_str()), ("", ""));
            assert!(changes.is_empty());
            assert_eq!(derived_label.as_deref(), Some("Property view · UE 5.3"));
            assert_eq!(ue_version.as_deref(), Some("5.3"));
        }
        other => panic!("unexpected {other:?}"),
    }
}

#[test]
fn asset_renders_old_side_first_and_stops_on_failure() {
    let c = Config { enabled: true, uassetgui_path: Some("UAssetGUI.exe".into()), engine_version: "5.3".into() };
    let asset = b"\xc1\x83\x2a\x9e real asset";
    assert_eq!(render_next(&c, asset, asset, &None, &None), AssetRender::Old);
    let failed = Some(Err("UAssetGUI tojson failed (UE 5.3): boom".to_string()));
    assert_eq!(render_next(&c, asset, asset, &failed, &None), AssetRender::Done);
    let ok = Some(Ok("{}".to_string()));
    assert_eq!(render_next(&c, asset, asset, &ok, &None), AssetRender::New);
    assert_eq!(render_next(&c, asset, asset, &ok, &ok), AssetRender::Done);
    match derive_asset_view(&c, asset, asset, failed, None, 9, 9) {
        FileDiff::Binary { note, .. } => assert_eq!(note.as_deref(), Some("UAssetGUI tojson failed (UE 5.3): boom")),
        other => panic!("unexpected {other:?}"),
    }
    // An unsmudged LFS pointer never reaches the tool.
    let lfs = b"version https://git-lfs.github.com/spec/v1\noid sha256:abc\n";
    assert_eq!(render_next(&c, lfs, asset, &None, &None), AssetRender::Done);
    match derive_asset_view(&c, lfs, asset, None, None, 60, 9) {
        FileDiff::Binary { note: Some(n), .. } => assert!(n.contains("git lfs pull")),
        other => panic!("unexpected {other:?}"),
    }
    // Without a tool nothing runs.
    let none = Config { enabled: true, uassetgui_path: None, engine_version: "5.3".into() };
    assert_eq!(render_next(&none, asset, asset, &None, &None), AssetRender::Done);
}

#[test]
fn filtered_text_is_pretty_and_key_ordered() {
    let j = Json::Object(vec![
        ("Imports".into(), Json::Array(vec![])),
        ("Exports".into(), Json::Array(vec![Json::Object(vec![
            ("b".into(), Json::Number("1".into())),
            ("a".into(), Json::Str("x".into())),
            ("SerialSize".into(), Json::Number("9".into())),
        ])])),
        ("NameMap".into(), Json::Null),
    ]);
    let text = filtered_json_text(j);
    assert_eq!(text, "{\n  \"Exports\": [\n    {\n      \"a\": \"x\",\n      \"b\": 1\n    }\n  ],\n  \"Imports\": []\n}");
}
