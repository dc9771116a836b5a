use rules_rust_tools::json::{parse_json, Tree};
use rules_rust_tools::label_injection::{
    apply_mapping_to_value, extract_global_mapping, into_mapping, is_repo_name_character,
    replace_all, replace_at_label_boundary, rewrite,
};
use rules_rust_tools::string_map::StringMap;

fn json(text: &str) -> Tree {
    parse_json(text).unwrap()
}

fn mapping_from(entries: &[(&str, &str)]) -> StringMap {
    StringMap::from_pairs(
        entries.iter().map(|(k, v)| (k.to_string(), v.to_string())).collect(),
    )
}

fn texts_in(value: &Tree, key: &str) -> Vec<String> {
    match value.get(key) {
        Some(Tree::Array(items)) => items
            .iter()
            .map(|item| match item {
                Tree::Text(s) => s.clone(),
                other => panic!("not a text: {other:?}"),
            })
            .collect(),
        other => panic!("not a list: {other:?}"),
    }
}

/// The repository and the target of a label in the root package of a canonical
/// repository.
fn repository_and_target(label: &str) -> (String, String) {
    let (repository, target) = label.split_once("//:").expect("a label of a root package");
    assert!(repository.starts_with("@@") && !repository[2..].contains('@'), "{label}");
    assert!(!target.is_empty() && !target.contains(['/', ':', '@']), "{label}");
    (repository.to_string(), target.to_string())
}

#[test]
fn returns_empty_when_no_annotations() {
    let mut input = json(r#"{"other": 1}"#);
    let mapping = extract_global_mapping(&mut input).unwrap();
    assert!(mapping.is_empty());
    assert_eq!(input, json(r#"{"other": 1}"#));
}

#[test]
fn returns_empty_when_no_annotation_declares_injections() {
    let mut input = json(r#"{
        "annotations": {
            "tokio 1.0.0": {"deps": ["@crate_index//:foo"]}
        }
    }"#);
    let mapping = extract_global_mapping(&mut input).unwrap();
    assert!(mapping.is_empty());
    assert_eq!(
        input,
        json(r#"{"annotations": {"tokio 1.0.0": {"deps": ["@crate_index//:foo"]}}}"#),
    );
}

#[test]
fn strips_empty_label_injections_field() {
    let mut input = json(r#"{
        "annotations": {
            "tokio 1.0.0": {
                "label_injections": {},
                "deps": ["@crate_index//:foo"]
            }
        }
    }"#);
    let mapping = extract_global_mapping(&mut input).unwrap();
    assert!(mapping.is_empty());
    assert_eq!(
        input,
        json(r#"{"annotations": {"tokio 1.0.0": {"deps": ["@crate_index//:foo"]}}}"#),
    );
}

#[test]
fn merges_compatible_per_annotation_maps_into_one_global_map() {
    let mut input = json(r#"{
        "annotations": {
            "tokio 1.0.0": {
                "label_injections": {"@@xz~v1.2.3": "@xz"},
                "deps": ["@xz//:lzma"]
            },
            "rustls 0.21.0": {
                "label_injections": {"@@xz~v1.2.3": "@xz"},
                "deps": ["@xz//:liblzma"]
            }
        }
    }"#);
    let mapping = extract_global_mapping(&mut input).unwrap();
    assert_eq!(
        mapping,
        mapping_from(&[("@@xz~v1.2.3", "@xz")]),
    );
    assert_eq!(
        input,
        json(r#"{
            "annotations": {
                "tokio 1.0.0": {"deps": ["@xz//:lzma"]},
                "rustls 0.21.0": {"deps": ["@xz//:liblzma"]}
            }
        }"#),
    );
}

#[test]
fn rejects_two_annotations_pointing_one_apparent_at_different_canonicals() {
    let mut input = json(r#"{
        "annotations": {
            "tokio 1.0.0": {
                "label_injections": {"@@openssl+v3.5.5": "@openssl"},
                "deps": ["@openssl//:install"]
            },
            "rustls 0.21.0": {
                "label_injections": {"@@openssl+v3.3.1": "@openssl"},
                "deps": ["@openssl//:install"]
            }
        }
    }"#);
    let err = extract_global_mapping(&mut input).unwrap_err();
    let msg = err.message();
    assert!(msg.contains("conflicting `label_injections`"), "{msg}");
    assert!(msg.contains("@openssl"), "{msg}");
}

#[test]
fn noop_when_mapping_empty() {
    let mut v = json(r#"{"deps": ["@openssl//:install"]}"#);
    apply_mapping_to_value(&mut v, &StringMap::new());
    assert_eq!(v, json(r#"{"deps": ["@openssl//:install"]}"#));
}

#[test]
fn substitutes_in_list_strings() {
    let mut v = json(r#"["@xz//:lzma"]"#);
    let mapping = mapping_from(&[("@@xz~v1.2.3", "@xz")]);
    apply_mapping_to_value(&mut v, &mapping);
    assert_eq!(v, json(r#"["@@xz~v1.2.3//:lzma"]"#));
}

#[test]
fn substitutes_in_dict_values() {
    let mut v = json(r#"{"LZMA_BIN": "$(execpath @xz//:lzma)"}"#);
    let mapping = mapping_from(&[("@@xz~v1.2.3", "@xz")]);
    apply_mapping_to_value(&mut v, &mapping);
    assert_eq!(v, json(r#"{"LZMA_BIN": "$(execpath @@xz~v1.2.3//:lzma)"}"#));
}

#[test]
fn substitutes_in_dict_keys() {
    let mut v = json(r#"{"@xz//:lzma": "lzma_alias"}"#);
    let mapping = mapping_from(&[("@@xz~v1.2.3", "@xz")]);
    apply_mapping_to_value(&mut v, &mapping);
    assert_eq!(v, json(r#"{"@@xz~v1.2.3//:lzma": "lzma_alias"}"#));
}

#[test]
fn substitutes_in_long_string_payloads() {
    let mut v = json(r#""rust_library(deps = [\"@xz//:lzma\"])""#);
    let mapping = mapping_from(&[("@@xz~v1.2.3", "@xz")]);
    apply_mapping_to_value(&mut v, &mapping);
    assert_eq!(v, json(r#""rust_library(deps = [\"@@xz~v1.2.3//:lzma\"])""#));
}

#[test]
fn substitutes_under_deep_nesting_with_selects() {
    let mut v = json(r#"{
        "build_script_data": {
            "common": ["@xz//:lzma"],
            "selects": {
                "@platforms//os:linux": ["@xz//:liblzma"]
            }
        },
        "build_script_env": {
            "common": {"LZMA_BIN": "$(execpath @xz//:lzma)"},
            "selects": {
                "@platforms//os:linux": {
                    "LZMA_LIB": "$(rlocationpath @xz//:liblzma)"
                }
            }
        }
    }"#);
    let mapping = mapping_from(&[("@@xz~v1.2.3", "@xz")]);
    apply_mapping_to_value(&mut v, &mapping);
    assert_eq!(
        v,
        json(r#"{
            "build_script_data": {
                "common": ["@@xz~v1.2.3//:lzma"],
                "selects": {
                    "@platforms//os:linux": ["@@xz~v1.2.3//:liblzma"]
                }
            },
            "build_script_env": {
                "common": {"LZMA_BIN": "$(execpath @@xz~v1.2.3//:lzma)"},
                "selects": {
                    "@platforms//os:linux": {
                        "LZMA_LIB": "$(rlocationpath @@xz~v1.2.3//:liblzma)"
                    }
                }
            }
        }"#),
    );
}

#[test]
fn applies_multiple_mapping_entries_in_one_pass() {
    let mut v = json(r#"["@xz//:lzma", "@bzip2//:bz2"]"#);
    let mapping = mapping_from(&[
        ("@@xz~v1.2.3", "@xz"),
        ("@@bzip2~v0.5", "@bzip2"),
    ]);
    apply_mapping_to_value(&mut v, &mapping);
    assert_eq!(v, json(r#"["@@xz~v1.2.3//:lzma", "@@bzip2~v0.5//:bz2"]"#));
}

#[test]
fn rewrites_context_like_payload() {
    let mut context = json(r#"{
        "crates": {
            "openssl-sys 0.9.116": {
                "common_attrs": {
                    "build_script_data": ["@openssl//:install"],
                    "build_script_env": {
                        "common": {"OPENSSL_DIR": "$(execpath @openssl//:install)"}
                    }
                }
            }
        }
    }"#);
    let mapping = mapping_from(&[("@@openssl+v3.5.5", "@openssl")]);
    apply_mapping_to_value(&mut context, &mapping);
    assert_eq!(
        context,
        json(r#"{
            "crates": {
                "openssl-sys 0.9.116": {
                    "common_attrs": {
                        "build_script_data": ["@@openssl+v3.5.5//:install"],
                        "build_script_env": {
                            "common": {"OPENSSL_DIR": "$(execpath @@openssl+v3.5.5//:install)"}
                        }
                    }
                }
            }
        }"#),
    );
}

#[test]
fn does_not_mangle_at_signs_outside_repo_boundary() {
    let mut v = json(r#"{
        "override_targets": {
            "lib": "@@rules_rust++crate+crate_index//:heapless"
        },
        "deps": ["@//pkg:tgt"]
    }"#);
    let mapping = mapping_from(&[("@@", "@")]);
    apply_mapping_to_value(&mut v, &mapping);
    assert_eq!(
        v,
        json(r#"{
            "override_targets": {
                "lib": "@@rules_rust++crate+crate_index//:heapless"
            },
            "deps": ["@@//pkg:tgt"]
        }"#),
        "anchored substitution must rewrite `@//pkg:tgt` but leave the \
         unrelated `@@…//:` canonical untouched",
    );
}

#[test]
fn substitutes_bare_repo_shorthand_in_location_expansion() {
    let mut v = json(r#"{
        "build_script_env": {
            "common": {
                "CURL_BIN": "$(execpath @curl)",
                "CURL_LIB": "$(execpath @curl//:lib)"
            }
        },
        "deps": [
            "@curl",
            "@curl//:curl",
            "@@curl+v8.0.0//:curl",
            "@curlx//:foo"
        ]
    }"#);
    let mapping = mapping_from(&[("@@curl+v8.0.0", "@curl")]);
    apply_mapping_to_value(&mut v, &mapping);
    assert_eq!(
        v,
        json(r#"{
            "build_script_env": {
                "common": {
                    "CURL_BIN": "$(execpath @@curl+v8.0.0//:curl)",
                    "CURL_LIB": "$(execpath @@curl+v8.0.0//:lib)"
                }
            },
            "deps": [
                "@@curl+v8.0.0//:curl",
                "@@curl+v8.0.0//:curl",
                "@@curl+v8.0.0//:curl",
                "@curlx//:foo"
            ]
        }"#),
    );
}

#[test]
fn does_not_corrupt_canonical_when_apparent_is_its_prefix() {
    let mut v = json(r#"{
        "build_script_data": [
            "@rules_rust_pyo3//:current_pyo3_toolchain"
        ],
        "build_script_toolchains": [
            "@@rules_rust_pyo3+//:current_pyo3_toolchain"
        ]
    }"#);
    let mapping = mapping_from(&[(
        "@@rules_rust_pyo3+",
        "@rules_rust_pyo3",
    )]);
    apply_mapping_to_value(&mut v, &mapping);
    assert_eq!(
        v,
        json(r#"{
            "build_script_data": [
                "@@rules_rust_pyo3+//:current_pyo3_toolchain"
            ],
            "build_script_toolchains": [
                "@@rules_rust_pyo3+//:current_pyo3_toolchain"
            ]
        }"#),
        "apparent in the apparent-form field must rewrite to canonical; \
         the already-canonical field must be left untouched",
    );

    for key in ["build_script_data", "build_script_toolchains"] {
        for label in texts_in(&v, key) {
            assert_eq!(
                repository_and_target(&label),
                ("@@rules_rust_pyo3+".to_string(), "current_pyo3_toolchain".to_string())
            );
        }
    }
}

#[test]
fn expands_bare_repo_shorthand_to_apparent_target() {
    let mut v = json(r#"{
        "deps": ["@native_lib"]
    }"#);
    let mapping = mapping_from(&[("@@native_lib+", "@native_lib")]);
    apply_mapping_to_value(&mut v, &mapping);
    assert_eq!(
        v,
        json(r#"{
            "deps": ["@@native_lib+//:native_lib"]
        }"#),
    );

    assert_eq!(
        repository_and_target(&texts_in(&v, "deps")[0]),
        ("@@native_lib+".to_string(), "native_lib".to_string())
    );
}

#[test]
fn mapping_of_something_else_is_empty() {
    assert!(into_mapping(&json("[1, 2]")).is_empty());
    assert_eq!(
        into_mapping(&json(r#"{"@@a": "@a", "@@b": 3, "@@c": ""}"#)),
        mapping_from(&[("@@a", "@a")]),
    );
}

#[test]
fn extraction_leaves_nothing_to_extract() {
    let mut config = json(
        r#"{"annotations": {"a": {"label_injections": {"@@x+": "@x"}, "deps": ["@x"]}, "b": 7}}"#,
    );
    let first = extract_global_mapping(&mut config).unwrap();
    assert_eq!(first, mapping_from(&[("@@x+", "@x")]));
    let stripped = config.copied();
    let second = extract_global_mapping(&mut config).unwrap();
    assert!(second.is_empty());
    assert_eq!(config, stripped);
}

#[test]
fn rewriting_twice_is_rewriting_once() {
    let mapping = mapping_from(&[("@@x+", "@x"), ("@@y+1", "@y")]);
    let mut once = json(r#"{"@x": ["@x//a:b", "@y", "$(execpath @x)", "@xy//:z", "@@x+//:x"]}"#);
    rewrite(&mut once, &mapping);
    assert_eq!(
        once,
        json(
            r#"{"@@x+//:x": ["@@x+//a:b", "@@y+1//:y", "$(execpath @@x+//:x)", "@xy//:z", "@@x+//:x"]}"#
        ),
    );
    let mut twice = once.copied();
    rewrite(&mut twice, &mapping);
    assert_eq!(twice, once);
}

#[test]
fn a_prefix_is_replaced_only_where_it_is_whole() {
    assert_eq!(replace_at_label_boundary("@x//:a @xx//:a", "@x", "@@x+"), "@@x+//:a @xx//:a");
    assert_eq!(replace_at_label_boundary("nothing here", "@x", "@@x+"), "nothing here");
    assert_eq!(replace_at_label_boundary("@@x//:a", "@x", "@@x+"), "@@x//:a");
    assert_eq!(replace_at_label_boundary("@x-y @x.", "@x", "@@x+"), "@x-y @x.");
    assert_eq!(replace_at_label_boundary("(@x)", "@x", "@@x+"), "(@@x+//:x)");
}

#[test]
fn entries_are_replaced_in_the_order_of_their_canonicals() {
    let mapping = mapping_from(&[("@@b", "@a"), ("@@a", "@b")]);
    assert_eq!(replace_all("@a//x @b//x", &mapping), "@@b//x @@a//x");
}

#[test]
fn characters_of_repository_names() {
    for c in ['a', 'Z', '0', '_', '-', '.', '+', '~'] {
        assert!(is_repo_name_character(c), "{c}");
    }
    for c in ['/', ':', '@', ' ', ')', '\u{e9}'] {
        assert!(!is_repo_name_character(c), "{c}");
    }
}

#[test]
fn conflict_names_the_prefix_and_both_repositories() {
    let mut config = json(
        r#"{"annotations": {
            "a": {"label_injections": {"@@x+1": "@x"}},
            "b": {"label_injections": {"@@x+2": "@x"}}
        }}"#,
    );
    let err = extract_global_mapping(&mut config).unwrap_err();
    assert_eq!(err.apparent, "@x");
    assert_eq!(err.existing, "@@x+1");
    assert_eq!(err.canonical, "@@x+2");
    assert!(err
        .message()
        .starts_with("conflicting `label_injections` across annotations for apparent label `@x`: `@@x+1` vs `@@x+2`."));
}
