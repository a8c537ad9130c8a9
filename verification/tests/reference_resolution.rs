use law_notes::normalize::normalize_law_ref_title;
use law_notes::dictionary::{NameDictionary, DictPair, LawDictEntry, resolve_law_title_from_fragment};
use law_notes::candidate::{
    LawCandidate, LawsResponse, LawsResponseLaw, LawsLawInfo, LawsRevisionInfo,
    parse_law_candidates,
};
use law_notes::extract::extract_external_references;

/// Ambiguous self-references and leaked prefixes are filtered out.
#[test]
fn normalize_law_ref_title_filters_ambiguous_labels() {
    assert_eq!(normalize_law_ref_title("旧特許法").as_deref(), Some("特許法"));
    assert_eq!(
        normalize_law_ref_title("この法律による改正後の特許法").as_deref(),
        Some("特許法")
    );
    assert_eq!(normalize_law_ref_title("三第一条中特許法").as_deref(), Some("特許法"));
    assert_eq!(normalize_law_ref_title("規定中特許法").as_deref(), Some("特許法"));
    assert_eq!(normalize_law_ref_title("同法"), None);
    assert_eq!(normalize_law_ref_title("この法律"), None);
}

/// Stripping an amendment qualifier lands on the same token as the bare
/// name.
#[test]
fn normalize_is_stable_under_qualifier_stripping() {
    let bare = normalize_law_ref_title("特許法");
    let former = normalize_law_ref_title("旧特許法");
    assert_eq!(bare.as_deref(), Some("特許法"));
    assert_eq!(former, bare);
}

/// Stripping can unmask a bare anaphoric form, which is then rejected.
#[test]
fn normalize_rejects_unmasked_anaphora_and_short_tokens() {
    assert_eq!(normalize_law_ref_title("新同法"), None);
    assert_eq!(normalize_law_ref_title("第2法"), None);
    assert_eq!(normalize_law_ref_title("（特許法）").as_deref(), Some("特許法"));
}

fn dict_with(entries: &[(&str, &str)]) -> NameDictionary {
    let mut d = NameDictionary::new();
    for (alias, title) in entries {
        let c = LawCandidate {
            law_id: Some(format!("id-{}", title)),
            law_num: None,
            law_title: title.to_string(),
            promulgation_date: None,
        };
        d.register_candidate_aliases(alias, &c);
    }
    d
}

#[test]
fn resolve_fragment_prefers_exact_match_over_containment() {
    let d = dict_with(&[("特許法", "特許法")]);
    assert_eq!(
        resolve_law_title_from_fragment("旧特許法", &d).as_deref(),
        Some("特許法")
    );
}

#[test]
fn resolve_fragment_falls_back_to_longest_contained_key() {
    let d = NameDictionary {
        entries: vec![
            DictPair {
                key: "案法".to_string(),
                entry: LawDictEntry { law_id: None, law_num: None, law_title: "A法".to_string() },
            },
            DictPair {
                key: "用新案法".to_string(),
                entry: LawDictEntry { law_id: None, law_num: None, law_title: "B法".to_string() },
            },
        ],
        dirty: false,
    };
    // 実用新案法 is not a key itself, so the longest contained key decides.
    let r = resolve_law_title_from_fragment("実用新案法", &d);
    assert_eq!(r.as_deref(), Some("B法"));
}

#[test]
fn resolve_fragment_returns_normalized_token_when_nothing_matches() {
    let d = NameDictionary::new();
    assert_eq!(
        resolve_law_title_from_fragment("旧特許法", &d).as_deref(),
        Some("特許法")
    );
    assert_eq!(resolve_law_title_from_fragment("同法", &d), None);
}

fn listing_item(id: &str, num: Option<&str>, title: &str, abbrev: Option<&str>) -> LawsResponseLaw {
    LawsResponseLaw {
        law_info: LawsLawInfo {
            law_id: id.to_string(),
            law_num: num.map(|s| s.to_string()),
            promulgation_date: None,
        },
        revision_info: LawsRevisionInfo {
            law_title: title.to_string(),
            abbrev: abbrev.map(|s| s.to_string()),
        },
    }
}

#[test]
fn parse_law_candidates_deduplicates_by_identity_triple() {
    let resp = LawsResponse {
        laws: vec![
            listing_item("id1", Some("昭和三十四年法律第百二十一号"), "特許法", None),
            listing_item("id1", Some("昭和三十四年法律第百二十一号"), "特許法", None),
            listing_item("id2", None, "民法", None),
        ],
    };
    let out = parse_law_candidates(&resp);
    assert_eq!(out.len(), 2);
    assert_eq!(out[0].law_title, "特許法");
    assert_eq!(out[1].law_title, "民法");
}

#[test]
fn identity_key_prefers_id_then_num_then_title() {
    let c = LawCandidate {
        law_id: Some("X1".to_string()),
        law_num: Some("N1".to_string()),
        law_title: "特許法".to_string(),
        promulgation_date: None,
    };
    assert_eq!(c.identity_key(), "id:X1");
    let c2 = LawCandidate { law_id: None, ..c };
    assert_eq!(c2.identity_key(), "num:N1");
    let c3 = LawCandidate { law_id: None, law_num: None, ..c2 };
    assert_eq!(c3.identity_key(), "title:特許法");
    assert_eq!(c3.id_display(), "-");
}

#[test]
fn extract_finds_and_deduplicates_external_references() {
    let d = NameDictionary::new();
    let md = "民法第2条を参照。民法第2条を再度参照。商法第3条も参照。";
    let refs = extract_external_references(md, &d, "特許法");
    assert_eq!(refs.len(), 2);
    assert!(refs.iter().any(|r| r.law_title == "民法" && r.article == "第2条"));
    assert!(refs.iter().any(|r| r.law_title == "商法" && r.article == "第3条"));
    assert!(refs.iter().all(|r| r.source_law == "特許法"));
}

#[test]
fn extract_resolves_fragment_through_dictionary() {
    let d = dict_with(&[("特許法", "特許法")]);
    let refs = extract_external_references("旧特許法第10条による。", &d, "民法");
    assert_eq!(refs.len(), 1);
    assert_eq!(refs[0].law_title, "特許法");
    assert_eq!(refs[0].article, "第10条");
}

#[test]
fn absorb_listing_page_registers_title_num_and_abbrev_once() {
    let mut d = NameDictionary::new();
    let page = LawsResponse {
        laws: vec![
            listing_item("id1", Some("昭和三十四年法律第百二十一号"), "特許法", Some("特")),
            listing_item("id1", Some("昭和三十四年法律第百二十一号"), "特許法", Some("  ")),
        ],
    };
    let changed = d.absorb_listing_page(&page);
    assert!(changed);
    // The listing path reports its own change flag and leaves the run's
    // dirty flag alone.
    assert!(!d.is_dirty());
    assert_eq!(d.entries.len(), 3);
    let again = d.absorb_listing_page(&page);
    assert!(!again);
    assert_eq!(d.lookup("特許法").unwrap().law_id.as_deref(), Some("id1"));
    // A statute number is registered raw, under the exact number string.
    assert!(d.get(&"昭和三十四年法律第百二十一号".to_string()).is_some());
    assert!(d.get(&"特".to_string()).is_some());
}

#[test]
fn dictionary_clear_drops_every_entry() {
    let mut d = dict_with(&[("特許法", "特許法")]);
    assert!(!d.entries.is_empty());
    d.clear();
    assert!(d.entries.is_empty());
    assert!(d.lookup("特許法").is_none());
}

#[test]
fn extract_ignores_internal_references() {
    let d = NameDictionary::new();
    let refs = extract_external_references("第2条及び第3条を参照。", &d, "民法");
    assert!(refs.is_empty());
}
