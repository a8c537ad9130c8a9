use law_notes::linkify::linkify_markdown;
use law_notes::note::render_note;
use law_notes::candidate::{LawCandidate, LawContents};
use law_notes::crawl::{
    Crawler, FailureAction, ResolveDecision, decide_from_candidates, accept_choice,
    resolution_failure_action,
};
use law_notes::extract::LawRef;
use law_notes::unresolved::{UnresolvedRef, UnresolvedRefStore, merge_unresolved_refs};
use law_notes::dictionary::NameDictionary;

/// An external citation links to the cited statute's note; a bare article
/// reference links to the current statute's own note.
#[test]
fn linkify_handles_external_and_internal_articles() {
    let md = "民法第2条及び第3条を参照する。";
    let (out, unresolved) = linkify_markdown(md, "刑法", "laws");
    assert!(out.contains("[[laws/民法#第2条|民法第2条]]"));
    assert!(out.contains("[[laws/刑法#第3条|第3条]]"));
    assert!(unresolved.is_empty());
}

/// An anaphoric token survives the rewrite verbatim and is reported as
/// unresolved.
#[test]
fn linkify_keeps_and_reports_anaphoric_tokens() {
    let (out, unresolved) = linkify_markdown("前条の規定を適用する。", "民法", "laws");
    assert!(out.contains("前条"));
    assert_eq!(unresolved, vec!["前条".to_string()]);
}

/// Rewriting already-rewritten text changes nothing: linked lines pass
/// through verbatim.
#[test]
fn linkify_is_idempotent() {
    let md = "## 第1条\n民法第2条及び第3条を参照する。\n第2項による。";
    let (once, _) = linkify_markdown(md, "刑法", "laws");
    let (twice, _) = linkify_markdown(once.as_str(), "刑法", "laws");
    assert_eq!(once, twice);
}

/// Paragraph and item references anchor at the most recent article
/// heading.
#[test]
fn linkify_anchors_paragraphs_at_last_article_heading() {
    let md = "## 第5条\n第2項及び第3号を見よ。";
    let (out, unresolved) = linkify_markdown(md, "民法", "laws");
    assert!(out.contains("[[laws/民法#第5条|第2項]]"));
    assert!(out.contains("[[laws/民法#第5条|第3号]]"));
    assert!(unresolved.is_empty());
}

/// A citation written with the two-character statute type 法律 still
/// resolves: the name group extends over 律 and the whole citation is
/// replaced.
#[test]
fn linkify_handles_two_character_statute_type() {
    let (out, unresolved) = linkify_markdown("商法律第1条を参照。", "民法", "laws");
    assert_eq!(out, "[[laws/商法#第1条|商法第1条]]を参照。
");
    assert!(unresolved.is_empty());
}

/// Without any article heading in scope, paragraph references stay as
/// they are.
#[test]
fn linkify_leaves_paragraphs_without_anchor() {
    let (out, unresolved) = linkify_markdown("第2項による。", "民法", "laws");
    assert_eq!(out, "第2項による。\n");
    assert!(unresolved.is_empty());
}

/// The note body carries the front matter fields in order, then the
/// rewritten text.
#[test]
fn render_note_produces_front_matter_and_linked_body() {
    let law = LawContents {
        law_id: Some("325AC0000000089".to_string()),
        law_num: Some("昭和二十五年法律第八十九号".to_string()),
        law_title: "民法".to_string(),
        markdown: "第1条　権利の濫用は、これを許さない。".to_string(),
        original_xml: None,
    };
    let (file_name, body, unresolved) =
        render_note(&law, 1, "2024-01-02T03:04:05+00:00", "laws");
    assert_eq!(file_name, "民法");
    let expected = "---\nlaw_title: \"民法\"\nlaw_id: \"325AC0000000089\"\nlaw_num: \"昭和二十五年法律第八十九号\"\nsource_api: \"v2\"\nfetched_at: \"2024-01-02T03:04:05+00:00\"\ndepth: 1\nhas_original_xml: false\n---\n\n## 第1条\n[[laws/民法#第1条|第1条]]\u{3000}権利の濫用は、これを許さない。\n";
    assert_eq!(body, expected);
    assert!(unresolved.is_empty());
}

/// Quotes in a title are YAML-escaped in the front matter and replaced in
/// the file name; a multi-digit depth is rendered in full.
#[test]
fn render_note_escapes_title_and_formats_depth() {
    let law = LawContents {
        law_id: None,
        law_num: None,
        law_title: "a\"b".to_string(),
        markdown: "x".to_string(),
        original_xml: None,
    };
    let (file_name, body, _) = render_note(&law, 12, "t", "");
    assert_eq!(file_name, "a_b");
    assert!(body.contains("law_title: \"a\\\"b\"\n"));
    assert!(body.contains("law_id: \"\"\n"));
    assert!(body.contains("depth: 12\n"));
    assert!(body.ends_with("---\n\nx\n"));
}

/// A crawl bounded at depth zero drops every outbound reference: only the
/// root statute is visited.
#[test]
fn crawl_depth_zero_visits_only_root() {
    let mut c = Crawler::new("民法", 0, true);
    let root = c.dequeue().expect("root entry");
    assert_eq!(root.law_title, "民法");
    assert_eq!(root.depth, 0);
    assert!(!c.depth_exceeded(root.depth));
    assert!(c.mark_visited_if_new("id:root"));
    let refs = vec![
        LawRef {
            source_law: "民法".to_string(),
            law_title: "商法".to_string(),
            article: "第2条".to_string(),
        },
    ];
    c.enqueue_refs(&refs, root.depth);
    let next = c.dequeue().expect("queued reference");
    assert_eq!(next.depth, 1);
    assert!(c.depth_exceeded(next.depth));
    assert!(c.dequeue().is_none());
}

/// Two statutes citing the same third statute mark its identity once; the
/// second visit is reported as already seen.
#[test]
fn crawl_visited_set_deduplicates_shared_citation() {
    let mut c = Crawler::new("民法", 2, true);
    assert!(c.mark_visited_if_new("id:third"));
    assert!(!c.mark_visited_if_new("id:third"));
    assert!(c.mark_visited_if_new("id:other"));
    assert!(!c.mark_visited_if_new("id:third"));
}

/// A resolution failure is fatal at the root and prunes the branch at any
/// deeper level.
#[test]
fn resolution_failure_is_fatal_only_at_root() {
    assert!(matches!(resolution_failure_action(0), FailureAction::AbortRun));
    assert!(matches!(resolution_failure_action(1), FailureAction::PruneBranch));
    assert!(matches!(resolution_failure_action(5), FailureAction::PruneBranch));
}

/// Leftover note tokens and resolution failures both land in the run's
/// unresolved-event list, in order.
#[test]
fn crawler_records_unresolved_events() {
    let mut c = Crawler::new("民法", 2, true);
    c.record_unresolved(UnresolvedRef {
        source_law: "民法".to_string(),
        alias: "商法".to_string(),
        sample_context: Some("参照先法令名の解決失敗".to_string()),
    });
    c.record_note_tokens("民法", &vec!["前条".to_string(), "同項".to_string()]);
    assert_eq!(c.unresolved.len(), 3);
    assert_eq!(c.unresolved[0].alias, "商法");
    assert_eq!(c.unresolved[1].alias, "前条");
    assert_eq!(c.unresolved[1].source_law, "民法");
    assert!(c.unresolved[1].sample_context.is_none());
    assert_eq!(c.unresolved[2].alias, "同項");
}

fn candidate(id: &str, title: &str) -> LawCandidate {
    LawCandidate {
        law_id: Some(id.to_string()),
        law_num: None,
        law_title: title.to_string(),
        promulgation_date: None,
    }
}

#[test]
fn decide_from_candidates_covers_each_outcome() {
    let none: Vec<LawCandidate> = Vec::new();
    assert!(matches!(
        decide_from_candidates(&none, "民法", true),
        ResolveDecision::NotFound
    ));
    let one = vec![candidate("a", "民法")];
    match decide_from_candidates(&one, "何でも", true) {
        ResolveDecision::Resolved(c) => assert_eq!(c.law_title, "民法"),
        _ => panic!("single candidate must resolve"),
    }
    let several = vec![candidate("a", "民法"), candidate("b", "民法施行法")];
    match decide_from_candidates(&several, "民法", true) {
        ResolveDecision::Resolved(c) => assert_eq!(c.law_id.as_deref(), Some("a")),
        _ => panic!("unique exact title must resolve"),
    }
    let twins = vec![candidate("a", "民法"), candidate("b", "民法")];
    assert!(matches!(
        decide_from_candidates(&twins, "民法", true),
        ResolveDecision::Ambiguous
    ));
    assert!(matches!(
        decide_from_candidates(&several, "民法", false),
        ResolveDecision::NeedsPrompt
    ));
}

#[test]
fn accept_choice_is_one_based_and_bounded() {
    let cs = vec![candidate("a", "民法"), candidate("b", "商法")];
    assert!(accept_choice(&cs, 0).is_none());
    assert!(accept_choice(&cs, 3).is_none());
    let picked = accept_choice(&cs, 2).expect("second candidate");
    assert_eq!(picked.law_title, "商法");
}

#[test]
fn merge_unresolved_increments_existing_and_inserts_new() {
    let mut store = UnresolvedRefStore { items: Vec::new() };
    let events = vec![
        UnresolvedRef {
            source_law: "民法".to_string(),
            alias: "前条".to_string(),
            sample_context: None,
        },
        UnresolvedRef {
            source_law: "民法".to_string(),
            alias: "前条".to_string(),
            sample_context: Some("前条の規定".to_string()),
        },
        UnresolvedRef {
            source_law: "商法".to_string(),
            alias: "同法".to_string(),
            sample_context: None,
        },
    ];
    merge_unresolved_refs(&mut store, &events, "t1");
    assert_eq!(store.items.len(), 2);
    assert_eq!(store.items[0].count, 2);
    assert_eq!(store.items[0].status, "pending");
    assert_eq!(store.items[0].first_seen_at, "t1");
    assert_eq!(store.items[0].sample_context.as_deref(), Some("前条の規定"));
    assert_eq!(store.items[1].count, 1);

    let later = vec![UnresolvedRef {
        source_law: "民法".to_string(),
        alias: "前条".to_string(),
        sample_context: None,
    }];
    merge_unresolved_refs(&mut store, &later, "t2");
    assert_eq!(store.items.len(), 2);
    assert_eq!(store.items[0].count, 3);
    assert_eq!(store.items[0].first_seen_at, "t1");
    assert_eq!(store.items[0].last_seen_at, "t2");
}

/// The dictionary's dirty flag is raised exactly when a run inserts an
/// alias, which is what gates persistence at end of run.
#[test]
fn dictionary_dirty_only_when_something_was_inserted() {
    let mut d = NameDictionary::new();
    assert!(!d.is_dirty());
    let c = candidate("a", "特許法");
    d.register_candidate_aliases("旧特許法", &c);
    assert!(d.is_dirty());
    d.mark_clean();
    d.register_candidate_aliases("旧特許法", &c);
    assert!(!d.is_dirty());
}
