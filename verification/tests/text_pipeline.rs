use law_notes::lawtext::{
    LawNode, law_full_text_to_markdown, ensure_article_headings, extract_heading_anchor,
};
use law_notes::sanitize::{sanitize_filename, escape_yaml, obsidian_dir, obsidian_note_target};

/// Forbidden filename characters are each replaced by an underscore.
#[test]
fn sanitize_filename_replaces_forbidden_chars() {
    assert_eq!(sanitize_filename("民法/商法:テスト"), "民法_商法_テスト");
}

#[test]
fn sanitize_filename_replaces_every_hostile_char() {
    assert_eq!(sanitize_filename("a/b\\c:d*e?f\"g<h>i|j"), "a_b_c_d_e_f_g_h_i_j");
}

#[test]
fn sanitize_filename_trims_surrounding_whitespace_and_trailing_periods() {
    assert_eq!(sanitize_filename("  abc..  "), "abc");
    assert_eq!(sanitize_filename(" a*b? "), "a_b_");
    assert_eq!(sanitize_filename("ab. "), "ab");
    // A removed period must not expose trailing whitespace, nor the other
    // way round: the whole trailing run of both goes.
    assert_eq!(sanitize_filename("a ."), "a");
    assert_eq!(sanitize_filename("a . ."), "a");
}

#[test]
fn escape_yaml_escapes_backslash_and_quote() {
    assert_eq!(escape_yaml("a\\b\"c"), "a\\\\b\\\"c");
}

#[test]
fn obsidian_dir_normalizes_separators_and_dots() {
    assert_eq!(obsidian_dir("."), "");
    assert_eq!(obsidian_dir("./laws/"), "laws");
    assert_eq!(obsidian_dir("notes\\laws"), "notes/laws");
}

#[test]
fn obsidian_note_target_joins_dir_and_sanitized_title() {
    assert_eq!(obsidian_note_target("laws", "民法"), "laws/民法");
    assert_eq!(obsidian_note_target("", "民法"), "民法");
    assert_eq!(obsidian_note_target("laws", "a/b"), "laws/a_b");
}

fn block(tag: &str, children: Vec<LawNode>) -> LawNode {
    LawNode::Block { tag: tag.to_string(), children }
}

fn leaf(s: &str) -> LawNode {
    LawNode::Leaf(s.to_string())
}

/// The flattened document tree keeps article titles and sentence text.
#[test]
fn law_full_text_json_to_markdown_extracts_text() {
    let tree = block(
        "Law",
        vec![block(
            "Article",
            vec![
                block("ArticleTitle", vec![leaf("第一条")]),
                block(
                    "Paragraph",
                    vec![block("Sentence", vec![leaf("この法律は、テストとする。")])],
                ),
            ],
        )],
    );
    let out = law_full_text_to_markdown(&tree).unwrap();
    assert!(out.contains("第一条"));
    assert!(out.contains("この法律は、テストとする。"));
}

#[test]
fn law_full_text_markdown_collapses_whitespace_and_blank_lines() {
    let tree = block(
        "Law",
        vec![
            block("Article", vec![leaf("  第一条 \t  本文  ")]),
            block("Article", vec![leaf("   ")]),
            block("Article", vec![leaf("次の行")]),
        ],
    );
    let out = law_full_text_to_markdown(&tree).unwrap();
    assert_eq!(out, "第一条 本文\n次の行");
}

#[test]
fn law_full_text_markdown_rejects_empty_tree() {
    let tree = block("Law", vec![leaf("   ")]);
    assert!(law_full_text_to_markdown(&tree).is_err());
}

#[test]
fn ensure_article_headings_inserts_heading_before_article_line() {
    let out = ensure_article_headings("第一条　内容がある。");
    assert_eq!(out, "## 第一条\n第一条　内容がある。\n");
}

#[test]
fn ensure_article_headings_keeps_bare_article_token_line_as_heading_only() {
    let out = ensure_article_headings("第二条");
    assert_eq!(out, "## 第二条\n");
}

#[test]
fn ensure_article_headings_handles_branch_numbers_and_existing_headings() {
    let out = ensure_article_headings("# 総則\n第三条の二　本文");
    assert_eq!(out, "# 総則\n## 第三条の二\n第三条の二　本文\n");
}

#[test]
fn extract_heading_anchor_reads_article_token() {
    assert_eq!(extract_heading_anchor("## 第2条").as_deref(), Some("第2条"));
    assert_eq!(extract_heading_anchor("## 第三条の二　見出し").as_deref(), Some("第三条"));
    assert_eq!(extract_heading_anchor("## 総則"), None);
}
