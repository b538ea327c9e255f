use deepseek_viewer::index::SearchIndex;
use deepseek_viewer::search::SearchEngine;
use deepseek_viewer::tree::{extract_records, ConversationTree, MappingNode, RawConversation};

/// One conversation whose tree is a root pointing at a single message
/// node carrying one text fragment.
fn conv(id: &str, title: Option<&str>, date: Option<&str>, content: &str) -> RawConversation {
    RawConversation {
        id: id.to_string(),
        title: title.map(|t| t.to_string()),
        inserted_at: date.map(|d| d.to_string()),
        mapping: ConversationTree {
            root_children: vec![0],
            nodes: vec![Some(MappingNode {
                fragments: vec![content.to_string()],
                children: vec![],
            })],
        },
    }
}

fn engine_over(convs: Vec<RawConversation>) -> SearchEngine {
    let records = extract_records(&convs);
    SearchEngine::new(SearchIndex::build(records))
}

fn three_conversations() -> Vec<RawConversation> {
    vec![
        conv(
            "1",
            Some("О гравитации"),
            Some("2024-01-01T00:00:00Z"),
            "Что такое гравитация и как она работает?",
        ),
        conv(
            "2",
            Some("Правила поиска"),
            Some("2024-01-02T00:00:00Z"),
            "Правила работы с ngram поиском очень простые",
        ),
        conv(
            "3",
            Some("Формулы математики"),
            Some("2024-01-03T00:00:00Z"),
            "Математические формулы и их применение в платформах",
        ),
    ]
}

#[test]
fn test_ngram_substring_search() {
    let search = engine_over(three_conversations());

    // "гра" should find "гравитация"
    let results = search.search("гра", 10);
    assert!(!results.is_empty(), "Should find results for 'гра'");
    assert!(
        results
            .iter()
            .any(|r| r.title.contains("гравитац") || r.snippet.contains("гравитац")),
        "Should find conversation about гравитация with query 'гра'"
    );

    // "рав" should find both "гравитация" and "правила"
    let results = search.search("рав", 10);
    assert!(results.len() >= 2, "Should find at least 2 results for 'рав'");

    // "форм" should find "формулы" and "платформ"
    let results = search.search("форм", 10);
    assert!(!results.is_empty(), "Should find results for 'форм'");
    assert!(
        results
            .iter()
            .any(|r| r.title.contains("Формул") || r.snippet.contains("формул")),
        "Should find conversation about формулы with query 'форм'"
    );

    // "пои" should find "поиск"
    let results = search.search("пои", 10);
    assert!(!results.is_empty(), "Should find results for 'пои'");
    assert!(
        results.iter().any(|r| r.snippet.contains("поиск")),
        "Should find text containing 'поиск' with query 'пои'"
    );

    // a two-character query still executes
    let results = search.search("гр", 10);
    assert!(results.len() <= 10, "Should handle short queries gracefully");

    // multi-word search unions the words' matches
    let results = search.search("форм мат", 10);
    assert!(!results.is_empty(), "Should find results for multi-word query");
}

#[test]
fn test_search_returns_snippets() {
    let long_content = format!("{}гравитация{}", "А".repeat(300), "Б".repeat(300));
    let search = engine_over(vec![conv(
        "1",
        Some("Длинный текст"),
        Some("2024-01-01T00:00:00Z"),
        &long_content,
    )]);

    let results = search.search("грав", 10);
    assert!(!results.is_empty(), "Should find results");

    // the snippet is cut at ~200 code points (not bytes!) plus "..."
    let snippet = &results[0].snippet;
    let char_count = snippet.chars().count();
    assert!(char_count <= 210, "Snippet should be truncated to ~200 chars, got {}", char_count);
    if char_count > 200 {
        assert!(snippet.ends_with("..."), "Long snippet should end with '...'");
    }
}

#[test]
fn test_utf8_safety() {
    let search = engine_over(vec![conv(
        "1",
        Some("UTF-8 тест 测试 🚀"),
        Some("2024-01-01T00:00:00Z"),
        "Привет мир! Hello world! 你好世界！ Эмодзи: 🦀⚡🔍",
    )]);

    // must not split any multi-byte character
    let results = search.search("при", 10);
    assert!(!results.is_empty(), "Should find UTF-8 text");

    for result in results {
        assert!(result.snippet.len() > 0, "Snippet should not be empty");
    }
}
