use deepseek_viewer::config::AppConfig;
use deepseek_viewer::default_limit;
use deepseek_viewer::html::extract_title_from_html;
use deepseek_viewer::index::{ConversationRecord, SearchIndex};
use deepseek_viewer::search::SearchEngine;
use deepseek_viewer::text::excerpt;
use deepseek_viewer::tokenize::tokenize;
use deepseek_viewer::tree::{extract, extract_records, ConversationTree, MappingNode, RawConversation};
use deepseek_viewer::IndexError;

fn conv(id: &str, title: Option<&str>, date: Option<&str>, content: &str) -> RawConversation {
    RawConversation {
        id: id.to_string(),
        title: title.map(|t| t.to_string()),
        inserted_at: date.map(|d| d.to_string()),
        mapping: ConversationTree {
            root_children: vec![0],
            nodes: vec![Some(MappingNode {
                fragments: vec![content.to_string()],
                children: vec![],
            })],
        },
    }
}

fn engine_over(convs: Vec<RawConversation>) -> SearchEngine {
    let records = extract_records(&convs);
    SearchEngine::new(SearchIndex::build(records))
}

fn scenario_engine() -> SearchEngine {
    engine_over(vec![
        conv("1", None, None, "Что такое гравитация"),
        conv("2", None, None, "Правила работы с ngram"),
        conv("3", None, None, "Формулы математики"),
    ])
}

#[test]
fn scenario_three_conversations() {
    let search = scenario_engine();

    // "грав" ranks the gravitation conversation first; under OR-of-ngrams
    // the query's gram "рав" also surfaces the second conversation
    // ("Правила..."), so the match is top-ranked rather than exclusive
    let results = search.search("грав", 10);
    assert!(!results.is_empty());
    assert_eq!(results[0].conversation_id, "1");
    assert!(results.iter().all(|r| r.conversation_id != "3"));

    // "форм" matches exactly the third conversation
    let results = search.search("форм", 10);
    assert_eq!(results.len(), 1);
    assert_eq!(results[0].conversation_id, "3");

    // the empty query yields an empty result, not an error
    let results = search.search("", 10);
    assert!(results.is_empty());

    // a multi-word query matching all three, cut to limit 1, yields
    // exactly the top-scored hit
    let all = search.search("гра фор раб", 10);
    assert_eq!(all.len(), 3);
    let top = search.search("гра фор раб", 1);
    assert_eq!(top.len(), 1);
    assert_eq!(top[0].conversation_id, all[0].conversation_id);
}

#[test]
fn missing_title_gets_fallback() {
    let search = scenario_engine();
    // "тако" occurs only in the first conversation
    let results = search.search("тако", 10);
    assert_eq!(results.len(), 1);
    assert_eq!(results[0].conversation_id, "1");
    assert_eq!(results[0].title, "Untitled");
    assert_eq!(results[0].date, "");
}

#[test]
fn case_permutations_agree() {
    let search = scenario_engine();
    let lower = search.search("грав", 10);
    let upper = search.search("ГРАВ", 10);
    let mixed = search.search("ГрАв", 10);
    assert!(!lower.is_empty());
    let ids = |rs: &Vec<deepseek_viewer::search::SearchResult>| {
        rs.iter().map(|r| r.conversation_id.clone()).collect::<Vec<String>>()
    };
    assert_eq!(ids(&upper), ids(&lower));
    assert_eq!(ids(&mixed), ids(&lower));
    // an upper-case query matches lower-case content, so folding really
    // happened somewhere along the way
    assert_eq!(upper[0].conversation_id, "1");
}

#[test]
fn substring_runs_are_found() {
    let search = engine_over(vec![conv("d", Some("t"), None, "qwxyzuvp")]);
    // every admissible run of the content, queried verbatim, finds it
    for run in ["qw", "wxy", "xyzu", "zuvp", "qwxyzuvp"] {
        let results = search.search(run, 10);
        assert_eq!(results.len(), 1, "run {:?} should match", run);
        assert_eq!(results[0].conversation_id, "d");
    }
    // a run longer than the longest n-gram is not a term
    let results = search.search("qwxyzuvp-and-more", 10);
    assert!(results.iter().all(|r| r.conversation_id == "d") || results.is_empty());
}

#[test]
fn title_outranks_content() {
    // the term appears once in A's title and once in B's content
    let search = engine_over(vec![
        conv("b", Some("something else"), None, "гравитация"),
        conv("a", Some("гравитация"), None, "something else"),
    ]);
    let results = search.search("грав", 10);
    assert_eq!(results.len(), 2);
    assert_eq!(results[0].conversation_id, "a");
    assert_eq!(results[1].conversation_id, "b");
    assert!(results[0].score > results[1].score);
    // "грав" yields six n-grams, each occurring once: a title hit counts
    // twice, a content hit once
    assert_eq!(results[0].score, 12);
    assert_eq!(results[1].score, 6);
}

#[test]
fn rebuild_reflects_deletions() {
    let with_all = scenario_engine();
    let before = with_all.search("гра фор раб", 10);
    assert_eq!(before.len(), 3);

    // drop the first conversation and rebuild
    let without_first = engine_over(vec![
        conv("2", None, None, "Правила работы с ngram"),
        conv("3", None, None, "Формулы математики"),
    ]);
    let after = without_first.search("гра фор раб", 10);
    assert_eq!(after.len(), 2);
    assert!(after.iter().all(|r| r.conversation_id != "1"));
    // the surviving conversations keep their scores
    for r in &after {
        let old = before
            .iter()
            .find(|o| o.conversation_id == r.conversation_id)
            .expect("survivor was present before");
        assert_eq!(r.score, old.score);
    }
}

#[test]
fn rebuild_is_deterministic() {
    let a = scenario_engine().search("гра фор раб", 10);
    let b = scenario_engine().search("гра фор раб", 10);
    assert_eq!(a.len(), b.len());
    for (x, y) in a.iter().zip(b.iter()) {
        assert_eq!(x.conversation_id, y.conversation_id);
        assert_eq!(x.title, y.title);
        assert_eq!(x.date, y.date);
        assert_eq!(x.score, y.score);
        assert_eq!(x.snippet, y.snippet);
    }
}

#[test]
fn zero_limit_falls_back_to_twenty() {
    assert_eq!(default_limit(), 20);
    let mut convs = Vec::new();
    for i in 0..25 {
        convs.push(conv(&format!("id{}", i), Some("t"), None, "шаблон"));
    }
    let search = engine_over(convs);
    let results = search.search("шабл", 0);
    assert_eq!(results.len(), 20);
    let results = search.search("шабл", 7);
    assert_eq!(results.len(), 7);
}

#[test]
fn excerpt_is_codepoint_bounded() {
    assert_eq!(excerpt("abc", 200), "abc");
    assert_eq!(excerpt("", 200), "");
    let long = "я".repeat(250);
    let cut = excerpt(&long, 200);
    assert_eq!(cut.chars().count(), 203);
    assert_eq!(cut, format!("{}...", "я".repeat(200)));
    let exact = "x".repeat(200);
    assert_eq!(excerpt(&exact, 200), exact);
}

#[test]
fn tokenizer_emits_every_admissible_gram() {
    let toks = tokenize("abc");
    let pairs: Vec<(String, usize)> = toks.into_iter().map(|t| (t.term, t.start)).collect();
    assert_eq!(
        pairs,
        vec![
            ("ab".to_string(), 0),
            ("abc".to_string(), 0),
            ("bc".to_string(), 1),
        ]
    );
    assert!(tokenize("a").is_empty());
    assert!(tokenize("").is_empty());
}

#[test]
fn extraction_follows_child_order_and_skips_missing() {
    // root -> [1, 0]; node 1 has a child 2; ordinal 7 has no node
    let tree = ConversationTree {
        root_children: vec![1, 0, 7],
        nodes: vec![
            Some(MappingNode { fragments: vec!["third".to_string()], children: vec![] }),
            Some(MappingNode {
                fragments: vec!["first".to_string()],
                children: vec![2, 7],
            }),
            Some(MappingNode { fragments: vec!["second".to_string()], children: vec![] }),
        ],
    };
    let content = extract(&tree).expect("acyclic tree extracts");
    assert_eq!(content, "first second third ");
}

#[test]
fn extraction_reports_cycles() {
    // node 0 lists itself as a child
    let tree = ConversationTree {
        root_children: vec![0],
        nodes: vec![Some(MappingNode {
            fragments: vec!["loop".to_string()],
            children: vec![0],
        })],
    };
    assert_eq!(extract(&tree), Err(IndexError::CycleDetected));
}

#[test]
fn cyclic_conversation_is_skipped_not_fatal() {
    let cyclic = RawConversation {
        id: "bad".to_string(),
        title: None,
        inserted_at: None,
        mapping: ConversationTree {
            root_children: vec![0],
            nodes: vec![Some(MappingNode {
                fragments: vec!["loop".to_string()],
                children: vec![0],
            })],
        },
    };
    let good = conv("good", Some("ok"), None, "полезное содержимое");
    let records = extract_records(&vec![cyclic, good]);
    assert_eq!(records.len(), 1);
    assert_eq!(records[0].id, "good");
}

#[test]
fn multiple_fragments_are_space_separated() {
    let tree = ConversationTree {
        root_children: vec![0],
        nodes: vec![Some(MappingNode {
            fragments: vec!["hello".to_string(), "world".to_string()],
            children: vec![],
        })],
    };
    assert_eq!(extract(&tree).unwrap(), "hello world ");
}

#[test]
fn record_defaults_apply() {
    let r = ConversationRecord::new("i".to_string(), None, None, "c".to_string());
    assert_eq!(r.title, "Untitled");
    assert_eq!(r.date, "");
    let r = ConversationRecord::new(
        "i".to_string(),
        Some("T".to_string()),
        Some("2024".to_string()),
        "c".to_string(),
    );
    assert_eq!(r.title, "T");
    assert_eq!(r.date, "2024");
}

#[test]
fn title_extraction_from_html() {
    assert_eq!(extract_title_from_html("<html><title> Моя страница </title></html>"), "Моя страница");
    assert_eq!(
        extract_title_from_html("<body><h1 class=\"top\">Заголовок</h1></body>"),
        "Заголовок"
    );
    assert_eq!(extract_title_from_html("<p>nothing here</p>"), "Untitled conversation");
    assert_eq!(extract_title_from_html(""), "Untitled conversation");
    // a malformed h1 falls back instead of failing
    assert_eq!(extract_title_from_html("<h1</h1>"), "Untitled conversation");
}

#[test]
fn fresh_config_has_no_file() {
    let c = AppConfig::default();
    assert!(c.conversations_file_path.is_none());
}

#[test]
fn index_survives_the_byte_codec() {
    let convs = vec![
        conv("1", Some("О гравитации"), Some("2024-01-01T00:00:00Z"), "Что такое гравитация"),
        conv("2", None, None, "Правила работы с ngram"),
    ];
    let index = SearchIndex::build(extract_records(&convs));
    let before = SearchEngine::new(SearchIndex::build(extract_records(&convs)));
    let bytes = index.to_bytes();
    let reopened = SearchIndex::from_bytes(&bytes).expect("an encoded snapshot decodes");
    let after = SearchEngine::new(reopened);
    for query in ["грав", "ngram", "ПРАВ", ""] {
        let a = before.search(query, 10);
        let b = after.search(query, 10);
        assert_eq!(a.len(), b.len(), "query {:?}", query);
        for (x, y) in a.iter().zip(b.iter()) {
            assert_eq!(x.conversation_id, y.conversation_id);
            assert_eq!(x.title, y.title);
            assert_eq!(x.date, y.date);
            assert_eq!(x.score, y.score);
            assert_eq!(x.snippet, y.snippet);
        }
    }
}

#[test]
fn corrupt_bytes_are_refused() {
    assert!(matches!(
        SearchIndex::from_bytes(&Vec::new()),
        Err(IndexError::IndexCorrupt)
    ));
    assert!(matches!(
        SearchIndex::from_bytes(&vec![1, 2, 3]),
        Err(IndexError::IndexCorrupt)
    ));
    // a valid encoding with trailing garbage is refused too
    let index = SearchIndex::build(Vec::new());
    let mut bytes = index.to_bytes();
    bytes.push(0);
    assert!(matches!(
        SearchIndex::from_bytes(&bytes),
        Err(IndexError::IndexCorrupt)
    ));
    // an empty snapshot round-trips
    let empty = SearchIndex::build(Vec::new());
    assert!(SearchIndex::from_bytes(&empty.to_bytes()).is_ok());
}

#[test]
fn results_come_ranked() {
    // two identical conversations tie; a third matches more strongly
    let search = engine_over(vec![
        conv("tie1", Some("t"), None, "гравитация"),
        conv("strong", Some("гравитация"), None, "гравитация"),
        conv("tie2", Some("t"), None, "гравитация"),
    ]);
    let results = search.search("грав", 10);
    assert_eq!(results.len(), 3);
    for w in results.windows(2) {
        assert!(w[0].score >= w[1].score);
    }
    // the boosted conversation wins; the tied pair keeps insertion order
    assert_eq!(results[0].conversation_id, "strong");
    assert_eq!(results[1].conversation_id, "tie1");
    assert_eq!(results[2].conversation_id, "tie2");
}
