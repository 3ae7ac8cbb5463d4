use doc_index::document_index::SNIPPET_LEN;
use doc_index::snippet::{context_snippet, extract_snippet};
use doc_index::text::{chars_of, extract_terms, split_lines, split_query};
use doc_index::{CorpusFile, DocumentIndex, UserProjectConfig};

fn file(path: &str, content: &str) -> CorpusFile {
    CorpusFile { path: path.to_string(), content: Some(content.to_string()) }
}

fn exts(list: &[&str]) -> Vec<String> {
    list.iter().map(|s| s.to_string()).collect()
}

fn corpus_a() -> Vec<CorpusFile> {
    vec![file("root/a.txt", "apple banana"), file("root/b.md", "banana cherry")]
}

fn chars(s: &str) -> Vec<char> {
    s.chars().collect()
}

fn text(v: &[Vec<char>]) -> Vec<String> {
    v.iter().map(|c| c.iter().collect()).collect()
}

#[test]
fn scenario_a_scored_search_two_full_scores() {
    let idx = DocumentIndex::new("root".to_string(), exts(&["txt", "md"]));
    let r = idx.search_with_scoring(&corpus_a(), "banana", 10);
    assert_eq!(r.len(), 2);
    assert_eq!(r[0].path, "root/a.txt");
    assert_eq!(r[1].path, "root/b.md");
    for x in &r {
        assert_eq!(x.matched_terms, 1);
        assert_eq!(x.query_terms, 1);
        assert_eq!(x.line_number, 0);
    }
    assert_eq!(r[0].snippet, "apple banana");
    assert_eq!(r[1].snippet, "banana cherry");
    assert_eq!(r[0].file_type, "txt");
    assert_eq!(r[1].file_type, "md");
}

#[test]
fn scenario_b_filtered_extension_never_appears() {
    let mut idx = DocumentIndex::new("root".to_string(), exts(&["txt"]));
    let corpus = corpus_a();
    let r = idx.search_with_scoring(&corpus, "banana", 10);
    assert_eq!(r.len(), 1);
    assert_eq!(r[0].path, "root/a.txt");
    let s = idx.search_relevant_code(&corpus, "banana", 10);
    assert_eq!(s.len(), 1);
    assert_eq!(s[0].path, "root/a.txt");
    assert!(idx.search_relevant_code(&corpus, "cherry", 10).is_empty());
    assert_eq!(idx.build_index(&corpus), 1);
    assert!(idx.postings_for("cherry").is_empty());
    assert_eq!(idx.postings_for("banana"), vec![("root/a.txt".to_string(), 0)]);
}

#[test]
fn scenario_c_short_terms_give_nothing() {
    let idx = DocumentIndex::new("root".to_string(), exts(&["txt", "md"]));
    assert!(idx.search_with_scoring(&corpus_a(), "to", 10).is_empty());
    assert!(idx.search_with_scoring(&corpus_a(), "", 10).is_empty());
    assert!(split_query("to be or").is_empty());
}

#[test]
fn scenario_d_substring_search_stops_at_limit() {
    let idx = DocumentIndex::new("root".to_string(), exts(&["txt", "md"]));
    let r = idx.search_relevant_code(&corpus_a(), "cherry", 1);
    assert_eq!(r.len(), 1);
    assert_eq!(r[0].path, "root/b.md");
    assert_eq!(r[0].snippet, "banana cherry");
    let r = idx.search_relevant_code(&corpus_a(), "BANANA", 1);
    assert_eq!(r.len(), 1);
    assert_eq!(r[0].path, "root/a.txt");
}

#[test]
fn build_twice_reports_same_count() {
    let mut idx = DocumentIndex::new("root".to_string(), exts(&["txt", "md"]));
    let first = idx.build_index(&corpus_a());
    assert_eq!(first, 2);
    assert!(idx.is_indexed());
    let second = idx.build_index(&vec![file("root/c.txt", "other words here")]);
    assert_eq!(second, 2);
    assert!(idx.postings_for("other").is_empty());
}

#[test]
fn update_extensions_resets_index() {
    let mut idx = DocumentIndex::new("root".to_string(), exts(&["txt", "md"]));
    idx.build_index(&corpus_a());
    assert_eq!(idx.postings_for("banana").len(), 2);
    idx.update_extensions(exts(&["md"]));
    assert!(!idx.is_indexed());
    assert_eq!(idx.indexed_file_count(), 0);
    assert!(idx.postings_for("banana").is_empty());
    assert_eq!(idx.build_index(&corpus_a()), 1);
    assert_eq!(idx.postings_for("banana"), vec![("root/b.md".to_string(), 0)]);
    idx.refresh();
    assert_eq!(idx.indexed_file_count(), 1);
}

#[test]
fn unreadable_files_are_skipped() {
    let mut idx = DocumentIndex::new("root".to_string(), exts(&["txt", "md"]));
    let corpus = vec![
        CorpusFile { path: "root/x.txt".to_string(), content: None },
        file("root/y.txt", "banana"),
    ];
    assert_eq!(idx.build_index(&corpus), 1);
    assert_eq!(idx.search_relevant_code(&corpus, "banana", 5).len(), 1);
    assert_eq!(idx.search_with_scoring(&corpus, "banana", 5).len(), 1);
}

#[test]
fn postings_are_per_line_and_deduplicated() {
    let mut idx = DocumentIndex::new("root".to_string(), exts(&["rs"]));
    let corpus = vec![file("src/m.rs", "Foo foo_bar FOO\nno\nfoo(x) is_ok\n")];
    assert_eq!(idx.build_index(&corpus), 1);
    assert_eq!(
        idx.postings_for("FOO"),
        vec![("src/m.rs".to_string(), 0), ("src/m.rs".to_string(), 2)]
    );
    assert_eq!(idx.postings_for("foo_bar"), vec![("src/m.rs".to_string(), 0)]);
    assert!(idx.postings_for("no").is_empty());
    assert_eq!(idx.postings_for("is_ok").len(), 1);
}

#[test]
fn extract_terms_keeps_long_distinct_lowercase_words() {
    let t = extract_terms(&chars("The cat, THE dog-house x1 abc_d abc_d"));
    assert_eq!(text(&t), vec!["the", "cat", "dog", "house", "abc_d"]);
}

#[test]
fn results_never_exceed_limit() {
    let idx = DocumentIndex::new("root".to_string(), exts(&["txt"]));
    let corpus = vec![
        file("a.txt", "banana\nbanana\nbanana"),
        file("b.txt", "banana"),
    ];
    assert_eq!(idx.search_with_scoring(&corpus, "banana", 2).len(), 2);
    assert_eq!(idx.search_with_scoring(&corpus, "banana", 100).len(), 4);
    assert!(idx.search_with_scoring(&corpus, "banana", 0).is_empty());
    assert_eq!(idx.search_relevant_code(&corpus, "banana", 1).len(), 1);
    assert!(idx.search_relevant_code(&corpus, "banana", 0).is_empty());
}

#[test]
fn scores_are_ordered_and_stable() {
    let idx = DocumentIndex::new("root".to_string(), exts(&["txt", "md"]));
    let corpus = vec![
        file("a.txt", "banana only\napple and banana"),
        file("b.md", "apple alone\nBanana Apple"),
    ];
    let r = idx.search_with_scoring(&corpus, "apple Banana", 10);
    let got: Vec<(String, usize, usize)> =
        r.iter().map(|x| (x.path.clone(), x.line_number, x.matched_terms)).collect();
    assert_eq!(
        got,
        vec![
            ("a.txt".to_string(), 1, 2),
            ("b.md".to_string(), 1, 2),
            ("a.txt".to_string(), 0, 1),
            ("b.md".to_string(), 0, 1),
        ]
    );
    for x in &r {
        assert!(x.matched_terms > 0 && x.matched_terms <= x.query_terms);
        assert_eq!(x.query_terms, 2);
    }
}

#[test]
fn context_window_is_clamped() {
    let body: Vec<String> = (0..20).map(|i| format!("line{}", i)).collect();
    let content = body.join("\n");
    let idx = DocumentIndex::new("root".to_string(), exts(&["txt"]));
    let corpus = vec![file("f.txt", &content)];
    let r = idx.search_with_scoring(&corpus, "line10", 1);
    assert_eq!(r[0].line_number, 10);
    assert_eq!(r[0].snippet, body[4..17].join("\n"));
    let r = idx.search_with_scoring(&corpus, "line0", 1);
    assert_eq!(r[0].snippet, body[0..7].join("\n"));
    let r = idx.search_with_scoring(&corpus, "line19", 1);
    assert_eq!(r[0].snippet, body[13..20].join("\n"));
    let lines = split_lines(&chars("one\ntwo"));
    assert_eq!(context_snippet(&lines, 1).iter().collect::<String>(), "one\ntwo");
}

#[test]
fn lines_split_like_str_lines() {
    let l = split_lines(&chars("a\r\nb\n\nc\r"));
    assert_eq!(text(&l), vec!["a", "b", "", "c\r"]);
    assert!(split_lines(&chars("")).is_empty());
    assert_eq!(text(&split_lines(&chars("x\n"))), vec!["x"]);
}

#[test]
fn snippet_window_around_match() {
    let content: String = "a".repeat(2000) + "needle" + &"b".repeat(2000);
    let c = chars(&content);
    let s: String = extract_snippet(&c, &chars("needle"), SNIPPET_LEN).iter().collect();
    let expected = content[2000 - 256..2000 - 256 + 1024].to_string() + "\n...";
    assert_eq!(s, expected);
    let short = chars("xx NEEDLE yy");
    let s: String = extract_snippet(&short, &chars("needle"), SNIPPET_LEN).iter().collect();
    assert_eq!(s, "xx NEEDLE yy");
}

#[test]
fn snippet_without_match_takes_the_start() {
    let content = "z".repeat(10);
    let s: String = extract_snippet(&chars(&content), &chars("q"), 4).iter().collect();
    assert_eq!(s, "zzzz\n...");
    let s: String = extract_snippet(&chars("abc"), &chars("q"), 4).iter().collect();
    assert_eq!(s, "abc");
    let s: String = extract_snippet(&chars("abcdefgh"), &chars("gh"), 4).iter().collect();
    assert_eq!(s, "fgh");
}

#[test]
fn extension_filter_is_exact() {
    let idx = DocumentIndex::new("root".to_string(), exts(&["txt", "rs"]));
    assert!(idx.is_indexable_file("a/b.txt"));
    assert!(idx.is_indexable_file("dir.d/main.rs"));
    assert!(!idx.is_indexable_file("a/b.TXT"));
    assert!(!idx.is_indexable_file("a/txt"));
    assert!(!idx.is_indexable_file("a/.txt"));
    assert!(!idx.is_indexable_file("a.txt/readme"));
    assert!(idx.is_indexable_file("a/.hidden.txt"));
    assert!(!idx.is_indexable_file("a/b.txt.bak"));
}

#[test]
fn query_terms_are_lowercased_and_kept_in_order() {
    assert_eq!(text(&split_query("  Apple\tbanana  to apple ")), vec!["apple", "banana", "apple"]);
    assert_eq!(chars_of("héllo"), vec!['h', 'é', 'l', 'l', 'o']);
}

#[test]
fn default_config_values() {
    let c = UserProjectConfig::default();
    assert_eq!(c.project_name, "My Project");
    assert_eq!(c.reference_directory, ".");
    assert_eq!(c.file_extensions, vec!["rs", "toml", "md", "txt"]);
    assert_eq!(c.ollama_model, "qwen2.5-coder:7b");
    assert!(!c.setup_complete);
}

#[test]
fn corpus_root_is_kept() {
    let idx = DocumentIndex::new("some/root".to_string(), exts(&["txt"]));
    assert_eq!(idx.corpus_root(), "some/root");
}

#[test]
fn term_count_counts_distinct_terms() {
    let mut idx = DocumentIndex::new("root".to_string(), exts(&["txt", "md"]));
    assert_eq!(idx.term_count(), 0);
    idx.build_index(&corpus_a());
    assert_eq!(idx.term_count(), 3);
}

#[test]
fn substring_search_folds_unicode_case() {
    let idx = DocumentIndex::new("root".to_string(), exts(&["txt"]));
    let corpus = vec![file("e.txt", "é")];
    let r = idx.search_relevant_code(&corpus, "É", 5);
    assert_eq!(r.len(), 1);
    assert_eq!(r[0].snippet, "é");
}

#[test]
fn scored_search_folds_unicode_case() {
    let idx = DocumentIndex::new("root".to_string(), exts(&["txt"]));
    let corpus = vec![file("e.txt", "un été chaud")];
    let r = idx.search_with_scoring(&corpus, "ÉTÉ", 5);
    assert_eq!(r.len(), 1);
    assert_eq!(r[0].matched_terms, 1);
    assert_eq!(r[0].snippet, "un été chaud");
}

#[test]
fn snippet_position_counts_original_characters() {
    // 'İ' lowercases to two characters; the window still starts on the
    // original text one quarter of the length before the match.
    let s: String = extract_snippet(&chars("İabcneedle"), &chars("needle"), 4).iter().collect();
    assert_eq!(s, "cnee\n...");
}

#[test]
fn index_terms_are_unicode_lowercased() {
    let t = extract_terms(&chars("HELLO World"));
    assert_eq!(text(&t), vec!["hello", "world"]);
    assert_eq!(text(&split_query("ÉTÉ Été")), vec!["été", "été"]);
}

#[test]
fn dot_dot_has_no_extension() {
    let idx = DocumentIndex::new("root".to_string(), exts(&[""]));
    assert!(!idx.is_indexable_file("a/.."));
    assert!(idx.is_indexable_file("a/b."));
}

#[test]
fn skipped_files_lists_unread_allowed_files() {
    let idx = DocumentIndex::new("root".to_string(), exts(&["txt"]));
    let corpus = vec![
        CorpusFile { path: "x.txt".to_string(), content: None },
        CorpusFile { path: "y.bin".to_string(), content: None },
        file("z.txt", "ok"),
    ];
    assert_eq!(idx.skipped_files(&corpus), vec!["x.txt".to_string()]);
}

#[test]
fn step_search_stops_at_limit() {
    let idx = DocumentIndex::new("root".to_string(), exts(&["txt", "md"]));
    let corpus = corpus_a();
    let mut found = Vec::new();
    assert!(!idx.search_relevant_code_step(&mut found, &corpus[0], "banana", 2));
    assert!(idx.search_relevant_code_step(&mut found, &corpus[1], "banana", 2));
    assert_eq!(found.len(), 2);
    assert!(idx.search_relevant_code_step(&mut found, &corpus[0], "banana", 2));
    assert_eq!(found.len(), 2);
    let mut one = Vec::new();
    assert!(!idx.search_relevant_code_step(&mut one, &corpus[0], "cherry", 1));
    assert!(one.is_empty());
    assert!(idx.search_relevant_code_step(&mut one, &corpus[1], "cherry", 1));
    assert_eq!(one[0].path, "root/b.md");
}

#[test]
fn query_term_length_counts_bytes() {
    let idx = DocumentIndex::new("root".to_string(), exts(&["txt"]));
    let corpus = vec![file("j.txt", "東京 です")];
    let r = idx.search_with_scoring(&corpus, "東京", 5);
    assert_eq!(r.len(), 1);
    assert_eq!(r[0].matched_terms, 1);
    assert_eq!(text(&split_query("é éa ab abc")), vec!["éa", "abc"]);
}

#[test]
fn one_line_file_window_is_clamped() {
    let idx = DocumentIndex::new("root".to_string(), exts(&["txt"]));
    let corpus = vec![file("s.txt", "only line here")];
    let r = idx.search_with_scoring(&corpus, "only", 3);
    assert_eq!(r.len(), 1);
    assert_eq!(r[0].snippet, "only line here");
}
