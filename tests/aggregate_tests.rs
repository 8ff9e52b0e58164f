use ftmi::select::select_longest_prefixes;
use ftmi::{find_common_prefix, find_longest_prefix, CommonPrefix, PrefixMode, PrefixOptions};

fn names(list: &[&str]) -> Vec<String> {
    list.iter().map(|s| s.to_string()).collect()
}

fn pair(open: &str, close: &str) -> (String, String) {
    (open.to_string(), close.to_string())
}

fn group(prefix: &str, files: &[&str]) -> CommonPrefix {
    CommonPrefix {
        prefix: prefix.to_string(),
        delimiter: None,
        occurrences: files.len(),
        files: names(files),
    }
}

fn project_dir() -> Vec<String> {
    names(&[
        "[PROJECT]_doc1.txt",
        "[PROJECT]_doc2.txt",
        "[PROJECT]_doc3.txt",
        "other.txt",
        "test_file_001.txt",
        "test_file_002.txt",
    ])
}

#[test]
fn test_find_common_prefix_delimiter_only() {
    let options = PrefixOptions {
        mode: PrefixMode::DelimiterOnly { delimiters: vec![pair("[", "]")] },
        min_occurrences: 2,
        filter_regex: None,
    };
    let results = find_common_prefix(&project_dir(), &options);

    assert_eq!(results.len(), 1);
    assert_eq!(results[0].prefix, "PROJECT");
    assert!(results[0].delimiter.is_some());
    assert_eq!(results[0].occurrences, 3);
}

#[test]
fn test_find_common_prefix_specific() {
    let files = names(&["DOC_001.pdf", "DOC_002.pdf", "IMG_001.jpg", "IMG_002.jpg", "other.txt"]);
    let options = PrefixOptions {
        mode: PrefixMode::SpecificPrefixes { prefixes: names(&["IMG_", "DOC_"]) },
        min_occurrences: 1,
        filter_regex: None,
    };
    let results = find_common_prefix(&files, &options);

    assert_eq!(results.len(), 2);
    assert!(results.iter().any(|cp| cp.prefix == "IMG_" && cp.occurrences == 2));
    assert!(results.iter().any(|cp| cp.prefix == "DOC_" && cp.occurrences == 2));
}

#[test]
fn test_find_common_prefix_detect_all() {
    let options = PrefixOptions::default();
    let results = find_common_prefix(&project_dir(), &options);

    assert!(results.iter().any(|cp| cp.prefix == "PROJECT" && cp.delimiter.is_some()));
    assert!(results.iter().any(|cp| cp.prefix.starts_with("test_file") && cp.delimiter.is_none()));
}

#[test]
fn detect_all_exact_result() {
    let results = find_common_prefix(&project_dir(), &PrefixOptions::default());
    assert_eq!(results.len(), 2);
    assert_eq!(results[0].prefix, "PROJECT");
    assert_eq!(results[0].delimiter, Some(pair("[", "]")));
    assert_eq!(results[0].occurrences, 3);
    assert_eq!(results[1].prefix, "test_file_00");
    assert_eq!(results[1].delimiter, None);
    assert_eq!(results[1].files, names(&["test_file_001.txt", "test_file_002.txt"]));
}

#[test]
fn every_group_counts_distinct_files_above_threshold() {
    let mut files = project_dir();
    files.insert(3, "[PROJECT]_doc4.txt".to_string());
    let options = PrefixOptions {
        mode: PrefixMode::DetectAll { delimiters: vec![pair("[", "]"), pair("[", "]")] },
        min_occurrences: 2,
        filter_regex: None,
    };
    let results = find_common_prefix(&files, &options);
    assert!(!results.is_empty());
    for g in &results {
        assert_eq!(g.occurrences, g.files.len());
        assert!(g.occurrences >= 2);
        for (i, a) in g.files.iter().enumerate() {
            for b in &g.files[i + 1..] {
                assert_ne!(a, b);
            }
        }
    }
    assert_eq!(results[0].occurrences, 4);
}

#[test]
fn redundant_shorter_prefix_collapses() {
    let files = names(&["img_1.txt", "img_2.txt", "img_3.txt"]);
    let results = find_common_prefix(&files, &PrefixOptions::no_filter());
    let free: Vec<&str> =
        results.iter().filter(|g| g.delimiter.is_none()).map(|g| g.prefix.as_str()).collect();
    assert_eq!(free, vec!["img_"]);
    assert_eq!(results[0].occurrences, 3);
}

#[test]
fn artist_scenario_single_delimited_group() {
    let files = names(&["[Artist] Song.mp3", "[Artist] Track2.mp3"]);
    let options = PrefixOptions {
        mode: PrefixMode::DelimiterOnly { delimiters: vec![pair("[", "]")] },
        min_occurrences: 2,
        filter_regex: None,
    };
    let results = find_common_prefix(&files, &options);
    assert_eq!(results.len(), 1);
    assert_eq!(results[0].prefix, "Artist");
    assert_eq!(results[0].delimiter, Some(pair("[", "]")));
    assert_eq!(results[0].occurrences, 2);
    assert_eq!(results[0].files, files);
}

#[test]
fn specific_prefixes_scenario_two_groups() {
    let files = names(&["DOC_1.pdf", "IMG_001.jpg", "IMG_002.jpg"]);
    let options = PrefixOptions {
        mode: PrefixMode::SpecificPrefixes { prefixes: names(&["IMG_", "DOC_"]) },
        min_occurrences: 1,
        filter_regex: None,
    };
    let results = find_common_prefix(&files, &options);
    assert_eq!(results.len(), 2);
    assert_eq!(results[0].prefix, "IMG_");
    assert_eq!(results[0].files, names(&["IMG_001.jpg", "IMG_002.jpg"]));
    assert_eq!(results[1].prefix, "DOC_");
    assert_eq!(results[1].files, names(&["DOC_1.pdf"]));
}

#[test]
fn prefix_ending_in_quote_is_dropped() {
    let files = names(&["'a1", "'a2"]);
    let options = PrefixOptions {
        mode: PrefixMode::SpecificPrefixes { prefixes: names(&["'", "'a"]) },
        min_occurrences: 2,
        filter_regex: None,
    };
    let results = find_common_prefix(&files, &options);
    assert_eq!(results.len(), 1);
    assert_eq!(results[0].prefix, "'a");
}

#[test]
fn empty_listing_gives_nothing() {
    let results = find_common_prefix(&Vec::new(), &PrefixOptions::default());
    assert!(results.is_empty());
    assert!(find_longest_prefix("/d", &Vec::new(), &PrefixOptions::default()).is_empty());
}

#[test]
fn ties_are_all_returned() {
    let groups = vec![
        group("a", &["a1", "a2", "a3", "a4", "a5"]),
        group("b", &["b1", "b2", "b3", "b4", "b5"]),
        group("c", &["c1", "c2", "c3"]),
    ];
    let best = select_longest_prefixes("/d", &groups, &None);
    assert_eq!(best.len(), 2);
    assert_eq!(best[0].prefix, "a");
    assert_eq!(best[1].prefix, "b");
    assert_eq!(best[0].paths[0], "/d/a1");
}

#[test]
fn filter_that_matches_nothing_falls_back() {
    let groups = vec![group("a", &["a1", "a2"]), group("b", &["b1"])];
    let best = select_longest_prefixes("/d/", &groups, &Some(vec![false, false]));
    assert_eq!(best.len(), 1);
    assert_eq!(best[0].prefix, "a");
    assert_eq!(best[0].paths, names(&["/d/a1", "/d/a2"]));
    let best = select_longest_prefixes("", &groups, &Some(vec![false, true]));
    assert_eq!(best.len(), 1);
    assert_eq!(best[0].prefix, "b");
    assert_eq!(best[0].paths, names(&["b1"]));
}

#[test]
fn pattern_filter_steers_the_choice() {
    let files = names(&["[A] x1.txt", "[A] x2.txt", "zz_1.txt", "zz_2.txt", "zz_3.txt"]);
    let open = find_longest_prefix("/tmp/d", &files, &PrefixOptions::no_filter());
    assert_eq!(open.len(), 1);
    assert_eq!(open[0].prefix, "zz_");
    assert_eq!(open[0].paths, names(&["/tmp/d/zz_1.txt", "/tmp/d/zz_2.txt", "/tmp/d/zz_3.txt"]));

    let bracketed = find_longest_prefix("/tmp/d", &files, &PrefixOptions::bracket_only());
    assert_eq!(bracketed.len(), 1);
    assert_eq!(bracketed[0].prefix, "A");
    assert_eq!(bracketed[0].paths, names(&["/tmp/d/[A] x1.txt", "/tmp/d/[A] x2.txt"]));

    let invalid = find_longest_prefix("/tmp/d", &files, &PrefixOptions::with_regex("(["));
    assert_eq!(invalid[0].prefix, "zz_");
}

#[test]
fn pattern_validity() {
    assert!(ftmi::pattern::pattern_is_valid(r"\[.*\]"));
    assert!(!ftmi::pattern::pattern_is_valid("(["));
}

#[test]
fn groups_compare_equal_after_clone() {
    let results = find_common_prefix(&project_dir(), &PrefixOptions::default());
    assert_eq!(results.clone(), results);
    let best = find_longest_prefix("/d", &project_dir(), &PrefixOptions::no_filter());
    assert_eq!(best.clone(), best);
}
