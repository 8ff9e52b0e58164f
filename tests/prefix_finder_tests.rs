use ftmi::prefix_finder::{
    extract_prefix_with_delimiter, generate_prefix_candidates, remove_bracket_prefix,
};
use ftmi::{
    extract_prefix_from_filename, remove_prefix, remove_prefix_with_delimiter, PrefixMode,
    PrefixOptions,
};

fn pair(open: &str, close: &str) -> (String, String) {
    (open.to_string(), close.to_string())
}

#[test]
fn interactive_rename_test_remove_bracket_prefix() {
    assert_eq!(remove_bracket_prefix("[Artist] Song.mp3", "Artist"), "Song.mp3");
    assert_eq!(remove_bracket_prefix("[The Beatles] Hey Jude.mp3", "The Beatles"), "Hey Jude.mp3");
    assert_eq!(remove_bracket_prefix("[Artist]_Song.mp3", "Artist"), "Song.mp3");
    assert_eq!(remove_bracket_prefix("[Artist] - Song.mp3", "Artist"), "- Song.mp3");
    assert_eq!(remove_bracket_prefix("No Prefix Song.mp3", "Artist"), "No Prefix Song.mp3");
}

#[test]
fn rename_test_remove_bracket_prefix() {
    assert_eq!(remove_bracket_prefix("[Artist] Song.mp3", "Artist"), "Song.mp3");
    assert_eq!(remove_bracket_prefix("[The Beatles] Hey Jude.mp3", "The Beatles"), "Hey Jude.mp3");
    assert_eq!(remove_bracket_prefix("[Artist]_Song.mp3", "Artist"), "Song.mp3");
    assert_eq!(remove_bracket_prefix("[Artist] - Song.mp3", "Artist"), "- Song.mp3");
    assert_eq!(remove_bracket_prefix("No Prefix Song.mp3", "Artist"), "No Prefix Song.mp3");
}

#[test]
fn test_extract_prefix_with_delimiter() {
    assert_eq!(
        extract_prefix_with_delimiter("file[prefix]_001.txt", "[", "]"),
        Some("prefix".to_string())
    );
    assert_eq!(extract_prefix_with_delimiter("(TEST)_file.pdf", "(", ")"), Some("TEST".to_string()));
    assert_eq!(extract_prefix_with_delimiter("no_delimiter.txt", "[", "]"), None);
}

#[test]
fn test_generate_prefix_candidates() {
    let candidates = generate_prefix_candidates("test_file_001.txt");
    assert!(candidates.contains(&"test".to_string()));
    assert!(candidates.contains(&"test_file".to_string()));

    let candidates = generate_prefix_candidates("prefix-document.pdf");
    assert!(candidates.contains(&"prefix".to_string()));
}

#[test]
fn test_extract_prefix_from_filename() {
    let options = PrefixOptions {
        mode: PrefixMode::DelimiterOnly { delimiters: vec![pair("[", "]")] },
        min_occurrences: 1,
        filter_regex: None,
    };

    let result = extract_prefix_from_filename("[Artist] Song.mp3", &options);
    assert_eq!(result, Some(("Artist".to_string(), "Song.mp3".to_string())));

    let result = extract_prefix_from_filename("No Delimiter Song.mp3", &options);
    assert_eq!(result, None);
}

#[test]
fn test_extract_prefix_specific() {
    let options = PrefixOptions {
        mode: PrefixMode::SpecificPrefixes { prefixes: vec!["IMG_".to_string(), "DOC_".to_string()] },
        min_occurrences: 1,
        filter_regex: None,
    };

    let result = extract_prefix_from_filename("IMG_001.jpg", &options);
    assert_eq!(result, Some(("IMG_".to_string(), "001.jpg".to_string())));

    let result = extract_prefix_from_filename("DOC_report.pdf", &options);
    assert_eq!(result, Some(("DOC_".to_string(), "report.pdf".to_string())));

    let result = extract_prefix_from_filename("OTHER_file.txt", &options);
    assert_eq!(result, None);
}

#[test]
fn test_remove_prefix() {
    assert_eq!(remove_prefix("IMG_001.jpg", "IMG_"), "001.jpg");
    assert_eq!(remove_prefix("test_file.txt", "test_"), "file.txt");
    assert_eq!(remove_prefix("no_match.txt", "IMG_"), "no_match.txt");
}

#[test]
fn test_remove_prefix_with_delimiter() {
    assert_eq!(remove_prefix_with_delimiter("[Artist] Song.mp3", "Artist", "[", "]"), "Song.mp3");
    assert_eq!(
        remove_prefix_with_delimiter("(Draft) Document.pdf", "Draft", "(", ")"),
        "Document.pdf"
    );
    assert_eq!(remove_prefix_with_delimiter("No Match.txt", "Artist", "[", "]"), "No Match.txt");
}

#[test]
fn delimiter_extraction_takes_first_markers_unbalanced() {
    assert_eq!(extract_prefix_with_delimiter("a[b[c]d]", "[", "]"), Some("b[c".to_string()));
    assert_eq!(extract_prefix_with_delimiter("[]x", "[", "]"), None);
    assert_eq!(extract_prefix_with_delimiter("x]y[", "[", "]"), None);
    assert_eq!(extract_prefix_with_delimiter("<<ab>>c", "<<", ">>"), Some("ab".to_string()));
}

#[test]
fn candidates_exact_list() {
    let c = generate_prefix_candidates("ab_c.txt");
    assert_eq!(c, vec!["ab".to_string(), "ab".to_string(), "ab_".to_string()]);
    let c = generate_prefix_candidates("x(y_z");
    assert_eq!(c, vec!["x(y".to_string(), "x(y".to_string(), "x(y_".to_string()]);
    assert!(generate_prefix_candidates("ab").is_empty());
}

#[test]
fn candidates_stop_below_twenty_characters() {
    let c = generate_prefix_candidates("abcdefghijklmnopqrstuvwxyz");
    assert_eq!(c.len(), 18);
    assert_eq!(c[0], "ab");
    assert_eq!(c[17], "abcdefghijklmnopqrs");
}

#[test]
fn removal_trims_all_white_space_kinds() {
    assert_eq!(remove_prefix("IMG_\t\u{a0} x.jpg", "IMG_"), "x.jpg");
    assert_eq!(remove_bracket_prefix("[A]_ _-x", "A"), "-x");
}

#[test]
fn delimiter_removal_twice_equals_once() {
    let once = remove_prefix_with_delimiter("[Artist] Song.mp3", "Artist", "[", "]");
    let twice = remove_prefix_with_delimiter(&once, "Artist", "[", "]");
    assert_eq!(once, twice);
    let once = remove_prefix_with_delimiter("[A] [A] x", "A", "[", "]");
    assert_eq!(once, "[A] x");
}

#[test]
fn default_options_are_standard() {
    let o = PrefixOptions::default();
    assert_eq!(o.min_occurrences, 2);
    assert_eq!(o.filter_regex, Some(r"\[.*\]".to_string()));
    match o.mode {
        PrefixMode::DetectAll { delimiters } => assert_eq!(delimiters.len(), 5),
        _ => panic!("default mode is DetectAll"),
    }
    assert_eq!(PrefixOptions::no_filter().filter_regex, None);
    assert_eq!(PrefixOptions::paren_only().filter_regex, Some(r"\(.*\)".to_string()));
    assert_eq!(PrefixOptions::bracket_only().filter_regex, Some(r"\[.*\]".to_string()));
    assert_eq!(PrefixOptions::with_regex("IMG_.*").filter_regex, Some("IMG_.*".to_string()));
}

#[test]
fn bracket_removal_twice_equals_once() {
    let once = remove_bracket_prefix("[A]_ x.mp3", "A");
    assert_eq!(remove_bracket_prefix(&once, "A"), once);
    assert_eq!(remove_bracket_prefix("[A]_[A] x", "A"), "[A] x");
}
