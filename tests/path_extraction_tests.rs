use ftmi::path_extraction::{is_subpath_of, normalize_path};
use ftmi::{deduplicate_paths, extract_paths_from_text};
use std::collections::BTreeSet;

fn run_extraction(input: &str) -> String {
    extract_paths_from_text(input).join("\n")
}

#[test]
fn test_normalize_path() {
    assert_eq!(normalize_path("/home/user/"), "/home/user");
    assert_eq!(normalize_path("/home/user"), "/home/user");
    assert_eq!(normalize_path("C:\\Users\\test"), "C:/Users/test");
    assert_eq!(normalize_path("C:\\Users\\test\\"), "C:/Users/test");
    assert_eq!(normalize_path("\\\\server\\share\\"), "//server/share");
}

#[test]
fn test_is_subpath_of() {
    assert!(is_subpath_of("/home", "/home/user"));
    assert!(is_subpath_of("/home/user", "/home/user/documents"));
    assert!(!is_subpath_of("/home/user", "/home/user"));
    assert!(!is_subpath_of("/home/user2", "/home/user"));
    assert!(!is_subpath_of("/usr", "/home/user"));

    assert!(is_subpath_of("C:\\Users", "C:\\Users\\test"));
    assert!(is_subpath_of("C:/Users", "C:\\Users\\test\\file.txt"));
    assert!(!is_subpath_of("C:\\Users\\test2", "C:\\Users\\test"));

    assert!(!is_subpath_of("/home/user", "/home/username"));
    assert!(!is_subpath_of("/home/use", "/home/user"));
}

#[test]
fn test_deduplicate_paths() {
    let mut paths = BTreeSet::new();
    paths.insert("/home/user".to_string());
    paths.insert("/home/user/documents".to_string());
    paths.insert("/home/user/documents/report.pdf".to_string());
    paths.insert("/usr/bin".to_string());
    paths.insert("/usr/bin/ls".to_string());

    let result = deduplicate_paths(paths.into_iter().collect());
    assert_eq!(result.len(), 2);
    assert!(result.contains(&"/home/user/documents/report.pdf".to_string()));
    assert!(result.contains(&"/usr/bin/ls".to_string()));
}

#[test]
fn test_deduplicate_paths_windows() {
    let mut paths = BTreeSet::new();
    paths.insert("C:\\Users".to_string());
    paths.insert("C:\\Users\\test".to_string());
    paths.insert("C:\\Users\\test\\Documents".to_string());
    paths.insert("C:\\Program Files".to_string());

    let result = deduplicate_paths(paths.into_iter().collect());
    assert_eq!(result.len(), 2);
    assert!(result.contains(&"C:\\Users\\test\\Documents".to_string()));
    assert!(result.contains(&"C:\\Program Files".to_string()));
}

#[test]
fn test_deduplicate_paths_mixed() {
    let mut paths = BTreeSet::new();
    paths.insert("/home/user".to_string());
    paths.insert("/home/user/project".to_string());
    paths.insert("./relative/path".to_string());
    paths.insert("./relative/path/file.txt".to_string());
    paths.insert("C:\\Windows".to_string());
    paths.insert("C:\\Windows\\System32".to_string());

    let result = deduplicate_paths(paths.into_iter().collect());
    assert_eq!(result.len(), 3);
    assert!(result.contains(&"/home/user/project".to_string()));
    assert!(result.contains(&"./relative/path/file.txt".to_string()));
    assert!(result.contains(&"C:\\Windows\\System32".to_string()));
}

#[test]
fn test_extract_paths_from_text() {
    let text = "Check /home/user/test.txt and /home/user for files";
    let paths = extract_paths_from_text(text);
    assert_eq!(paths, vec!["/home/user/test.txt"]);

    let text = r#"Files at "C:\Users\test\doc.pdf" and /usr/bin/app"#;
    let paths = extract_paths_from_text(text);
    assert_eq!(paths.len(), 2);
    assert!(paths.contains(&"C:\\Users\\test\\doc.pdf".to_string()));
    assert!(paths.contains(&"/usr/bin/app".to_string()));
}

#[test]
fn test_simple_path_extraction() {
    let output = run_extraction("Found file at /home/user/test.txt");
    assert_eq!(output.trim(), "/home/user/test.txt");
}

#[test]
fn test_subpath_deduplication() {
    let input = "Found /home/user/documents/report.pdf and /home/user/documents";
    let output = run_extraction(input);
    assert_eq!(output.trim(), "/home/user/documents/report.pdf");
}

#[test]
fn test_multiple_paths() {
    let input = r#"Check /usr/bin/ls and /etc/config files"#;
    let output = run_extraction(input);
    let lines: Vec<&str> = output.trim().split('\n').collect();
    assert_eq!(lines.len(), 2);
    assert!(lines.contains(&"/etc/config"));
    assert!(lines.contains(&"/usr/bin/ls"));
}

#[test]
fn test_windows_paths() {
    let input = r#"File at "C:\Users\test\file.txt" exists"#;
    let output = run_extraction(input);
    assert_eq!(output.trim(), r"C:\Users\test\file.txt");
}

#[test]
fn test_relative_paths() {
    let input = "Run ./scripts/build.sh and check ../config/settings.json";
    let output = run_extraction(input);
    let lines: Vec<&str> = output.trim().split('\n').filter(|s| !s.is_empty()).collect();
    assert_eq!(lines.len(), 2);
    assert!(lines.contains(&"../config/settings.json"));
    assert!(lines.contains(&"./scripts/build.sh"));
}

#[test]
fn test_unc_paths() {
    let input = r#"Access "\\server\share\file.txt" on network"#;
    let output = run_extraction(input);
    assert_eq!(output.trim(), r"\\server\share\file.txt");
}

#[test]
fn test_mixed_path_types() {
    let input = r#"Files: /home/user/doc.txt, "C:\Windows\System32", ./local/file.sh"#;
    let output = run_extraction(input);
    let lines: Vec<&str> = output.trim().split('\n').collect();
    assert_eq!(lines.len(), 3);
    assert!(lines.contains(&"./local/file.sh"));
    assert!(lines.contains(&"/home/user/doc.txt,"));
    assert!(lines.contains(&r"C:\Windows\System32"));
}

#[test]
fn test_nested_paths_deduplication() {
    let input = "Paths found:\n/home/user\n/home/user/project\n/home/user/project/src\n/home/user/project/src/main.rs\n/home/other/file.txt";
    let output = run_extraction(input);
    let lines: Vec<&str> = output.trim().split('\n').collect();
    assert_eq!(lines.len(), 2);
    assert!(lines.contains(&"/home/other/file.txt"));
    assert!(lines.contains(&"/home/user/project/src/main.rs"));
}

#[test]
fn test_empty_input() {
    let output = run_extraction("");
    assert_eq!(output.trim(), "");
}

#[test]
fn test_no_paths() {
    let output = run_extraction("This text contains no valid paths");
    assert_eq!(output.trim(), "");
}

#[test]
fn deduplicated_paths_come_out_sorted_and_once() {
    let input = names(&["/b/x", "/a/y", "/b/x", "/a"]);
    assert_eq!(deduplicate_paths(input), names(&["/a/y", "/b/x"]));
}

#[test]
fn lines_end_at_newline_and_carriage_return() {
    let paths = extract_paths_from_text("/one/a\r\n/two/b\n");
    assert_eq!(paths, names(&["/one/a", "/two/b"]));
    let lines = ftmi::path_extraction::text_lines("a\r\n\nb\n");
    assert_eq!(lines, names(&["a", "", "b"]));
}

fn names(list: &[&str]) -> Vec<String> {
    list.iter().map(|s| s.to_string()).collect()
}
