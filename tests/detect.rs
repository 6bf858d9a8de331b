use equals::detect::{
    detect_markdown_language, guess_language_from_path, is_markdown_path, matches_ignore_case,
};

#[test]
fn detect_python_extension() {
    assert_eq!(guess_language_from_path("script.py"), Some("python"));
    assert_eq!(guess_language_from_path("script.PYW"), Some("python"));
}

#[test]
fn detect_numbat_extension() {
    assert_eq!(guess_language_from_path("calc.nbt"), Some("numbat"));
    assert_eq!(guess_language_from_path("calc.NB"), Some("numbat"));
}

#[test]
fn detect_fend_extension() {
    assert_eq!(guess_language_from_path("notes.fend"), Some("fend"));
    assert_eq!(guess_language_from_path("notes.FD"), Some("fend"));
}

#[test]
fn unknown_extension_returns_none() {
    assert_eq!(guess_language_from_path("notes.txt"), None);
}

#[test]
fn detects_markdown_path_variants() {
    assert!(is_markdown_path("guide.md"));
    assert!(is_markdown_path("guide.MarkDown"));
    assert!(is_markdown_path("notes.mdown"));
    assert!(!is_markdown_path("script.py"));
}

#[test]
fn detect_markdown_language_from_fence() {
    let doc = r#"
Some text
```python
print("hi")
```
"#;
    assert_eq!(detect_markdown_language(doc), Some("python"));
}

#[test]
fn detect_markdown_language_ignores_unknown() {
    let doc = r#"
```
no language
```
```lolcode
hi
```
```numbat
let x = 2
```
"#;
    assert_eq!(detect_markdown_language(doc), Some("numbat"));
}

#[test]
fn extension_edge_cases() {
    assert_eq!(guess_language_from_path("dir.py/notes"), None);
    assert_eq!(guess_language_from_path(".py"), None);
    assert_eq!(guess_language_from_path("a/b/run.Py"), Some("python"));
    assert!(!is_markdown_path("README"));
    assert!(is_markdown_path("docs/x.MKD"));
}

#[test]
fn fence_tags_are_case_insensitive_and_py_means_python() {
    assert_eq!(detect_markdown_language("```PY\nx\n```"), Some("python"));
    assert_eq!(detect_markdown_language("  ```Fend extra"), Some("fend"));
    assert_eq!(detect_markdown_language("no fences here"), None);
}

#[test]
fn matches_ignore_case_compares_whole_names() {
    assert!(matches_ignore_case("MarkDown", &["md", "markdown"]));
    assert!(!matches_ignore_case("mark", &["md", "markdown"]));
    assert!(!matches_ignore_case("md", &[]));
}

#[test]
fn trailing_dot_components_are_not_the_file_name() {
    assert_eq!(guess_language_from_path("foo.py/."), Some("python"));
    assert_eq!(guess_language_from_path("foo.nb/./"), Some("numbat"));
    assert_eq!(guess_language_from_path("."), None);
    assert_eq!(guess_language_from_path("dir/.."), None);
}
