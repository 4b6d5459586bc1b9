use fuzzy_search::distance::{levenshtein_distance, min3};
use fuzzy_search::hit::Hit;
use fuzzy_search::search::{search_files, search_text};
use fuzzy_search::text::{split_lines, split_tokens};

fn fixture() -> Vec<(String, String)> {
    vec![("./tests/hello.txt".to_string(), "Hello World!\n".to_string())]
}

fn rendered(hits: &[Hit]) -> Vec<String> {
    hits.iter().map(|h| h.render()).collect()
}

#[test]
fn distance() {
    assert_eq!(
        levenshtein_distance(&"Hello".to_string(), &"Hello".to_string()),
        0
    );
    assert_eq!(
        levenshtein_distance(&"Helo".to_string(), &"Hello".to_string()),
        1
    );
    assert_eq!(
        levenshtein_distance(&"ello".to_string(), &"Hello".to_string()),
        1
    );
    assert_eq!(
        levenshtein_distance(&"Heo".to_string(), &"Hello".to_string()),
        2
    );
}

#[test]
fn basic_distance() {
    assert_eq!(levenshtein_distance("Hello", "Hello"), 0);
    assert_eq!(levenshtein_distance("Helo", "Hello"), 1);
    assert_eq!(levenshtein_distance("ello", "Hello"), 1);
    assert_eq!(levenshtein_distance("Heo", "Hello"), 2);
}

#[test]
fn complex_distance() {
    assert_eq!(levenshtein_distance("kitten", "sitting"), 3);
    assert_eq!(levenshtein_distance("sunday", "saturday"), 3);
    assert_eq!(levenshtein_distance("manual", "="), 6);
}

#[test]
fn edgecases() {
    assert_eq!(levenshtein_distance("", ""), 0);
    assert_eq!(levenshtein_distance("Apple", ""), 5);
    assert_eq!(levenshtein_distance("", "Apple"), 5);
    assert_eq!(levenshtein_distance("a", "a"), 0);
    assert_eq!(levenshtein_distance("", "a"), 1);
    assert_eq!(levenshtein_distance("a", ""), 1);
    assert_eq!(levenshtein_distance("A", "Apple"), 4);
}

#[test]
fn test_unicode() {
    assert_eq!(levenshtein_distance("😀", "😀"), 0);
    assert_eq!(levenshtein_distance("😀", "😀😁"), 1);
    assert_eq!(levenshtein_distance("😀🙂", "😀😁🙂"), 1);
}

#[test]
fn distance_symmetry_samples() {
    assert_eq!(
        levenshtein_distance("kitten", "sitting"),
        levenshtein_distance("sitting", "kitten")
    );
    assert_eq!(
        levenshtein_distance("manual", "="),
        levenshtein_distance("=", "manual")
    );
}

#[test]
fn min3_picks_smallest() {
    assert_eq!(min3(3, 1, 2), 1);
    assert_eq!(min3(0, 5, 5), 0);
    assert_eq!(min3(7, 7, 4), 4);
}

#[test]
fn it_works() {
    let results = search_files(&fixture(), "Hello", 2);
    assert_eq!(results[0].render(), "./tests/hello.txt:1\tHello");
}

#[test]
fn fuzzier() {
    let results = search_files(&fixture(), "Hell", 2);
    assert_eq!(results[0].render(), "./tests/hello.txt:1\tHello");

    let results = search_files(&fixture(), "World!", 2);
    assert_eq!(results[0].render(), "./tests/hello.txt:1\tWorld!");
}

#[test]
fn cases() {
    let results = search_files(&fixture(), "hello", 2);
    assert_eq!(results[0].render(), "./tests/hello.txt:1\tHello");
}

#[test]
fn threshold_is_exclusive() {
    // at threshold 1 a single edit already disqualifies a token
    let files = vec![("f".to_string(), "Helo Hello hello".to_string())];
    let results = search_files(&files, "Hello", 1);
    assert_eq!(rendered(&results), vec!["f:1\tHello".to_string()]);
    // at threshold 0 nothing matches, not even equality
    let results = search_files(&files, "Hello", 0);
    assert!(results.is_empty());
}

#[test]
fn empty_target_matches_short_tokens() {
    let files = vec![("f".to_string(), "ab abc a".to_string())];
    let results = search_files(&files, "", 3);
    assert_eq!(
        rendered(&results),
        vec!["f:1\tab".to_string(), "f:1\ta".to_string()]
    );
}

#[test]
fn line_numbers_and_crlf() {
    let files = vec![("dir/x".to_string(), "Hello\r\nWorld\nHello".to_string())];
    let results = search_files(&files, "Hello", 1);
    assert_eq!(
        rendered(&results),
        vec!["dir/x:1\tHello".to_string(), "dir/x:3\tHello".to_string()]
    );
}

#[test]
fn multiple_files_in_given_order() {
    let files = vec![
        ("b.txt".to_string(), "one\n".to_string()),
        ("a.txt".to_string(), "one two\n".to_string()),
    ];
    let results = search_files(&files, "one", 1);
    assert_eq!(
        rendered(&results),
        vec!["b.txt:1\tone".to_string(), "a.txt:1\tone".to_string()]
    );
}

#[test]
fn repeated_search_is_stable() {
    let files = fixture();
    let first = rendered(&search_files(&files, "Hello", 2));
    let second = rendered(&search_files(&files, "Hello", 2));
    assert_eq!(first, second);
}

#[test]
fn file_order_changes_only_the_order() {
    let files = vec![
        ("a".to_string(), "kitten\n".to_string()),
        ("b".to_string(), "sitten\n".to_string()),
    ];
    let swapped = vec![files[1].clone(), files[0].clone()];
    let mut one = rendered(&search_files(&files, "sitten", 2));
    let mut two = rendered(&search_files(&swapped, "sitten", 2));
    one.sort();
    two.sort();
    assert_eq!(one, two);
}

#[test]
fn no_files_no_hits() {
    let files: Vec<(String, String)> = Vec::new();
    let results = search_files(&files, "anything", 10);
    assert!(results.is_empty());
}

#[test]
fn search_text_single_file() {
    let results = search_text("notes.md", "foo bar\nbaz foo", "foo", 1);
    assert_eq!(
        rendered(&results),
        vec!["notes.md:1\tfoo".to_string(), "notes.md:2\tfoo".to_string()]
    );
}

#[test]
fn hit_rendering() {
    let h = Hit::new("token".to_string(), "a.txt".to_string(), 7);
    assert_eq!(h.render(), "a.txt:7\ttoken");
    let h = Hit::new("x".to_string(), "p/q".to_string(), 120);
    assert_eq!(h.render(), "p/q:120\tx");
}

#[test]
fn tokenization() {
    assert_eq!(
        split_tokens("  a\tbc   d "),
        vec!["a".to_string(), "bc".to_string(), "d".to_string()]
    );
    assert_eq!(split_tokens(""), Vec::<String>::new());
    assert_eq!(split_tokens(" \t "), Vec::<String>::new());
}

#[test]
fn line_splitting() {
    assert_eq!(
        split_lines("a\nb\nc"),
        vec!["a".to_string(), "b".to_string(), "c".to_string()]
    );
    // a trailing newline produces no phantom empty line
    assert_eq!(split_lines("a\n"), vec!["a".to_string()]);
    assert_eq!(split_lines(""), Vec::<String>::new());
    assert_eq!(
        split_lines("a\r\n\nb"),
        vec!["a".to_string(), "".to_string(), "b".to_string()]
    );
    // a lone carriage return is not a line ending
    assert_eq!(split_lines("a\r"), vec!["a\r".to_string()]);
}
