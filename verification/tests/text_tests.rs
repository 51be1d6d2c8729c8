use data_pipeline::text::{get_emoticon_map, TextCleaner};

#[test]
fn emoticon_map_matches_table_size() {
    let m = get_emoticon_map();
    assert_eq!(m.len(), 37);
    assert_eq!(m[0], (" :)", " happy"));
    assert_eq!(m[1], (" :(", " sad"));
}

#[test]
fn emoticons_are_spelled_out() {
    let cleaner = TextCleaner::default();
    assert_eq!(cleaner.clean_emoticons("hi :)"), "hi happy");
    assert_eq!(cleaner.clean_emoticons("so :( now"), "so sad now");
    assert_eq!(cleaner.clean_emoticons("nothing here"), "nothing here");
}

#[test]
fn links_are_stripped() {
    let cleaner = TextCleaner::default();
    assert_eq!(
        cleaner.clean_links("see https://example.com/x now"),
        "see  now"
    );
    assert_eq!(cleaner.clean_links("go www.site.org!"), "go ");
    assert_eq!(cleaner.clean_links("no links"), "no links");
}

#[test]
fn short_words_are_dropped() {
    let cleaner = TextCleaner::default();
    assert_eq!(cleaner.clean_short_words("ab abc a abcd"), "abc abcd");
    assert_eq!(cleaner.clean_short_words("  spaced   out  "), "spaced out");
    assert_eq!(cleaner.clean_short_words("a b"), "");
}

#[test]
fn invalid_chars_are_removed() {
    let cleaner = TextCleaner::default();
    assert_eq!(cleaner.clean_invalid_chars("ab1 c!"), "ab c");
    assert_eq!(cleaner.clean_invalid_chars("123"), "");
    assert_eq!(cleaner.clean_invalid_chars("plain words"), "plain words");
}

#[test]
fn repeat_chars_are_squeezed() {
    let cleaner = TextCleaner::default();
    assert_eq!(cleaner.clean_repeat_chars("aaab  b"), "aab b");
    assert_eq!(cleaner.clean_repeat_chars("x"), "x");
    assert_eq!(cleaner.clean_repeat_chars(""), "");
    assert_eq!(cleaner.clean_repeat_chars("noooo   way"), "noo way");
}

#[test]
fn clean_runs_the_whole_pipeline() {
    let cleaner = TextCleaner::default();
    assert_eq!(cleaner.clean("Hello WORLD :)"), "hello world happy");
    assert_eq!(
        cleaner.clean("Visit www.example.com :D now!!!!"),
        "visit very happy now"
    );
    assert_eq!(cleaner.clean(""), "");
}
