use bt_string_utils::count_paragraphs;
use bt_string_utils::get_first_of_split;
use bt_string_utils::is_cjk;
use bt_string_utils::remove_char;
use bt_string_utils::remove_tagged_regions;
use bt_string_utils::split_into_chunks;
use bt_string_utils::split_upto_n_by_word;
use bt_string_utils::word_count;

#[test]
fn cjk_classification() {
    assert!(is_cjk('你'));
    assert!(is_cjk('界'));
    assert!(is_cjk('字'));
    assert!(!is_cjk('a'));
    assert!(!is_cjk('🙂'));
    assert!(!is_cjk(' '));
}

#[test]
fn cjk_characters_count_individually() {
    assert_eq!(word_count("你好世界"), 4);
    assert_eq!(word_count("你好 world"), 3);
}

#[test]
fn punctuation_only_token_counts_nothing() {
    assert_eq!(word_count("!!! ???"), 0);
    assert_eq!(word_count("... hello ..."), 1);
}

#[test]
fn split_words_empty_input() {
    let pieces = split_upto_n_by_word("", 3);
    assert_eq!(pieces.len(), 0);
    let blank = split_upto_n_by_word("   ", 2);
    assert_eq!(blank.len(), 0);
}

#[test]
fn split_words_piece_count_is_min() {
    assert_eq!(split_upto_n_by_word("one two three four", 2).len(), 2);
    assert_eq!(split_upto_n_by_word("one two", 5).len(), 2);
    assert_eq!(split_upto_n_by_word("one", 1).len(), 1);
}

#[test]
fn split_words_even_groups() {
    let pieces = split_upto_n_by_word("one two three four", 2);
    assert_eq!(pieces, vec!["one two".to_string(), " three four".to_string()]);
}

#[test]
fn split_words_uneven_groups() {
    let pieces = split_upto_n_by_word("a b c", 2);
    assert_eq!(pieces, vec!["a".to_string(), " b c".to_string()]);
}

#[test]
fn split_words_one_piece_keeps_text_up_to_last_word() {
    let pieces = split_upto_n_by_word("  hello world  ", 1);
    assert_eq!(pieces, vec!["  hello world".to_string()]);
    let exact = split_upto_n_by_word("hello world", 1);
    assert_eq!(exact, vec!["hello world".to_string()]);
}

#[test]
fn split_words_more_pieces_than_words() {
    let pieces = split_upto_n_by_word("a b", 5);
    assert_eq!(pieces, vec!["a".to_string(), " b".to_string()]);
}

#[test]
fn split_words_concatenation_restores_text() {
    let text = "alpha  beta\tgamma delta epsilon";
    let pieces = split_upto_n_by_word(text, 3);
    let rebuilt: String = pieces.concat();
    assert_eq!(rebuilt, text);
}

#[test]
fn strip_tags_basic() {
    assert_eq!(
        remove_tagged_regions("Hello <t>secret</t> world", "<t>", "</t>"),
        "Hello  world"
    );
}

#[test]
fn strip_tags_unmatched_open_drops_remainder() {
    assert_eq!(
        remove_tagged_regions("before <t>unfinished", "<t>", "</t>"),
        "before "
    );
}

#[test]
fn strip_tags_nested_regions() {
    assert_eq!(
        remove_tagged_regions("a<t>b<t>c</t>d</t>e", "<t>", "</t>"),
        "ae"
    );
}

#[test]
fn strip_tags_without_markers_is_identity() {
    assert_eq!(
        remove_tagged_regions("nothing to do here", "<t>", "</t>"),
        "nothing to do here"
    );
}

#[test]
fn strip_tags_rerun_on_output_is_noop() {
    let once = remove_tagged_regions("Hello <t>secret</t> world", "<t>", "</t>");
    let twice = remove_tagged_regions(&once, "<t>", "</t>");
    assert_eq!(twice, once);
}

#[test]
fn strip_tags_close_marker_outside_region_is_literal() {
    assert_eq!(
        remove_tagged_regions("x</t>y", "<t>", "</t>"),
        "x</t>y"
    );
}

#[test]
fn strip_tags_empty_open_marker_removes_everything() {
    assert_eq!(remove_tagged_regions("abc", "", "x"), "");
}

#[test]
fn strip_tags_empty_close_marker_closes_at_once() {
    // An empty close marker matches right after the open marker, so only
    // the open markers themselves are removed.
    assert_eq!(remove_tagged_regions("a<t>bc", "<t>", ""), "abc");
}

#[test]
fn strip_tags_multibyte_text() {
    assert_eq!(
        remove_tagged_regions("héllo <t>sécret</t>!", "<t>", "</t>"),
        "héllo !"
    );
}

#[test]
fn chunks_tiny_budget_advances_one_character() {
    let chunks = split_into_chunks("héé", 1);
    assert_eq!(chunks, vec!["h".to_string(), "é".to_string(), "é".to_string()]);
}

#[test]
fn chunks_zero_budget_still_terminates() {
    let chunks = split_into_chunks("ab", 0);
    assert_eq!(chunks, vec!["a".to_string(), "b".to_string()]);
}

#[test]
fn chunks_exact_multibyte_boundary() {
    let chunks = split_into_chunks("字字", 3);
    assert_eq!(chunks, vec!["字".to_string(), "字".to_string()]);
}

#[test]
fn chunks_concatenation_restores_text() {
    let text = "mixé 字 🙂 text";
    let chunks = split_into_chunks(text, 4);
    let rebuilt: String = chunks.concat();
    assert_eq!(rebuilt, text);
    for c in &chunks {
        assert!(c.len() <= 4);
    }
}

#[test]
fn first_split_skips_one_character_of_separator() {
    let (a, b) = get_first_of_split("a::b", "::");
    assert_eq!(a, "a");
    assert_eq!(b, ":b");
}

#[test]
fn remove_char_multibyte() {
    assert_eq!(remove_char(false, "café".to_string(), 'é'), "caf");
    assert_eq!(remove_char(true, "ému".to_string(), 'é'), "mu");
}

#[test]
fn paragraphs_leading_newline_counts_breaks_only() {
    // A document that opens with a break has as many paragraphs as breaks.
    assert_eq!(count_paragraphs("\nHello"), 1);
    assert_eq!(count_paragraphs("\n\nHello"), 2);
}
