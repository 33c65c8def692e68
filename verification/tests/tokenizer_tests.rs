use wikifreq::chars::chars_of;
use wikifreq::tokenizer::tokenize_chars;
use wikifreq::strip::wikitext_words;
use wikifreq::extract::scan_words;

fn toks(s: &str) -> Vec<String> {
    tokenize_chars(&chars_of(s))
}

#[test]
fn plain_words_are_lowercased_and_filtered() {
    assert_eq!(toks("The cat sat"), vec!["the", "cat", "sat"]);
}

#[test]
fn joined_word_is_one_token() {
    assert_eq!(toks("dog-dog's"), vec!["dogdogs"]);
    assert_eq!(toks("U.S.A"), vec!["usa"]);
}

#[test]
fn digits_only_match_emits_nothing() {
    assert_eq!(toks("123 cat 456"), vec!["cat"]);
}

#[test]
fn template_interior_contributes_no_tokens() {
    assert_eq!(toks("{{infobox secret words}} cat"), vec!["cat"]);
    assert_eq!(toks("cat {{a}} dog"), vec!["cat", "dog"]);
}

#[test]
fn link_interior_is_skipped() {
    assert_eq!(toks("[hidden link] cat"), vec!["cat"]);
}

#[test]
fn table_opener_is_skipped() {
    assert_eq!(toks("{| cat"), vec!["cat"]);
}

#[test]
fn redirect_marker_is_skipped() {
    assert_eq!(toks("#REDIRECT cat"), vec!["cat"]);
    assert_eq!(toks("#redirect cat"), vec!["cat"]);
}

#[test]
fn url_contributes_no_tokens() {
    assert_eq!(toks("see https://example.com/page cat"), vec!["see", "cat"]);
    assert_eq!(toks("http://a.b cat"), vec!["cat"]);
}

#[test]
fn see_also_heading_discards_the_rest() {
    assert_eq!(toks("cat ==See Also== dog"), vec!["cat"]);
}

#[test]
fn external_links_heading_discards_the_rest() {
    assert_eq!(toks("cat == External Links == dog"), vec!["cat"]);
}

#[test]
fn tokenizing_twice_gives_identical_sequences() {
    let text = "The cat {{x}} sat [y] on http://a.b the mat ==See Also== gone";
    let first = toks(text);
    let second = toks(text);
    assert_eq!(first, second);
}

#[test]
fn html_tags_are_stripped_before_scanning() {
    let words = wikitext_words("<b>cat</b> dog");
    assert_eq!(words, vec!["cat", "dog"]);
}

#[test]
fn wikitext_words_applies_skip_rules() {
    let words = wikitext_words("{{tmpl}} cat ==See Also== dog");
    assert_eq!(words, vec!["cat"]);
}

#[test]
fn word_scan_ignores_skip_rules() {
    let words = scan_words("{{tmpl}} cat");
    assert_eq!(words, vec!["tmpl", "cat"]);
}
