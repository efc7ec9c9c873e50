use gaia_ai_agent_template::extract::extract;

fn reqs(items: &[&str]) -> Vec<String> {
    items.iter().map(|s| s.to_string()).collect()
}

#[test]
fn finds_the_url_line_and_trims_it() {
    let text = "line1\nPlease visit https://foo.example.gaianet.xyz/chat now\nline3";
    let required = reqs(&["https://", "gaianet.xyz"]);
    let line = extract(text, &required).unwrap();
    assert_eq!(line, "Please visit https://foo.example.gaianet.xyz/chat now");
}

#[test]
fn returns_the_first_matching_line_in_document_order() {
    let text = "x\nfirst https://a.gaianet.xyz\nsecond https://b.gaianet.xyz\n";
    let required = reqs(&["https://", "gaianet.xyz"]);
    let line = extract(text, &required).unwrap();
    assert_eq!(line, "first https://a.gaianet.xyz");
}

#[test]
fn trims_surrounding_whitespace() {
    let text = "\t   https://x.gaianet.xyz   \r\nother";
    let required = reqs(&["https://", "gaianet.xyz"]);
    let line = extract(text, &required).unwrap();
    assert_eq!(line, "https://x.gaianet.xyz");
}

#[test]
fn trims_unicode_whitespace() {
    let text = "\u{a0}\u{2003}https://x.gaianet.xyz\u{a0}\nother";
    let required = reqs(&["https://", "gaianet.xyz"]);
    let line = extract(text, &required).unwrap();
    assert_eq!(line, "https://x.gaianet.xyz");
}

#[test]
fn requires_every_substring_on_one_line() {
    let text = "https:// on this line\ngaianet.xyz on that line";
    let required = reqs(&["https://", "gaianet.xyz"]);
    assert!(extract(text, &required).is_err());
}

#[test]
fn failure_carries_the_searched_substrings() {
    let text = "nothing to see";
    let required = reqs(&["https://", "gaianet.xyz"]);
    let failure = extract(text, &required).unwrap_err();
    assert_eq!(failure.required, vec!["https://".to_string(), "gaianet.xyz".to_string()]);
}

#[test]
fn empty_requirements_match_the_first_line() {
    let text = "alpha\nbeta";
    let required: Vec<String> = Vec::new();
    assert_eq!(extract(text, &required).unwrap(), "alpha");
}

#[test]
fn empty_text_with_empty_requirements_gives_empty_line() {
    let required: Vec<String> = Vec::new();
    assert_eq!(extract("", &required).unwrap(), "");
}

#[test]
fn empty_text_has_no_matching_line() {
    let required = reqs(&["https://"]);
    assert!(extract("", &required).is_err());
}

#[test]
fn match_on_the_last_line_without_trailing_newline() {
    let text = "one\ntwo\nsee https://tail.gaianet.xyz";
    let required = reqs(&["https://", "gaianet.xyz"]);
    assert_eq!(extract(text, &required).unwrap(), "see https://tail.gaianet.xyz");
}

#[test]
fn substring_repeated_in_requirements_still_matches() {
    let text = "go to https://dup.gaianet.xyz now";
    let required = reqs(&["https://", "https://", "gaianet.xyz"]);
    assert_eq!(extract(text, &required).unwrap(), "go to https://dup.gaianet.xyz now");
}
