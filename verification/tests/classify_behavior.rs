use opennav::classify::{apply_template, classify, template_is_valid, ResolvedTarget, SearchEngine};

fn engine(name: &str, keyword: &str, url: &str) -> SearchEngine {
    SearchEngine {
        name: name.to_string(),
        keyword: keyword.to_string(),
        url: url.to_string(),
        icon_path: None,
    }
}

fn url_of(target: ResolvedTarget) -> String {
    match target {
        ResolvedTarget::Url(u) => u,
        ResolvedTarget::NoArgument => panic!("expected a URL target"),
    }
}

#[test]
fn empty_input_means_no_argument() {
    let engines: Vec<SearchEngine> = Vec::new();
    assert_eq!(classify("", &engines, "g"), ResolvedTarget::NoArgument);
    assert_eq!(classify("   \t ", &engines, "g"), ResolvedTarget::NoArgument);
}

#[test]
fn bare_domain_gets_https_prefix() {
    let engines: Vec<SearchEngine> = Vec::new();
    assert_eq!(url_of(classify("example.com", &engines, "g")), "https://example.com");
}

#[test]
fn host_port_gets_https_prefix() {
    let engines: Vec<SearchEngine> = Vec::new();
    assert_eq!(url_of(classify("localhost:3000", &engines, "g")), "https://localhost:3000");
}

#[test]
fn absolute_url_passes_unchanged() {
    let engines: Vec<SearchEngine> = Vec::new();
    assert_eq!(url_of(classify("https://x.com", &engines, "g")), "https://x.com");
    assert_eq!(url_of(classify("ftp://files.example.org/a b", &engines, "g")), "ftp://files.example.org/a b");
}

#[test]
fn input_is_trimmed_before_classification() {
    let engines: Vec<SearchEngine> = Vec::new();
    assert_eq!(url_of(classify("  example.com \n", &engines, "g")), "https://example.com");
}

#[test]
fn plain_words_fall_back_to_builtin_search() {
    let engines: Vec<SearchEngine> = Vec::new();
    assert_eq!(
        url_of(classify("hello world", &engines, "g")),
        "https://www.google.com/search?q=hello+world"
    );
}

#[test]
fn keyword_prefix_selects_the_engine() {
    let engines = vec![engine("GitHub", "gh", "https://github.com/search?q={}")];
    assert_eq!(
        url_of(classify("gh rust lang", &engines, "g")),
        "https://github.com/search?q=rust+lang"
    );
}

#[test]
fn keyword_alone_queries_the_engine_with_nothing() {
    let engines = vec![engine("GitHub", "gh", "https://github.com/search?q={}")];
    assert_eq!(url_of(classify("gh", &engines, "g")), "https://github.com/search?q=");
}

#[test]
fn unknown_first_token_uses_the_default_engine_on_the_whole_input() {
    let engines = vec![engine("GitHub", "gh", "https://github.com/search?q={}")];
    assert_eq!(
        url_of(classify("rust lang", &engines, "gh")),
        "https://github.com/search?q=rust+lang"
    );
}

#[test]
fn missing_default_engine_falls_back_to_builtin() {
    let engines = vec![engine("GitHub", "gh", "https://github.com/search?q={}")];
    assert_eq!(
        url_of(classify("rust lang", &engines, "zz")),
        "https://www.google.com/search?q=rust+lang"
    );
}

#[test]
fn single_word_without_dot_is_a_search() {
    let engines: Vec<SearchEngine> = Vec::new();
    assert_eq!(url_of(classify("weather", &engines, "g")), "https://www.google.com/search?q=weather");
}

#[test]
fn template_substitution_replaces_the_placeholder() {
    assert_eq!(apply_template("https://e.org/?q={}&l=en", "a+b"), "https://e.org/?q=a+b&l=en");
    assert_eq!(apply_template("no placeholder here", "x"), "no placeholder here");
}

#[test]
fn template_validity_requires_exactly_one_placeholder() {
    assert!(template_is_valid("https://github.com/search?q={}"));
    assert!(template_is_valid("{}"));
    assert!(!template_is_valid("https://example.org/search"));
    assert!(!template_is_valid("a{}b{}c"));
    assert!(!template_is_valid("{}{}"));
    assert!(!template_is_valid(""));
}
